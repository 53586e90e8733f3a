use vstd::prelude::*;
use crate::buffer::Offset;

verus! {

/// Why a source text was refused.
#[derive(Debug, PartialEq, Eq, Structural)]
pub enum Error {
    /// A character that is no instruction, at this position among the
    /// characters that are not whitespace.
    InvalidInput(usize),
    /// A `]` with no open loop, or a `[` that is never closed.
    LoopNotCompatible,
}

/// The character of a decimal digit.
pub open spec fn digit_char(d: nat) -> char {
    seq!['0', '1', '2', '3', '4', '5', '6', '7', '8', '9'][d as int]
}

/// The decimal digits of `n`, most significant first, without sign or
/// padding.
pub open spec fn decimal(n: nat) -> Seq<char>
    decreases n,
{
    if n < 10 {
        seq![digit_char(n)]
    } else {
        decimal(n / 10).push(digit_char(n % 10))
    }
}

/// The text of one decimal digit.
fn digit_text(d: usize) -> (r: &'static str)
    requires
        d < 10,
    ensures
        r@ == seq![digit_char(d as nat)],
{
    proof {
        reveal_strlit("0");
        reveal_strlit("1");
        reveal_strlit("2");
        reveal_strlit("3");
        reveal_strlit("4");
        reveal_strlit("5");
        reveal_strlit("6");
        reveal_strlit("7");
        reveal_strlit("8");
        reveal_strlit("9");
    }
    let r = match d {
        0 => "0",
        1 => "1",
        2 => "2",
        3 => "3",
        4 => "4",
        5 => "5",
        6 => "6",
        7 => "7",
        8 => "8",
        _ => "9",
    };
    assert(r@ =~= seq![digit_char(d as nat)]);
    r
}

/// The decimal digits of `n` as text.
fn decimal_text(n: usize) -> (r: String)
    ensures
        r@ == decimal(n as nat),
    decreases n,
{
    let mut text = if n < 10 {
        String::new()
    } else {
        decimal_text(n / 10)
    };
    text.append(digit_text(n % 10));
    assert(text@ =~= decimal(n as nat));
    text
}

impl Error {
    /// The message of the error: `invalid input at <position>` or
    /// `loop not compatible`.
    pub fn message(&self) -> (r: String)
        ensures
            r@ == match self {
                Error::InvalidInput(pos) => "invalid input at "@ + decimal(*pos as nat),
                Error::LoopNotCompatible => "loop not compatible"@,
            },
    {
        match self {
            Error::InvalidInput(pos) => {
                let mut text = String::from_str("invalid input at ");
                let digits = decimal_text(*pos);
                text.append(digits.as_str());
                text
            },
            Error::LoopNotCompatible => String::from_str("loop not compatible"),
        }
    }
}

/// One instruction of the source, or a character that is none.
#[derive(Debug, Clone, Copy, PartialEq, Eq, Structural)]
pub enum Token {
    Forward,
    Backward,
    Inc,
    Dec,
    Input,
    Output,
    LoopStart,
    LoopEnd,
    Unknown(usize),
}

/// A node of the program tree.
#[derive(Debug)]
pub enum Expression {
    ValOffset(Offset<i32>),
    PtrOffset(Offset<usize>),
    Input,
    Output,
    Loop(Vec<Expression>),
}

/// The mathematical model of an `Expression`.
pub enum Node {
    Val(Offset<i32>),
    Ptr(Offset<usize>),
    In,
    Out,
    Repeat(Seq<Node>),
}

pub open spec fn node_of(e: Expression) -> Node
    decreases e,
{
    match e {
        Expression::ValOffset(o) => Node::Val(o),
        Expression::PtrOffset(o) => Node::Ptr(o),
        Expression::Input => Node::In,
        Expression::Output => Node::Out,
        Expression::Loop(body) => Node::Repeat(nodes_of(body@)),
    }
}

pub open spec fn nodes_of(s: Seq<Expression>) -> Seq<Node>
    decreases s,
{
    if s.len() == 0 {
        Seq::empty()
    } else {
        nodes_of(s.drop_last()).push(node_of(s.last()))
    }
}

/// ASCII whitespace: space, tab, line feed, form feed and carriage return.
pub open spec fn is_blank(c: char) -> bool {
    c == ' ' || c == '\t' || c == '\n' || c == '\x0C' || c == '\r'
}

/// The characters of `s` that are not whitespace, in order.
pub open spec fn strip(s: Seq<char>) -> Seq<char>
    decreases s.len(),
{
    if s.len() == 0 {
        s
    } else if is_blank(s.last()) {
        strip(s.drop_last())
    } else {
        strip(s.drop_last()).push(s.last())
    }
}

pub open spec fn token_of(c: char, pos: usize) -> Token {
    if c == '>' {
        Token::Forward
    } else if c == '<' {
        Token::Backward
    } else if c == '+' {
        Token::Inc
    } else if c == '-' {
        Token::Dec
    } else if c == ',' {
        Token::Input
    } else if c == '.' {
        Token::Output
    } else if c == '[' {
        Token::LoopStart
    } else if c == ']' {
        Token::LoopEnd
    } else {
        Token::Unknown(pos)
    }
}

/// The tokens of a source text: one per character that is not whitespace,
/// numbered among those characters.
pub open spec fn tokens_of(s: Seq<char>) -> Seq<Token> {
    Seq::new(strip(s).len(), |i: int| token_of(strip(s)[i], i as usize))
}

fn is_blank_char(c: char) -> (r: bool)
    ensures
        r == is_blank(c),
{
    c == ' ' || c == '\t' || c == '\n' || c == '\x0C' || c == '\r'
}

fn token_of_char(c: char, pos: usize) -> (r: Token)
    ensures
        r == token_of(c, pos),
{
    match c {
        '>' => Token::Forward,
        '<' => Token::Backward,
        '+' => Token::Inc,
        '-' => Token::Dec,
        ',' => Token::Input,
        '.' => Token::Output,
        '[' => Token::LoopStart,
        ']' => Token::LoopEnd,
        _ => Token::Unknown(pos),
    }
}

proof fn lemma_tokens_push(s: Seq<char>, c: char)
    ensures
        tokens_of(s.push(c)) == if is_blank(c) {
            tokens_of(s)
        } else {
            tokens_of(s).push(token_of(c, strip(s).len() as usize))
        },
{
    assert(s.push(c).drop_last() =~= s);
    assert(s.push(c).last() == c);
    if is_blank(c) {
        assert(tokens_of(s.push(c)) =~= tokens_of(s));
    } else {
        assert(tokens_of(s.push(c)) =~= tokens_of(s).push(token_of(c, strip(s).len() as usize)));
    }
}

/// Turns a source text into tokens, dropping whitespace.
pub fn tokenize(source: &str) -> (r: Vec<Token>)
    ensures
        r@ == tokens_of(source@),
{
    let mut tokens: Vec<Token> = Vec::new();
    for c in it: source.chars()
        invariant
            it.seq() == source@,
            tokens@ == tokens_of(source@.subrange(0, it.index() as int)),
            tokens@.len() == strip(source@.subrange(0, it.index() as int)).len(),
    {
        proof {
            let p = source@.subrange(0, it.index() as int);
            assert(source@.subrange(0, it.index() + 1) =~= p.push(c));
            lemma_tokens_push(p, c);
        }
        if !is_blank_char(c) {
            let t = token_of_char(c, tokens.len());
            tokens.push(t);
        }
    }
    assert(source@.subrange(0, source@.len() as int) =~= source@);
    tokens
}

/// Two offsets of the same direction combine into one whose magnitude is
/// their sum, where that sum fits.
pub open spec fn merge_ptr(a: Offset<usize>, b: Offset<usize>) -> Option<Offset<usize>> {
    match (a, b) {
        (Offset::Inc(x), Offset::Inc(y)) => if x + y <= usize::MAX {
            Some(Offset::Inc((x + y) as usize))
        } else {
            None
        },
        (Offset::Dec(x), Offset::Dec(y)) => if x + y <= usize::MAX {
            Some(Offset::Dec((x + y) as usize))
        } else {
            None
        },
        _ => None,
    }
}

/// As `merge_ptr`, for cell offsets.
pub open spec fn merge_val(a: Offset<i32>, b: Offset<i32>) -> Option<Offset<i32>> {
    match (a, b) {
        (Offset::Inc(x), Offset::Inc(y)) => if i32::MIN <= x + y <= i32::MAX {
            Some(Offset::Inc((x + y) as i32))
        } else {
            None
        },
        (Offset::Dec(x), Offset::Dec(y)) => if i32::MIN <= x + y <= i32::MAX {
            Some(Offset::Dec((x + y) as i32))
        } else {
            None
        },
        _ => None,
    }
}

/// Appends a pointer offset, merging it into a last node of the same kind
/// and direction.
pub open spec fn append_ptr(ns: Seq<Node>, o: Offset<usize>) -> Seq<Node> {
    if ns.len() > 0 && ns.last() is Ptr && merge_ptr(ns.last()->Ptr_0, o) is Some {
        ns.drop_last().push(Node::Ptr(merge_ptr(ns.last()->Ptr_0, o)->Some_0))
    } else {
        ns.push(Node::Ptr(o))
    }
}

/// Appends a cell offset, merging it into a last node of the same kind and
/// direction.
pub open spec fn append_val(ns: Seq<Node>, o: Offset<i32>) -> Seq<Node> {
    if ns.len() > 0 && ns.last() is Val && merge_val(ns.last()->Val_0, o) is Some {
        ns.drop_last().push(Node::Val(merge_val(ns.last()->Val_0, o)->Some_0))
    } else {
        ns.push(Node::Val(o))
    }
}

/// Parses `toks` from index `i`, inside `depth` open loops, after the nodes
/// `acc` of the current sequence. On success: the nodes of the sequence and
/// the index just past its closing `]` (or the end of input at depth zero).
pub open spec fn parse_seq(toks: Seq<Token>, i: int, depth: nat, acc: Seq<Node>) -> Result<
    (Seq<Node>, int),
    Error,
>
    decreases toks.len() - i,
{
    if i < 0 || i >= toks.len() {
        if depth > 0 {
            Err(Error::LoopNotCompatible)
        } else {
            Ok((acc, i))
        }
    } else {
        match toks[i] {
            Token::Unknown(p) => Err(Error::InvalidInput(p)),
            Token::Forward => parse_seq(toks, i + 1, depth, append_ptr(acc, Offset::Inc(1))),
            Token::Backward => parse_seq(toks, i + 1, depth, append_ptr(acc, Offset::Dec(1))),
            Token::Inc => parse_seq(toks, i + 1, depth, append_val(acc, Offset::Inc(1))),
            Token::Dec => parse_seq(toks, i + 1, depth, append_val(acc, Offset::Dec(1))),
            Token::Input => parse_seq(toks, i + 1, depth, acc.push(Node::In)),
            Token::Output => parse_seq(toks, i + 1, depth, acc.push(Node::Out)),
            Token::LoopStart => match parse_seq(toks, i + 1, depth + 1, Seq::empty()) {
                Err(e) => Err(e),
                Ok((body, j)) => if i < j <= toks.len() {
                    parse_seq(toks, j, depth, acc.push(Node::Repeat(body)))
                } else {
                    Err(Error::LoopNotCompatible)
                },
            },
            Token::LoopEnd => if depth == 0 {
                Err(Error::LoopNotCompatible)
            } else {
                Ok((acc, i + 1))
            },
        }
    }
}

/// The program tree of a source text, or why it is refused.
pub open spec fn parse_spec(s: Seq<char>) -> Result<Seq<Node>, Error> {
    match parse_seq(tokens_of(s), 0, 0, Seq::empty()) {
        Ok((ns, _)) => Ok(ns),
        Err(e) => Err(e),
    }
}

proof fn lemma_nodes_push(s: Seq<Expression>, e: Expression)
    ensures
        nodes_of(s.push(e)) == nodes_of(s).push(node_of(e)),
{
    assert(s.push(e).drop_last() =~= s);
}

fn merge_ptr_exec(a: Offset<usize>, b: Offset<usize>) -> (r: Option<Offset<usize>>)
    ensures
        r == merge_ptr(a, b),
{
    match (a, b) {
        (Offset::Inc(x), Offset::Inc(y)) => if x <= usize::MAX - y {
            Some(Offset::Inc(x + y))
        } else {
            None
        },
        (Offset::Dec(x), Offset::Dec(y)) => if x <= usize::MAX - y {
            Some(Offset::Dec(x + y))
        } else {
            None
        },
        _ => None,
    }
}

fn merge_val_exec(a: Offset<i32>, b: Offset<i32>) -> (r: Option<Offset<i32>>)
    ensures
        r == merge_val(a, b),
{
    match (a, b) {
        (Offset::Inc(x), Offset::Inc(y)) => match x.checked_add(y) {
            Some(z) => Some(Offset::Inc(z)),
            None => None,
        },
        (Offset::Dec(x), Offset::Dec(y)) => match x.checked_add(y) {
            Some(z) => Some(Offset::Dec(z)),
            None => None,
        },
        _ => None,
    }
}

/// Appends a cell offset, merging it into the last expression where that is
/// an offset of the cell in the same direction.
pub fn val_offset(expressions: &mut Vec<Expression>, offset: Offset<i32>)
    ensures
        nodes_of(final(expressions)@) == append_val(nodes_of(old(expressions)@), offset),
{
    let n = expressions.len();
    if n > 0 {
        if let Expression::ValOffset(last) = &expressions[n - 1] {
            if let Some(m) = merge_val_exec(*last, offset) {
                proof {
                    assert(nodes_of(old(expressions)@).last() == node_of(old(expressions)@.last()));
                }
                expressions.set(n - 1, Expression::ValOffset(m));
                proof {
                    assert(expressions@.drop_last() =~= old(expressions)@.drop_last());
                    assert(nodes_of(old(expressions)@).drop_last() =~= nodes_of(
                        old(expressions)@.drop_last(),
                    ));
                    assert(nodes_of(expressions@) == nodes_of(expressions@.drop_last()).push(
                        node_of(expressions@.last()),
                    ));
                }
                return;
            }
        }
    }
    proof {
        lemma_nodes_push(expressions@, Expression::ValOffset(offset));
    }
    expressions.push(Expression::ValOffset(offset));
}

/// Appends a pointer offset, merging it into the last expression where that
/// is an offset of the pointer in the same direction.
pub fn ptr_offset(expressions: &mut Vec<Expression>, offset: Offset<usize>)
    ensures
        nodes_of(final(expressions)@) == append_ptr(nodes_of(old(expressions)@), offset),
{
    let n = expressions.len();
    if n > 0 {
        if let Expression::PtrOffset(last) = &expressions[n - 1] {
            if let Some(m) = merge_ptr_exec(*last, offset) {
                proof {
                    assert(nodes_of(old(expressions)@).last() == node_of(old(expressions)@.last()));
                }
                expressions.set(n - 1, Expression::PtrOffset(m));
                proof {
                    assert(expressions@.drop_last() =~= old(expressions)@.drop_last());
                    assert(nodes_of(old(expressions)@).drop_last() =~= nodes_of(
                        old(expressions)@.drop_last(),
                    ));
                    assert(nodes_of(expressions@) == nodes_of(expressions@.drop_last()).push(
                        node_of(expressions@.last()),
                    ));
                }
                return;
            }
        }
    }
    proof {
        lemma_nodes_push(expressions@, Expression::PtrOffset(offset));
    }
    expressions.push(Expression::PtrOffset(offset));
}

/// Whether an executable parse result is the one of the model.
pub open spec fn parsed_as(
    r: Result<(Vec<Expression>, usize), Error>,
    m: Result<(Seq<Node>, int), Error>,
) -> bool {
    match (r, m) {
        (Ok((v, j)), Ok((ns, k))) => nodes_of(v@) == ns && j == k,
        (Err(e), Err(f)) => e == f,
        _ => false,
    }
}

/// Parses one sequence of expressions from `tokens[start..]`, inside `depth`
/// open loops. A sequence ends at its closing `]` or, at depth zero, at the
/// end of input.
fn parse_tokens(tokens: &Vec<Token>, start: usize, depth: usize) -> (r: Result<
    (Vec<Expression>, usize),
    Error,
>)
    requires
        start <= tokens.len(),
        depth <= start,
    ensures
        parsed_as(r, parse_seq(tokens@, start as int, depth as nat, Seq::empty())),
        r matches Ok((_, j)) ==> start <= j <= tokens.len(),
    decreases tokens.len() - start,
{
    let mut expressions: Vec<Expression> = Vec::new();
    let mut i: usize = start;
    while i < tokens.len()
        invariant
            start <= i <= tokens.len(),
            depth <= start,
            parse_seq(tokens@, start as int, depth as nat, Seq::empty()) == parse_seq(
                tokens@,
                i as int,
                depth as nat,
                nodes_of(expressions@),
            ),
        decreases tokens.len() - i,
    {
        let ghost acc = nodes_of(expressions@);
        match tokens[i] {
            Token::Unknown(pos) => {
                return Err(Error::InvalidInput(pos));
            },
            Token::Forward => ptr_offset(&mut expressions, Offset::Inc(1)),
            Token::Backward => ptr_offset(&mut expressions, Offset::Dec(1)),
            Token::Inc => val_offset(&mut expressions, Offset::Inc(1)),
            Token::Dec => val_offset(&mut expressions, Offset::Dec(1)),
            Token::Input => {
                proof {
                    lemma_nodes_push(expressions@, Expression::Input);
                }
                expressions.push(Expression::Input);
            },
            Token::Output => {
                proof {
                    lemma_nodes_push(expressions@, Expression::Output);
                }
                expressions.push(Expression::Output);
            },
            Token::LoopStart => {
                match parse_tokens(tokens, i + 1, depth + 1) {
                    Err(e) => {
                        return Err(e);
                    },
                    Ok((body, j)) => {
                        proof {
                            lemma_nodes_push(expressions@, Expression::Loop(body));
                        }
                        expressions.push(Expression::Loop(body));
                        i = j;
                        continue ;
                    },
                }
            },
            Token::LoopEnd => {
                if depth == 0 {
                    return Err(Error::LoopNotCompatible);
                } else {
                    return Ok((expressions, i + 1));
                }
            },
        }
        i = i + 1;
    }
    if depth > 0 {
        Err(Error::LoopNotCompatible)
    } else {
        Ok((expressions, i))
    }
}

/// Parses a source text into its program tree.
pub fn parse(source: &str) -> (r: Result<Vec<Expression>, Error>)
    ensures
        match (r, parse_spec(source@)) {
            (Ok(v), Ok(ns)) => nodes_of(v@) == ns,
            (Err(e), Err(f)) => e == f,
            _ => false,
        },
{
    let tokens = tokenize(source);
    match parse_tokens(&tokens, 0, 0) {
        Ok((expressions, _)) => Ok(expressions),
        Err(e) => Err(e),
    }
}

/// Whether `t` moves the pointer or changes the cell.
pub open spec fn is_offset(t: Token) -> bool {
    t is Forward || t is Backward || t is Inc || t is Dec
}

/// The single node that a run of `n` tokens `t` becomes.
pub open spec fn run_node(t: Token, n: nat) -> Node {
    match t {
        Token::Forward => Node::Ptr(Offset::Inc(n as usize)),
        Token::Backward => Node::Ptr(Offset::Dec(n as usize)),
        Token::Inc => Node::Val(Offset::Inc(n as i32)),
        _ => Node::Val(Offset::Dec(n as i32)),
    }
}

/// The longest run of tokens `t` that one node can hold.
pub open spec fn run_max(t: Token) -> nat {
    if t is Forward || t is Backward {
        usize::MAX as nat
    } else {
        i32::MAX as nat
    }
}

/// Whether the last node of `acc` is an offset of the same kind and
/// direction as `t`, so that a following `t` would join it.
pub open spec fn joins(acc: Seq<Node>, t: Token) -> bool {
    acc.len() > 0 && match (acc.last(), t) {
        (Node::Ptr(Offset::Inc(_)), Token::Forward) => true,
        (Node::Ptr(Offset::Dec(_)), Token::Backward) => true,
        (Node::Val(Offset::Inc(_)), Token::Inc) => true,
        (Node::Val(Offset::Dec(_)), Token::Dec) => true,
        _ => false,
    }
}

/// A run of `n` equal pointer or cell tokens, starting where it does not
/// join the node before it, parses to one node of magnitude `n`: the parse
/// goes on after the run exactly as after that single node.
pub proof fn lemma_run_merges(
    toks: Seq<Token>,
    i: int,
    n: nat,
    t: Token,
    depth: nat,
    acc: Seq<Node>,
)
    requires
        is_offset(t),
        1 <= n <= run_max(t),
        0 <= i,
        i + n <= toks.len(),
        forall|k: int| i <= k < i + n ==> toks[k] == t,
        !joins(acc, t),
    ensures
        parse_seq(toks, i, depth, acc) == parse_seq(toks, i + n, depth, acc.push(run_node(t, n))),
    decreases n,
{
    if n == 1 {
        assert(toks[i] == t);
    } else {
        lemma_run_merges(toks, i, (n - 1) as nat, t, depth, acc);
        let before = acc.push(run_node(t, (n - 1) as nat));
        assert(toks[i + n - 1] == t);
        assert(before.drop_last() =~= acc);
    }
}

/// One of the eight characters that are instructions.
pub open spec fn is_instruction(c: char) -> bool {
    c == '>' || c == '<' || c == '+' || c == '-' || c == ',' || c == '.' || c == '[' || c == ']'
}

/// How a token changes the number of open loops.
pub open spec fn nesting_change(t: Token) -> int {
    if t is LoopStart {
        1
    } else if t is LoopEnd {
        -1
    } else {
        0
    }
}

/// Loops opened minus loops closed by `toks[i..k]`.
pub open spec fn net_open(toks: Seq<Token>, i: int, k: int) -> int
    decreases k - i,
{
    if k <= i {
        0
    } else {
        net_open(toks, i, k - 1) + nesting_change(toks[k - 1])
    }
}

proof fn lemma_net_split(toks: Seq<Token>, i: int, j: int, k: int)
    requires
        i <= j <= k,
    ensures
        net_open(toks, i, k) == net_open(toks, i, j) + net_open(toks, j, k),
    decreases k - j,
{
    if k > j {
        lemma_net_split(toks, i, j, k - 1);
    }
}

/// A successful parse of one sequence opens and closes loops in balance: at
/// depth zero it consumes the rest of the input, inside a loop it stops just
/// after the `]` that closes that loop.
proof fn lemma_parse_ok_balanced(toks: Seq<Token>, i: int, depth: nat, acc: Seq<Node>)
    requires
        0 <= i <= toks.len(),
    ensures
        parse_seq(toks, i, depth, acc) matches Ok((_, j)) ==> {
            &&& i <= j <= toks.len()
            &&& depth == 0 ==> j == toks.len() && net_open(toks, i, j) == 0 && forall|k: int|
                i <= k <= toks.len() ==> #[trigger] net_open(toks, i, k) >= 0
            &&& depth > 0 ==> i < j && net_open(toks, i, j) == -1 && forall|k: int|
                i <= k < j ==> #[trigger] net_open(toks, i, k) >= 0
        },
    decreases toks.len() - i,
{
    if i < toks.len() {
        let t = toks[i];
        assert forall|k: int| i < k implies #[trigger] net_open(toks, i, k) == nesting_change(t)
            + net_open(toks, i + 1, k) by {
            lemma_net_split(toks, i, i + 1, k);
            assert(net_open(toks, i, i) == 0);
            assert(net_open(toks, i, i + 1) == nesting_change(t));
        }
        match t {
            Token::Forward => lemma_parse_ok_balanced(toks, i + 1, depth, append_ptr(acc, Offset::Inc(1))),
            Token::Backward => lemma_parse_ok_balanced(toks, i + 1, depth, append_ptr(acc, Offset::Dec(1))),
            Token::Inc => lemma_parse_ok_balanced(toks, i + 1, depth, append_val(acc, Offset::Inc(1))),
            Token::Dec => lemma_parse_ok_balanced(toks, i + 1, depth, append_val(acc, Offset::Dec(1))),
            Token::Input => lemma_parse_ok_balanced(toks, i + 1, depth, acc.push(Node::In)),
            Token::Output => lemma_parse_ok_balanced(toks, i + 1, depth, acc.push(Node::Out)),
            Token::LoopStart => {
                lemma_parse_ok_balanced(toks, i + 1, depth + 1, Seq::empty());
                if let Ok((body, j)) = parse_seq(toks, i + 1, depth + 1, Seq::empty()) {
                    if i < j <= toks.len() {
                        lemma_parse_ok_balanced(toks, j, depth, acc.push(Node::Repeat(body)));
                        assert(net_open(toks, i, j) == 0);
                        assert forall|k: int| j <= k implies #[trigger] net_open(toks, i, k)
                            == net_open(toks, j, k) by {
                            lemma_net_split(toks, i, j, k);
                        }
                    }
                }
            },
            _ => {},
        }
    }
}

/// Without unrecognised characters a parse can fail only on loop balance.
proof fn lemma_known_tokens_parse(toks: Seq<Token>, i: int, depth: nat, acc: Seq<Node>)
    requires
        0 <= i <= toks.len(),
        forall|k: int| i <= k < toks.len() ==> !(#[trigger] toks[k] is Unknown),
    ensures
        parse_seq(toks, i, depth, acc) matches Err(e) ==> e == Error::LoopNotCompatible,
    decreases toks.len() - i,
{
    if i < toks.len() {
        match toks[i] {
            Token::Forward => lemma_known_tokens_parse(toks, i + 1, depth, append_ptr(acc, Offset::Inc(1))),
            Token::Backward => lemma_known_tokens_parse(toks, i + 1, depth, append_ptr(acc, Offset::Dec(1))),
            Token::Inc => lemma_known_tokens_parse(toks, i + 1, depth, append_val(acc, Offset::Inc(1))),
            Token::Dec => lemma_known_tokens_parse(toks, i + 1, depth, append_val(acc, Offset::Dec(1))),
            Token::Input => lemma_known_tokens_parse(toks, i + 1, depth, acc.push(Node::In)),
            Token::Output => lemma_known_tokens_parse(toks, i + 1, depth, acc.push(Node::Out)),
            Token::LoopStart => {
                lemma_known_tokens_parse(toks, i + 1, depth + 1, Seq::empty());
                if let Ok((body, j)) = parse_seq(toks, i + 1, depth + 1, Seq::empty()) {
                    if i < j <= toks.len() {
                        lemma_known_tokens_parse(toks, j, depth, acc.push(Node::Repeat(body)));
                    }
                }
            },
            _ => {},
        }
    }
}

/// The error that the token at which a parse stops is reported with.
pub open spec fn refusal(t: Token) -> Error {
    match t {
        Token::Unknown(q) => Error::InvalidInput(q),
        _ => Error::LoopNotCompatible,
    }
}

/// Parsing from `i` toward `p`, the first unrecognised token or the first
/// `]` that closes no loop, with no `]` on the way that closes a loop opened
/// before `depth` levels: either the parse reports the token at `p`, or
/// (inside a loop) it returns just after the `]` that closes that loop,
/// before `p`.
proof fn lemma_parse_reaches_stop(
    toks: Seq<Token>,
    i: int,
    p: int,
    depth: nat,
    acc: Seq<Node>,
)
    requires
        0 <= i <= p < toks.len(),
        toks[p] is Unknown || (toks[p] is LoopEnd && depth + net_open(toks, i, p) == 0),
        forall|q: int| i <= q < p ==> !(#[trigger] toks[q] is Unknown),
        forall|k: int| i <= k <= p ==> depth + #[trigger] net_open(toks, i, k) >= 0,
    ensures
        parse_seq(toks, i, depth, acc) == Err::<(Seq<Node>, int), Error>(refusal(toks[p])) || (depth > 0 && (parse_seq(toks, i, depth, acc) matches Ok((_, j)) && i < j <= p
            && net_open(toks, i, j) == -1)),
    decreases p - i,
{
    if i < p {
        let t = toks[i];
        assert(!(toks[i] is Unknown));
        assert forall|k: int| i < k implies #[trigger] net_open(toks, i, k) == nesting_change(t)
            + net_open(toks, i + 1, k) by {
            lemma_net_split(toks, i, i + 1, k);
            assert(net_open(toks, i, i) == 0);
            assert(net_open(toks, i, i + 1) == nesting_change(t));
        }
        assert forall|k: int| i + 1 <= k <= p implies depth + nesting_change(t) + #[trigger] net_open(
            toks,
            i + 1,
            k,
        ) >= 0 by {
            assert(depth + net_open(toks, i, k) >= 0);
        }
        match t {
            Token::Forward => lemma_parse_reaches_stop(toks, i + 1, p, depth, append_ptr(acc, Offset::Inc(1))),
            Token::Backward => lemma_parse_reaches_stop(toks, i + 1, p, depth, append_ptr(acc, Offset::Dec(1))),
            Token::Inc => lemma_parse_reaches_stop(toks, i + 1, p, depth, append_val(acc, Offset::Inc(1))),
            Token::Dec => lemma_parse_reaches_stop(toks, i + 1, p, depth, append_val(acc, Offset::Dec(1))),
            Token::Input => lemma_parse_reaches_stop(toks, i + 1, p, depth, acc.push(Node::In)),
            Token::Output => lemma_parse_reaches_stop(toks, i + 1, p, depth, acc.push(Node::Out)),
            Token::LoopStart => {
                lemma_parse_reaches_stop(toks, i + 1, p, depth + 1, Seq::empty());
                if let Ok((body, j)) = parse_seq(toks, i + 1, depth + 1, Seq::empty()) {
                    assert(net_open(toks, i, j) == 0);
                    assert forall|k: int| j <= k implies #[trigger] net_open(toks, i, k) == net_open(
                        toks,
                        j,
                        k,
                    ) by {
                        lemma_net_split(toks, i, j, k);
                    }
                    assert forall|k: int| j <= k <= p implies depth + #[trigger] net_open(toks, j, k)
                        >= 0 by {
                        assert(depth + net_open(toks, i, k) >= 0);
                    }
                    lemma_parse_reaches_stop(toks, j, p, depth, acc.push(Node::Repeat(body)));
                }
            },
            _ => {
                assert(depth + net_open(toks, i, i + 1) >= 0);
            },
        }
    }
}

/// A source text with a character that is neither an instruction nor
/// whitespace is refused with `InvalidInput` at the position of the first
/// such character among the characters that are not whitespace, provided no
/// `]` before it closes a loop that was never opened.
pub proof fn lemma_unknown_character_refused(s: Seq<char>, p: int)
    requires
        0 <= p < strip(s).len(),
        !is_instruction(strip(s)[p]),
        forall|q: int| 0 <= q < p ==> is_instruction(#[trigger] strip(s)[q]),
        forall|k: int| 0 <= k <= p ==> #[trigger] net_open(tokens_of(s), 0, k) >= 0,
    ensures
        parse_spec(s) == Err::<Seq<Node>, Error>(Error::InvalidInput(p as usize)),
{
    let toks = tokens_of(s);
    assert forall|q: int| 0 <= q < p implies !(#[trigger] toks[q] is Unknown) by {
        assert(is_instruction(strip(s)[q]));
    }
    assert(toks[p] == Token::Unknown(p as usize));
    lemma_parse_reaches_stop(toks, 0, p, 0, Seq::empty());
}

/// A `]` that closes no open `[` makes the parse fail with
/// `LoopNotCompatible`, provided every character before it is an
/// instruction or whitespace (an earlier unrecognised character is reported
/// first).
pub proof fn lemma_unmatched_close_refused(s: Seq<char>, p: int)
    requires
        0 <= p < strip(s).len(),
        strip(s)[p] == ']',
        net_open(tokens_of(s), 0, p) == 0,
        forall|k: int| 0 <= k <= p ==> #[trigger] net_open(tokens_of(s), 0, k) >= 0,
        forall|q: int| 0 <= q < p ==> is_instruction(#[trigger] strip(s)[q]),
    ensures
        parse_spec(s) == Err::<Seq<Node>, Error>(Error::LoopNotCompatible),
{
    let toks = tokens_of(s);
    assert forall|q: int| 0 <= q < p implies !(#[trigger] toks[q] is Unknown) by {
        assert(is_instruction(strip(s)[q]));
    }
    assert(toks[p] == Token::LoopEnd);
    lemma_parse_reaches_stop(toks, 0, p, 0, Seq::empty());
}

/// A `[` that is never closed makes the parse fail with `LoopNotCompatible`,
/// provided every character is an instruction or whitespace (an
/// unrecognised character is reported first).
pub proof fn lemma_unclosed_open_refused(s: Seq<char>)
    requires
        forall|k: int| 0 <= k < strip(s).len() ==> is_instruction(#[trigger] strip(s)[k]),
        forall|k: int| 0 <= k <= tokens_of(s).len() ==> #[trigger] net_open(tokens_of(s), 0, k) >= 0,
        net_open(tokens_of(s), 0, tokens_of(s).len() as int) > 0,
    ensures
        parse_spec(s) == Err::<Seq<Node>, Error>(Error::LoopNotCompatible),
{
    let toks = tokens_of(s);
    assert forall|k: int| 0 <= k < toks.len() implies !(#[trigger] toks[k] is Unknown) by {
        assert(is_instruction(strip(s)[k]));
    }
    lemma_parse_ok_balanced(toks, 0, 0, Seq::empty());
    lemma_known_tokens_parse(toks, 0, 0, Seq::empty());
}

proof fn lemma_strip_repeated(c: char, n: nat)
    requires
        !is_blank(c),
    ensures
        strip(Seq::new(n, |i: int| c)) == Seq::new(n, |i: int| c),
    decreases n,
{
    if n > 0 {
        assert(Seq::new(n, |i: int| c).drop_last() =~= Seq::new((n - 1) as nat, |i: int| c));
        lemma_strip_repeated(c, (n - 1) as nat);
        assert(Seq::new((n - 1) as nat, |i: int| c).push(c) =~= Seq::new(n, |i: int| c));
    }
}

/// A source text made of `n` copies of one of `>`, `<`, `+`, `-` parses to a
/// tree of exactly one node: that offset with magnitude `n`.
pub proof fn lemma_repeated_offset_parses_to_one_node(c: char, n: nat)
    requires
        c == '>' || c == '<' || c == '+' || c == '-',
        1 <= n <= run_max(token_of(c, 0)),
    ensures
        parse_spec(Seq::new(n, |i: int| c)) == Ok::<Seq<Node>, Error>(
            seq![run_node(token_of(c, 0), n)],
        ),
{
    let src = Seq::new(n, |i: int| c);
    let t = token_of(c, 0);
    lemma_strip_repeated(c, n);
    let toks = tokens_of(src);
    assert forall|k: int| 0 <= k < n implies toks[k] == t by {
        assert(token_of(c, k as usize) == t);
    }
    lemma_run_merges(toks, 0, n, t, 0, Seq::empty());
    assert(Seq::<Node>::empty().push(run_node(t, n)) =~= seq![run_node(t, n)]);
}

} // verus!
