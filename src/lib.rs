use vstd::prelude::*;

pub mod buffer;
pub mod parser;
pub mod semantics;

use crate::buffer::{Buffer, Offset};
use crate::parser::{Expression, node_of, nodes_of, parse_spec};
use crate::semantics::{Call, State, Stop, Outcome, step, eval_seq, eval_loop};

verus! {

/// Number of cells on the tape of a run.
pub const TAPE_SIZE: usize = 256;

/// Why a run failed.
#[derive(Debug)]
pub enum Error<IOErr> {
    /// The source text was refused before anything ran.
    Parser(parser::Error),
    /// The I/O boundary failed; its own error, unchanged.
    IO(IOErr),
    /// The pointer was used while it designated no cell, or moved below zero.
    OutOfBounds,
    /// A cell left the range of `i32`.
    Overflow,
    /// A loop repeated more times than the run's limit allows.
    LoopLimit,
}

impl<IOErr> From<parser::Error> for Error<IOErr> {
    fn from(err: parser::Error) -> (r: Self)
        ensures
            r == Error::<IOErr>::Parser(err),
    {
        Error::Parser(err)
    }
}

impl<IOErr> vstd::std_specs::convert::FromSpecImpl<parser::Error> for Error<IOErr> {
    open spec fn obeys_from_spec() -> bool {
        true
    }

    open spec fn from_spec(err: parser::Error) -> Self {
        Error::Parser(err)
    }
}

/// One exchange with the I/O boundary: the request, and its answer (`None`
/// where the call failed; for an input, `Some` of the value read; for an
/// output, `Some` of the value sent).
pub type Exchange = (Call, Option<i32>);

/// The boundary through which a program reads and writes values.
pub trait IO {
    type Err;

    /// Every exchange made with this boundary so far, oldest first. An
    /// implementation that Verus checks defines it and keeps it up to date.
    closed spec fn log(&self) -> Seq<Exchange> {
        Seq::empty()
    }

    /// The next input value.
    fn input(&mut self) -> (r: Result<i32, Self::Err>)
        ensures
            final(self).log() == old(self).log().push(
                (
                    Call::Input,
                    match r {
                        Ok(v) => Some(v),
                        Err(_) => None,
                    },
                ),
            ),
    ;

    /// Emits one value.
    fn output(&mut self, val: i32) -> (r: Result<(), Self::Err>)
        ensures
            final(self).log() == old(self).log().push(
                (Call::Output(val), if r is Ok { Some(val) } else { None }),
            ),
    ;
}

/// The requests recorded in a sequence of exchanges.
pub open spec fn requests(entries: Seq<Exchange>) -> Seq<Call> {
    Seq::new(entries.len(), |i: int| entries[i].0)
}

/// The answers recorded in a sequence of exchanges.
pub open spec fn answers(entries: Seq<Exchange>) -> Seq<Option<i32>> {
    Seq::new(entries.len(), |i: int| entries[i].1)
}

/// Pairs each request with its answer.
pub open spec fn exchanges(calls: Seq<Call>, replies: Seq<Option<i32>>) -> Seq<Exchange> {
    Seq::new(calls.len(), |i: int| (calls[i], replies[i]))
}

/// Whether a run's result reports the way an evaluation stopped.
pub open spec fn reports<E>(r: Result<(), Error<E>>, stop: Option<Stop>) -> bool {
    match r {
        Ok(()) => stop is None,
        Err(Error::Parser(_)) => false,
        Err(Error::IO(_)) => stop == Some(Stop::Io),
        Err(Error::OutOfBounds) => stop == Some(Stop::OutOfBounds),
        Err(Error::Overflow) => stop == Some(Stop::Overflow),
        Err(Error::LoopLimit) => stop == Some(Stop::LoopLimit),
    }
}

/// The state in which every run starts: `TAPE_SIZE` zero cells, the pointer
/// on the first, no I/O yet.
pub open spec fn initial_state() -> State {
    State { cells: Seq::new(TAPE_SIZE as nat, |i: int| 0i32), ptr: 0, calls: Seq::empty() }
}

/// A run of `program` whose exchanges with the I/O boundary were `fresh`:
/// its requests are exactly those of the model evaluation that receives the
/// same answers, and the result reports how that evaluation stopped.
pub open spec fn run_matches<E>(
    program: Seq<parser::Node>,
    limit: nat,
    fresh: Seq<Exchange>,
    r: Result<(), Error<E>>,
) -> bool {
    let o = eval_seq(program, initial_state(), limit, answers(fresh));
    &&& o.state.calls == requests(fresh)
    &&& reports(r, o.stop)
}

/// The tape of a run, with the I/O requests made and the answers received.
struct Session {
    buffer: Buffer,
    base: Ghost<Seq<Exchange>>,
    calls: Ghost<Seq<Call>>,
    replies: Ghost<Seq<Option<i32>>>,
}

impl Session {
    spec fn state(&self) -> State {
        State { cells: self.buffer.cells(), ptr: self.buffer.ptr() as int, calls: self.calls@ }
    }

    spec fn wf(&self) -> bool {
        self.calls@.len() == self.replies@.len()
    }

    /// The boundary's log is what it held before the run, then the
    /// session's requests with their answers.
    spec fn logged<T: IO>(&self, io: &T) -> bool {
        io.log() == self.base@ + exchanges(self.calls@, self.replies@)
    }
}

proof fn lemma_log_push(
    base: Seq<Exchange>,
    calls: Seq<Call>,
    replies: Seq<Option<i32>>,
    c: Call,
    a: Option<i32>,
)
    requires
        calls.len() == replies.len(),
    ensures
        base + exchanges(calls.push(c), replies.push(a)) == (base + exchanges(calls, replies)).push(
            (c, a),
        ),
{
    assert(exchanges(calls.push(c), replies.push(a)) =~= exchanges(calls, replies).push((c, a)));
    assert(base + exchanges(calls, replies).push((c, a)) =~= (base + exchanges(calls, replies)).push(
        (c, a),
    ));
}

/// The outcome of a model run is the session's state and the result.
spec fn reached<E>(o: Outcome, s: &Session, r: Result<(), Error<E>>) -> bool {
    o.state == s.state() && reports(r, o.stop)
}

proof fn lemma_nodes_index(s: Seq<Expression>)
    ensures
        nodes_of(s).len() == s.len(),
        forall|k: int| 0 <= k < s.len() ==> #[trigger] nodes_of(s)[k] == node_of(s[k]),
    decreases s.len(),
{
    if s.len() > 0 {
        lemma_nodes_index(s.drop_last());
    }
}

proof fn lemma_prefix_reply(got: Seq<Option<i32>>, r: Seq<Option<i32>>, k: int)
    requires
        got.is_prefix_of(r),
        0 <= k < got.len(),
    ensures
        semantics::reply(r, k) == got[k],
{
    assert(r.subrange(0, got.len() as int)[k] == r[k]);
}

/// Records the answer to a new I/O request in the session.
proof fn lemma_record(old_s: &Session, s: &Session, answer: Option<i32>)
    requires
        old_s.wf(),
        s.replies@ == old_s.replies@.push(answer),
    ensures
        forall|rs: Seq<Option<i32>>|
            s.replies@.is_prefix_of(rs) ==> old_s.replies@.is_prefix_of(rs)
                && semantics::reply(rs, old_s.calls@.len() as int) == answer,
{
    assert forall|rs: Seq<Option<i32>>| s.replies@.is_prefix_of(rs) implies old_s.replies@.is_prefix_of(rs)
        && semantics::reply(rs, old_s.calls@.len() as int) == answer by {
        lemma_prefix_reply(s.replies@, rs, s.replies@.len() - 1);
        assert(rs.subrange(0, old_s.replies@.len() as int) =~= s.replies@.subrange(
            0,
            old_s.replies@.len() as int,
        ));
    }
    assert(s.replies@.subrange(0, old_s.replies@.len() as int) =~= old_s.replies@);
}

/// Performs one expression that is not a loop.
fn eval_step<T: IO>(e: &Expression, s: &mut Session, inout: &mut T) -> (r: Result<
    (),
    Error<T::Err>,
>)
    requires
        old(s).wf(),
        old(s).logged(old(inout)),
        !(e is Loop),
    ensures
        final(s).wf(),
        final(s).logged(final(inout)),
        final(s).base == old(s).base,
        old(s).replies@.is_prefix_of(final(s).replies@),
        forall|rs: Seq<Option<i32>>|
            final(s).replies@.is_prefix_of(rs) ==> reached(
                #[trigger] step(node_of(*e), old(s).state(), rs),
                final(s),
                r,
            ),
{
    match e {
        Expression::PtrOffset(offset) => {
            let p = s.buffer.pointer();
            match *offset {
                Offset::Inc(m) => {
                    if m > usize::MAX - p {
                        return Err(Error::OutOfBounds);
                    }
                },
                Offset::Dec(m) => {
                    if m > p {
                        return Err(Error::OutOfBounds);
                    }
                },
            }
            s.buffer.offset_ptr(*offset);
            Ok(())
        },
        Expression::ValOffset(offset) => {
            if !s.buffer.is_in_bounds() {
                return Err(Error::OutOfBounds);
            }
            let cur = s.buffer.read();
            let fits = match *offset {
                Offset::Inc(m) => cur.checked_add(m).is_some(),
                Offset::Dec(m) => cur.checked_sub(m).is_some(),
            };
            if !fits {
                return Err(Error::Overflow);
            }
            s.buffer.offset_val(*offset);
            Ok(())
        },
        Expression::Input => {
            let got = inout.input();
            let ghost answer = match got {
                Ok(v) => Some(v),
                Err(_) => None,
            };
            let ghost before = *s;
            proof {
                lemma_log_push(s.base@, s.calls@, s.replies@, Call::Input, answer);
                s.calls@ = s.calls@.push(Call::Input);
                s.replies@ = s.replies@.push(answer);
                lemma_record(&before, s, answer);
                assert(s.replies@.is_prefix_of(s.replies@));
            }
            match got {
                Ok(v) => {
                    if !s.buffer.is_in_bounds() {
                        return Err(Error::OutOfBounds);
                    }
                    s.buffer.write(v);
                    Ok(())
                },
                Err(err) => Err(Error::IO(err)),
            }
        },
        Expression::Output => {
            if !s.buffer.is_in_bounds() {
                return Err(Error::OutOfBounds);
            }
            let v = s.buffer.read();
            let sent = inout.output(v);
            let ghost answer = match sent {
                Ok(_) => Some(v),
                Err(_) => None,
            };
            let ghost before = *s;
            proof {
                lemma_log_push(s.base@, s.calls@, s.replies@, Call::Output(v), answer);
                s.calls@ = s.calls@.push(Call::Output(v));
                s.replies@ = s.replies@.push(answer);
                lemma_record(&before, s, answer);
                assert(s.replies@.is_prefix_of(s.replies@));
            }
            match sent {
                Ok(()) => Ok(()),
                Err(err) => Err(Error::IO(err)),
            }
        },
        Expression::Loop(_) => Ok(()),
    }
}

/// Evaluates a sequence of expressions in order against the session's tape.
/// Each loop may run its body at most `limit` times each time it is entered.
fn eval<T: IO>(expressions: &Vec<Expression>, s: &mut Session, inout: &mut T, limit: u64) -> (r:
    Result<(), Error<T::Err>>)
    requires
        old(s).wf(),
        old(s).logged(old(inout)),
    ensures
        final(s).wf(),
        final(s).logged(final(inout)),
        final(s).base == old(s).base,
        old(s).replies@.is_prefix_of(final(s).replies@),
        forall|rs: Seq<Option<i32>>|
            final(s).replies@.is_prefix_of(rs) ==> reached(
                #[trigger] eval_seq(nodes_of(expressions@), old(s).state(), limit as nat, rs),
                final(s),
                r,
            ),
    decreases expressions@,
{
    let ghost ns = nodes_of(expressions@);
    let ghost s0 = *s;
    let ghost lim = limit as nat;
    proof {
        lemma_nodes_index(expressions@);
        assert(ns.subrange(0, ns.len() as int) =~= ns);
        assert(s.replies@.is_prefix_of(s.replies@));
    }
    let mut i: usize = 0;
    while i < expressions.len()
        invariant
            0 <= i <= expressions.len(),
            ns == nodes_of(expressions@),
            ns.len() == expressions@.len(),
            forall|k: int| 0 <= k < expressions@.len() ==> #[trigger] ns[k] == node_of(expressions@[k]),
            s.wf(),
            s0.wf(),
            s.logged(inout),
            s.base == s0.base,
            s0 == *old(s),
            lim == limit as nat,
            s0.replies@.is_prefix_of(s.replies@),
            forall|rs: Seq<Option<i32>>|
                s.replies@.is_prefix_of(rs) ==> #[trigger] eval_seq(ns, s0.state(), lim, rs)
                    == eval_seq(ns.subrange(i as int, ns.len() as int), s.state(), lim, rs),
        decreases expressions.len() - i,
    {
        let ghost si = *s;
        let ghost rest = ns.subrange(i as int, ns.len() as int);
        let ghost node = rest[0];
        proof {
            assert(rest.subrange(1, rest.len() as int) =~= ns.subrange(i + 1, ns.len() as int));
            assert(node == node_of(expressions@[i as int]));
        }
        match &expressions[i] {
            Expression::Loop(body) => {
                let mut left: u64 = limit;
                proof {
                    assert(s.replies@.is_prefix_of(s.replies@));
                }
                loop
                    invariant
                        s.wf(),
                        si.wf(),
                        s.logged(inout),
                        s.base == s0.base,
                        s0 == *old(s),
                        lim == limit as nat,
                        i < expressions.len(),
                        expressions@[i as int] == Expression::Loop(*body),
                        ns == nodes_of(expressions@),
                        ns.len() == expressions@.len(),
                        rest == ns.subrange(i as int, ns.len() as int),
                        rest.len() > 0,
                        node == rest[0],
                        rest.subrange(1, rest.len() as int) == ns.subrange(i + 1, ns.len() as int),
                        node == parser::Node::Repeat(nodes_of(body@)),
                        si.replies@.is_prefix_of(s.replies@),
                        s0.replies@.is_prefix_of(si.replies@),
                        forall|rs: Seq<Option<i32>>|
                            si.replies@.is_prefix_of(rs) ==> #[trigger] eval_seq(ns, s0.state(), lim, rs)
                                == eval_seq(rest, si.state(), lim, rs),
                        forall|rs: Seq<Option<i32>>|
                            s.replies@.is_prefix_of(rs) ==> #[trigger] eval_loop(node, si.state(), lim, lim, rs)
                                == eval_loop(node, s.state(), lim, left as nat, rs),
                    ensures
                        semantics::in_range(s.state()),
                        s.state().cells[s.state().ptr] <= 0,
                    decreases left,
                {
                    let ghost sk = *s;
                    if !s.buffer.is_in_bounds() {
                        proof {
                            assert forall|rs: Seq<Option<i32>>| s.replies@.is_prefix_of(rs) implies reached(
                                #[trigger] eval_seq(nodes_of(expressions@), old(s).state(), limit as nat, rs),
                                s,
                                Err::<(), Error<T::Err>>(Error::OutOfBounds),
                            ) by {
                                lemma_prefix_trans(si.replies@, s.replies@, rs);
                                assert(eval_loop(node, si.state(), lim, lim, rs) == eval_loop(node, s.state(), lim, left as nat, rs));
                            }
                            lemma_prefix_trans(s0.replies@, si.replies@, s.replies@);
                        }
                        return Err(Error::OutOfBounds);
                    }
                    if s.buffer.read() <= 0 {
                        break;
                    }
                    if left == 0 {
                        proof {
                            assert forall|rs: Seq<Option<i32>>| s.replies@.is_prefix_of(rs) implies reached(
                                #[trigger] eval_seq(nodes_of(expressions@), old(s).state(), limit as nat, rs),
                                s,
                                Err::<(), Error<T::Err>>(Error::LoopLimit),
                            ) by {
                                lemma_prefix_trans(si.replies@, s.replies@, rs);
                                assert(eval_loop(node, si.state(), lim, lim, rs) == eval_loop(node, s.state(), lim, left as nat, rs));
                            }
                            lemma_prefix_trans(s0.replies@, si.replies@, s.replies@);
                        }
                        return Err(Error::LoopLimit);
                    }
                    proof {
                        assert(decreases_to!(expressions@ => expressions@[i as int]));
                        assert(decreases_to!(expressions@[i as int] => expressions@[i as int]->Loop_0));
                        assert(decreases_to!(*body => body@)) by {
                            broadcast use vstd::std_specs::vec::axiom_vec_decreases_to_view;
                        }
                    }
                    let r = eval(body, s, inout, limit);
                    proof {
                        lemma_prefix_trans(si.replies@, sk.replies@, s.replies@);
                        assert forall|rs: Seq<Option<i32>>| s.replies@.is_prefix_of(rs) implies
                            #[trigger] eval_loop(node, sk.state(), lim, left as nat, rs) == {
                                let once = eval_seq(nodes_of(body@), sk.state(), lim, rs);
                                if once.stop is Some {
                                    once
                                } else {
                                    eval_loop(node, once.state, lim, (left - 1) as nat, rs)
                                }
                            } by {
                        }
                    }
                    match r {
                        Err(e) => {
                            proof {
                                assert forall|rs: Seq<Option<i32>>| s.replies@.is_prefix_of(rs) implies reached(
                                    #[trigger] eval_seq(nodes_of(expressions@), old(s).state(), limit as nat, rs),
                                    s,
                                    Err::<(), Error<T::Err>>(e),
                                ) by {
                                    lemma_prefix_trans(sk.replies@, s.replies@, rs);
                                    lemma_prefix_trans(si.replies@, sk.replies@, rs);
                                    assert(eval_loop(node, si.state(), lim, lim, rs) == eval_loop(node, sk.state(), lim, left as nat, rs));
                                }
                                lemma_prefix_trans(s0.replies@, si.replies@, s.replies@);
                            }
                            return Err(e);
                        },
                        Ok(()) => {},
                    }
                    left = left - 1;
                    proof {
                        assert forall|rs: Seq<Option<i32>>| s.replies@.is_prefix_of(rs) implies
                            #[trigger] eval_loop(node, si.state(), lim, lim, rs)
                                == eval_loop(node, s.state(), lim, left as nat, rs) by {
                            lemma_prefix_trans(sk.replies@, s.replies@, rs);
                            assert(eval_loop(node, si.state(), lim, lim, rs) == eval_loop(node, sk.state(), lim, (left + 1) as nat, rs));
                        }
                    }
                }
                proof {
                    assert forall|rs: Seq<Option<i32>>| s.replies@.is_prefix_of(rs) implies
                        #[trigger] eval_seq(ns, s0.state(), lim, rs)
                            == eval_seq(ns.subrange(i + 1, ns.len() as int), s.state(), lim, rs) by {
                        lemma_prefix_trans(si.replies@, s.replies@, rs);
                        assert(eval_loop(node, si.state(), lim, lim, rs) == eval_loop(node, s.state(), lim, left as nat, rs));
                        assert(eval_loop(node, s.state(), lim, left as nat, rs) == semantics::proceed(s.state()));
                        assert(eval_seq(rest, si.state(), lim, rs) == eval_seq(rest.subrange(1, rest.len() as int), s.state(), lim, rs));
                        assert(eval_seq(ns, s0.state(), lim, rs) == eval_seq(rest, si.state(), lim, rs));
                    }
                    lemma_prefix_trans(s0.replies@, si.replies@, s.replies@);
                }
            },
            _ => {
                let r = eval_step(&expressions[i], s, inout);
                proof {
                    lemma_prefix_trans(s0.replies@, si.replies@, s.replies@);
                    assert forall|rs: Seq<Option<i32>>| s.replies@.is_prefix_of(rs) implies
                        #[trigger] eval_seq(ns, s0.state(), lim, rs)
                            == eval_seq(rest, si.state(), lim, rs) by {
                        lemma_prefix_trans(si.replies@, s.replies@, rs);
                    }
                }
                if r.is_err() {
                    return r;
                }
            },
        }
        i = i + 1;
    }
    Ok(())
}

proof fn lemma_prefix_trans(a: Seq<Option<i32>>, b: Seq<Option<i32>>, c: Seq<Option<i32>>)
    requires
        a.is_prefix_of(b),
        b.is_prefix_of(c),
    ensures
        a.is_prefix_of(c),
{
    assert(c.subrange(0, a.len() as int) =~= b.subrange(0, a.len() as int));
}

/// Parses `source` and evaluates it on a fresh tape of `TAPE_SIZE` cells,
/// reading and writing through `inout`. Each loop may run its body at most
/// `limit` times each time it is entered.
///
/// A refused source is reported with no exchange with `inout`. Otherwise the
/// requests made of `inout` are exactly those of the model evaluation given
/// the answers that `inout` returned, and the result says how it stopped.
pub fn run_bounded<InOut: IO>(source: &str, inout: &mut InOut, limit: u64) -> (r: Result<
    (),
    Error<InOut::Err>,
>)
    ensures
        old(inout).log().is_prefix_of(final(inout).log()),
        parse_spec(source@) is Err ==> r == Err::<(), Error<InOut::Err>>(
            Error::Parser(parse_spec(source@)->Err_0),
        ) && final(inout).log() == old(inout).log(),
        parse_spec(source@) is Ok ==> run_matches(
            parse_spec(source@)->Ok_0,
            limit as nat,
            final(inout).log().skip(old(inout).log().len() as int),
            r,
        ),
{
    let ghost before = inout.log();
    let expressions = match parser::parse(source) {
        Ok(expressions) => expressions,
        Err(e) => {
            return Err(Error::Parser(e));
        },
    };
    let mut session = Session {
        buffer: Buffer::new(TAPE_SIZE),
        base: Ghost(inout.log()),
        calls: Ghost(Seq::empty()),
        replies: Ghost(Seq::empty()),
    };
    proof {
        assert(session.state().cells =~= initial_state().cells);
        assert(session.state() == initial_state());
        assert(inout.log() =~= session.base@ + exchanges(session.calls@, session.replies@));
    }
    let r = eval(&expressions, &mut session, inout, limit);
    proof {
        assert(session.replies@.is_prefix_of(session.replies@));
        let replies = session.replies@;
        let fresh = inout.log().skip(before.len() as int);
        assert(fresh =~= exchanges(session.calls@, replies));
        assert(answers(fresh) =~= replies);
        assert(requests(fresh) =~= session.calls@);
        assert(before.is_prefix_of(inout.log())) by {
            assert(inout.log().subrange(0, before.len() as int) =~= before);
        }
    }
    r
}

/// Parses `source` and evaluates it on a fresh tape of `TAPE_SIZE` cells,
/// reading and writing through `inout`; loops run until their cell is no
/// longer positive (up to `u64::MAX` repetitions per entry).
pub fn run<InOut: IO>(source: &str, inout: &mut InOut) -> (r: Result<(), Error<InOut::Err>>)
    ensures
        old(inout).log().is_prefix_of(final(inout).log()),
        parse_spec(source@) is Err ==> r == Err::<(), Error<InOut::Err>>(
            Error::Parser(parse_spec(source@)->Err_0),
        ) && final(inout).log() == old(inout).log(),
        parse_spec(source@) is Ok ==> run_matches(
            parse_spec(source@)->Ok_0,
            u64::MAX as nat,
            final(inout).log().skip(old(inout).log().len() as int),
            r,
        ),
{
    run_bounded(source, inout, u64::MAX)
}

} // verus!
