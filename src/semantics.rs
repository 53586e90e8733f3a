use vstd::prelude::*;
use crate::buffer::{Offset, shifted};
use crate::parser::Node;

verus! {

/// A request made of the I/O boundary.
pub enum Call {
    Input,
    Output(i32),
}

/// The machine between two instructions: the cells, the pointer, and every
/// I/O request made so far.
pub struct State {
    pub cells: Seq<i32>,
    pub ptr: int,
    pub calls: Seq<Call>,
}

/// Why an evaluation stopped early.
pub enum Stop {
    /// The I/O boundary reported a failure.
    Io,
    /// The pointer was used while it designated no cell, or moved below zero
    /// or beyond the largest `usize`.
    OutOfBounds,
    /// A cell left the range of `i32`.
    Overflow,
    /// A loop was entered and repeated more times than the limit allows.
    LoopLimit,
}

pub struct Outcome {
    pub state: State,
    pub stop: Option<Stop>,
}

pub open spec fn proceed(s: State) -> Outcome {
    Outcome { state: s, stop: None }
}

pub open spec fn halt(s: State, why: Stop) -> Outcome {
    Outcome { state: s, stop: Some(why) }
}

/// The answer of the I/O boundary to its `k`-th request: `None` for a
/// failure, the value read for an input, any value for an output that went
/// through. Requests past the end of `replies` fail.
pub open spec fn reply(replies: Seq<Option<i32>>, k: int) -> Option<i32> {
    if 0 <= k < replies.len() {
        replies[k]
    } else {
        None
    }
}

pub open spec fn in_range(s: State) -> bool {
    0 <= s.ptr < s.cells.len()
}

pub open spec fn with_ptr(s: State, p: int) -> State {
    State { cells: s.cells, ptr: p, calls: s.calls }
}

pub open spec fn with_cell(s: State, v: i32) -> State {
    State { cells: s.cells.update(s.ptr, v), ptr: s.ptr, calls: s.calls }
}

pub open spec fn with_call(s: State, c: Call) -> State {
    State { cells: s.cells, ptr: s.ptr, calls: s.calls.push(c) }
}

/// The effect of one node that is not a loop.
pub open spec fn step(n: Node, s: State, replies: Seq<Option<i32>>) -> Outcome {
    match n {
        Node::Ptr(Offset::Inc(m)) => if s.ptr + m <= usize::MAX {
            proceed(with_ptr(s, s.ptr + m))
        } else {
            halt(s, Stop::OutOfBounds)
        },
        Node::Ptr(Offset::Dec(m)) => if s.ptr - m >= 0 {
            proceed(with_ptr(s, s.ptr - m))
        } else {
            halt(s, Stop::OutOfBounds)
        },
        Node::Val(o) => if !in_range(s) {
            halt(s, Stop::OutOfBounds)
        } else if i32::MIN <= shifted(s.cells[s.ptr], o) <= i32::MAX {
            proceed(with_cell(s, shifted(s.cells[s.ptr], o) as i32))
        } else {
            halt(s, Stop::Overflow)
        },
        Node::In => {
            let after = with_call(s, Call::Input);
            match reply(replies, s.calls.len() as int) {
                None => halt(after, Stop::Io),
                Some(v) => if in_range(s) {
                    proceed(with_cell(after, v))
                } else {
                    halt(after, Stop::OutOfBounds)
                },
            }
        },
        Node::Out => if !in_range(s) {
            halt(s, Stop::OutOfBounds)
        } else {
            let after = with_call(s, Call::Output(s.cells[s.ptr]));
            match reply(replies, s.calls.len() as int) {
                None => halt(after, Stop::Io),
                Some(_) => proceed(after),
            }
        },
        Node::Repeat(_) => proceed(s),
    }
}

/// Evaluates a sequence of nodes in order, stopping at the first node that
/// stops. Each loop may run its body at most `limit` times per entry.
pub open spec fn eval_seq(ns: Seq<Node>, s: State, limit: nat, replies: Seq<Option<i32>>) -> Outcome
    decreases ns, 1nat, 0nat,
{
    if ns.len() == 0 {
        proceed(s)
    } else {
        let first = if ns[0] is Repeat {
            eval_loop(ns[0], s, limit, limit, replies)
        } else {
            step(ns[0], s, replies)
        };
        if first.stop is Some {
            first
        } else {
            eval_seq(ns.subrange(1, ns.len() as int), first.state, limit, replies)
        }
    }
}

/// Runs the loop `n` while the current cell is positive, with `left` more
/// repetitions allowed.
pub open spec fn eval_loop(
    n: Node,
    s: State,
    limit: nat,
    left: nat,
    replies: Seq<Option<i32>>,
) -> Outcome
    decreases n, 0nat, left,
{
    match n {
        Node::Repeat(body) => if !in_range(s) {
            halt(s, Stop::OutOfBounds)
        } else if s.cells[s.ptr] <= 0 {
            proceed(s)
        } else if left == 0 {
            halt(s, Stop::LoopLimit)
        } else {
            let once = eval_seq(body, s, limit, replies);
            if once.stop is Some {
                once
            } else {
                eval_loop(n, once.state, limit, (left - 1) as nat, replies)
            }
        },
        _ => proceed(s),
    }
}

/// The loop `[-]`: repeat while the cell is positive, decrementing it.
pub open spec fn countdown() -> Node {
    Node::Repeat(seq![Node::Val(Offset::Dec(1))])
}

/// A loop whose body decrements its cell by one runs that body exactly as
/// many times as the cell's initial value: with at least that many
/// repetitions allowed it ends with the cell at zero and all else unchanged,
/// and with fewer it stops at the limit.
pub proof fn lemma_countdown_runs_value_times(
    s: State,
    limit: nat,
    left: nat,
    replies: Seq<Option<i32>>,
)
    requires
        in_range(s),
        s.cells[s.ptr] >= 0,
    ensures
        left >= s.cells[s.ptr] ==> eval_loop(countdown(), s, limit, left, replies) == proceed(
            with_cell(s, 0),
        ),
        left < s.cells[s.ptr] ==> eval_loop(countdown(), s, limit, left, replies).stop == Some(
            Stop::LoopLimit,
        ),
    decreases left,
{
    let body = seq![Node::Val(Offset::Dec(1))];
    let v = s.cells[s.ptr];
    if v == 0 {
        assert(with_cell(s, 0).cells =~= s.cells);
    } else if left > 0 {
        let next = with_cell(s, (v - 1) as i32);
        assert(body[0] == Node::Val(Offset::Dec(1)));
        assert(body.subrange(1, 1) =~= Seq::<Node>::empty());
        assert(step(body[0], s, replies) == proceed(next));
        assert(eval_seq(body.subrange(1, 1), next, limit, replies) == proceed(next));
        assert(eval_seq(body, s, limit, replies) == proceed(next));
        lemma_countdown_runs_value_times(next, limit, (left - 1) as nat, replies);
        assert(with_cell(next, 0).cells =~= with_cell(s, 0).cells);
    }
}

/// Whether `b` undoes `a`: the same offset in the other direction.
pub open spec fn cancels(a: Node, b: Node) -> bool {
    match (a, b) {
        (Node::Val(Offset::Inc(m)), Node::Val(Offset::Dec(k))) => m == k,
        (Node::Val(Offset::Dec(m)), Node::Val(Offset::Inc(k))) => m == k,
        (Node::Ptr(Offset::Inc(m)), Node::Ptr(Offset::Dec(k))) => m == k,
        (Node::Ptr(Offset::Dec(m)), Node::Ptr(Offset::Inc(k))) => m == k,
        _ => false,
    }
}

/// Whether the offset `a` can be applied in `s` without a fault.
pub open spec fn applies(a: Node, s: State) -> bool {
    match a {
        Node::Val(o) => in_range(s) && i32::MIN <= shifted(s.cells[s.ptr], o) <= i32::MAX,
        Node::Ptr(Offset::Inc(m)) => s.ptr + m <= usize::MAX,
        Node::Ptr(Offset::Dec(m)) => s.ptr >= m,
        _ => false,
    }
}

/// Whether `ns` is a sequence of pairs, each an offset that applies in `s`
/// followed by the offset that undoes it.
pub open spec fn cancelling_pairs(ns: Seq<Node>, s: State) -> bool {
    &&& ns.len() % 2 == 0
    &&& forall|k: int|
        0 <= k < ns.len() / 2 ==> cancels(#[trigger] ns[2 * k], ns[2 * k + 1]) && applies(
            ns[2 * k],
            s,
        )
}

/// A program made of offsets each directly undone (`+-`, `-+`, `><`, `<>`),
/// the empty program included, leaves the tape, the pointer and the I/O
/// untouched.
pub proof fn lemma_cancelling_pairs_change_nothing(
    ns: Seq<Node>,
    s: State,
    limit: nat,
    replies: Seq<Option<i32>>,
)
    requires
        cancelling_pairs(ns, s),
        0 <= s.ptr <= usize::MAX,
    ensures
        eval_seq(ns, s, limit, replies) == proceed(s),
    decreases ns.len(),
{
    if ns.len() > 0 {
        assert(cancels(ns[2 * 0int], ns[2 * 0int + 1]) && applies(ns[2 * 0int], s));
        let a = ns[0];
        let b = ns[1];
        let mid = step(a, s, replies).state;
        assert(step(a, s, replies).stop is None);
        assert(step(b, mid, replies) == proceed(s)) by {
            if a is Val {
                assert(mid.cells.update(s.ptr, s.cells[s.ptr]) =~= s.cells);
            }
        }
        let rest = ns.subrange(2, ns.len() as int);
        assert(ns.subrange(1, ns.len() as int).subrange(1, ns.len() - 1) =~= rest);
        assert(cancelling_pairs(rest, s)) by {
            assert forall|k: int| 0 <= k < rest.len() / 2 implies cancels(
                #[trigger] rest[2 * k],
                rest[2 * k + 1],
            ) && applies(rest[2 * k], s) by {
                assert(cancels(ns[2 * (k + 1)], ns[2 * (k + 1) + 1]) && applies(ns[2 * (k + 1)], s));
                assert(rest[2 * k] == ns[2 * (k + 1)]);
                assert(rest[2 * k + 1] == ns[2 * (k + 1) + 1]);
            }
        }
        lemma_cancelling_pairs_change_nothing(rest, s, limit, replies);
        let ns1 = ns.subrange(1, ns.len() as int);
        assert(ns1[0] == b);
        assert(eval_seq(ns, s, limit, replies) == eval_seq(ns1, mid, limit, replies));
        assert(eval_seq(ns1, mid, limit, replies) == eval_seq(rest, s, limit, replies));
    }
}

} // verus!
