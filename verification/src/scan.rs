//! The loop-skip scan: finding the `LoopEnd` that closes a loop body.

use vstd::prelude::*;
use crate::ops::Op;

verus! {

/// The index of the `LoopEnd` at which a forward scan from `at` closes the
/// last of `open` open loops, or `None` where the program ends before that.
///
/// The scan counts nesting: each `LoopStart` it passes opens one loop more,
/// each `LoopEnd` closes one. A loop body that starts at `body` is closed
/// at `loop_end(program, body, 1)`.
pub open spec fn loop_end(program: Seq<Op>, at: int, open: nat) -> Option<int>
    decreases program.len() - at,
{
    if at < 0 || at >= program.len() || open == 0 {
        None
    } else if program[at] == Op::LoopStart {
        loop_end(program, at + 1, open + 1)
    } else if program[at] == Op::LoopEnd {
        if open == 1 {
            Some(at)
        } else {
            loop_end(program, at + 1, (open - 1) as nat)
        }
    } else {
        loop_end(program, at + 1, open)
    }
}

/// A scan finds its `LoopEnd` at or behind the index it starts from.
pub proof fn lemma_loop_end_bounds(program: Seq<Op>, at: int, open: nat)
    ensures
        loop_end(program, at, open) matches Some(end) ==> at <= end < program.len() && program[end]
            == Op::LoopEnd,
    decreases program.len() - at,
{
    if 0 <= at < program.len() && open > 0 {
        if program[at] == Op::LoopStart {
            lemma_loop_end_bounds(program, at + 1, open + 1);
        } else if program[at] == Op::LoopEnd {
            if open > 1 {
                lemma_loop_end_bounds(program, at + 1, (open - 1) as nat);
            }
        } else {
            lemma_loop_end_bounds(program, at + 1, open);
        }
    }
}

/// What `op` adds to the nesting depth: a `LoopStart` opens a loop, a
/// `LoopEnd` closes one.
pub open spec fn depth_change(op: Op) -> int {
    if op == Op::LoopStart {
        1
    } else if op == Op::LoopEnd {
        -1
    } else {
        0
    }
}

/// The number of loops that the operations in `[from, to)` open, less the
/// number that they close.
pub open spec fn nesting(program: Seq<Op>, from: int, to: int) -> int
    decreases to - from,
{
    if from < to {
        nesting(program, from, to - 1) + depth_change(program[to - 1])
    } else {
        0
    }
}

/// Whether the `LoopEnd` at index `end` closes the loop body that starts at
/// `body`: the loops opened between the two are all closed between the two,
/// and at no index before `end` is more closed than was opened.
pub open spec fn closes(program: Seq<Op>, body: int, end: int) -> bool {
    &&& 0 <= body <= end < program.len()
    &&& program[end] == Op::LoopEnd
    &&& nesting(program, body, end) == 0
    &&& forall|k: int| body <= k <= end ==> #[trigger] nesting(program, body, k) >= 0
}

/// A scan that has come from `body` to `at` with `open` loops open finds
/// the `LoopEnd` that closes the body, and finds nothing where none does.
pub proof fn lemma_scan_finds(program: Seq<Op>, body: int, at: int, open: nat)
    requires
        0 <= body <= at <= program.len(),
        open >= 1,
        nesting(program, body, at) == open - 1,
        forall|k: int| body <= k <= at ==> #[trigger] nesting(program, body, k) >= 0,
    ensures
        loop_end(program, at, open) matches Some(end) ==> closes(program, body, end),
        forall|end: int| #[trigger]
            closes(program, body, end) ==> loop_end(program, at, open) == Some(end),
    decreases program.len() - at,
{
    if at < program.len() {
        assert(nesting(program, body, at + 1) == nesting(program, body, at) + depth_change(
            program[at],
        ));
        if program[at] == Op::LoopEnd && open == 1 {
            assert forall|end: int| #[trigger] closes(program, body, end) implies end == at by {
                if end < at {
                    assert(nesting(program, body, end + 1) == nesting(program, body, end)
                        + depth_change(program[end]));
                }
            }
        } else {
            let next: nat = (open + depth_change(program[at])) as nat;
            lemma_scan_finds(program, body, at + 1, next);
        }
    } else {
        assert forall|end: int| #[trigger] closes(program, body, end) implies false by {
            assert(nesting(program, body, end + 1) == nesting(program, body, end) + depth_change(
                program[end],
            ));
        }
    }
}

/// The loop-skip scan lands on the matching `LoopEnd`, whatever is nested
/// in the body: the scan from `body` finds `end` if and only if the
/// `LoopEnd` at `end` closes the body, and at most one `LoopEnd` does.
pub proof fn lemma_loop_end_closes(program: Seq<Op>, body: int, end: int)
    requires
        0 <= body <= program.len(),
    ensures
        loop_end(program, body, 1) == Some(end) <==> closes(program, body, end),
{
    lemma_scan_finds(program, body, body, 1);
}

/// Finds the `LoopEnd` that closes the loop body starting at `body`,
/// passing over any loops nested inside the body.
pub fn find_loop_end(program: &[Op], body: usize) -> (end: Option<usize>)
    ensures
        match end {
            Some(j) => loop_end(program@, body as int, 1) == Some(j as int) && closes(
                program@,
                body as int,
                j as int,
            ),
            None => loop_end(program@, body as int, 1) is None && forall|j: int|
                !closes(program@, body as int, j),
        },
{
    let mut at: usize = body;
    let mut nested: usize = 0;
    while at < program.len()
        invariant
            body <= at,
            nested <= at - body,
            loop_end(program@, body as int, 1) == loop_end(
                program@,
                at as int,
                (nested + 1) as nat,
            ),
        decreases program.len() - at,
    {
        match program[at] {
            Op::LoopStart => {
                nested += 1;
            },
            Op::LoopEnd => {
                if nested == 0 {
                    proof {
                        lemma_scan_finds(program@, body as int, body as int, 1);
                    }
                    return Some(at);
                }
                nested -= 1;
            },
            _ => {},
        }
        at += 1;
    }
    proof {
        if body <= program@.len() {
            lemma_scan_finds(program@, body as int, body as int, 1);
        }
    }
    None
}

} // verus!
