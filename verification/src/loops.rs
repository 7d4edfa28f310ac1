//! What the machine does with a loop.

use vstd::prelude::*;
use crate::ops::Op;
use crate::scan::{closes, lemma_loop_end_closes, loop_end};
use crate::machine::{Fault, MachineState, Step, step_spec};
use crate::run::{Progress, lemma_run_unfold, run_from};

verus! {

/// A loop that is met with a zero cell is not entered: in one step the
/// machine stands just behind the `LoopEnd` that closes the loop, whatever
/// loops are nested in the body, and nothing else has changed.
pub proof fn lemma_zero_cell_skips_loop(program: Seq<Op>, s: MachineState, end: int)
    requires
        s.valid(),
        s.pc < program.len(),
        program[s.pc] == Op::LoopStart,
        s.cell() == 0,
        closes(program, s.pc + 1, end),
    ensures
        step_spec(program, s) == (s.at(end + 1), Ok::<Step, Fault>(Step::Advanced)),
{
    lemma_loop_end_closes(program, s.pc + 1, end);
}

/// A loop that is met with a non-zero cell is entered: in one step the
/// machine stands at the first operation of the body and has the loop on
/// record as open.
pub proof fn lemma_non_zero_cell_enters_loop(program: Seq<Op>, s: MachineState)
    requires
        s.valid(),
        s.pc < program.len(),
        program[s.pc] == Op::LoopStart,
        s.cell() != 0,
    ensures
        step_spec(program, s) == (
            MachineState { pc: s.pc + 1, loops: s.loops.push(s.pc + 1), ..s },
            Ok::<Step, Fault>(Step::Advanced),
        ),
{
}

/// At the end of a loop body the cell is tested anew: where it is not zero
/// the machine goes back to the first operation of the body, and where it
/// is zero the machine leaves the loop and stands behind the `LoopEnd`.
pub proof fn lemma_loop_end_retests(program: Seq<Op>, s: MachineState)
    requires
        s.valid(),
        s.pc < program.len(),
        program[s.pc] == Op::LoopEnd,
        s.loops.len() > 0,
    ensures
        step_spec(program, s) == (
            if s.cell() != 0 {
                s.at(s.loops.last())
            } else {
                MachineState { pc: s.pc + 1, loops: s.loops.drop_last(), ..s }
            },
            Ok::<Step, Fault>(Step::Advanced),
        ),
{
}

/// Whether `q` is the progress of a machine that stands at the first
/// operation `body` of the innermost open loop, with a non-zero cell.
pub open spec fn at_body(q: Progress, body: int) -> bool {
    &&& q.state.valid()
    &&& q.state.pc == body
    &&& q.state.cell() != 0
    &&& q.state.loops.len() > 0
    &&& q.state.loops.last() == body
}

/// Whether the body of the loop from `body` to the `LoopEnd` at `end`
/// counts the current cell down: from any progress `q` at the start of the
/// body, the machine takes `steps(q)` steps and then stands at `end` in the
/// progress `effect(q)`, with the pointer where it was, the cell one less
/// than it was, and the same loops open.
pub open spec fn counts_down(
    program: Seq<Op>,
    input: Seq<u8>,
    body: int,
    end: int,
    effect: spec_fn(Progress) -> Progress,
    steps: spec_fn(Progress) -> nat,
) -> bool {
    forall|q: Progress| #[trigger]
        at_body(q, body) ==> {
            let r = effect(q);
            &&& r.state.valid()
            &&& r.state.pc == end
            &&& r.state.loops == q.state.loops
            &&& r.state.ptr == q.state.ptr
            &&& r.state.cell() == q.state.cell() - 1
            &&& forall|fuel: nat| #![trigger run_from(program, q, input, fuel)]
                {
                    &&& fuel < steps(q) ==> run_from(program, q, input, fuel).0 is Exhausted
                    &&& fuel >= steps(q) ==> run_from(program, q, input, fuel) == run_from(
                        program,
                        r,
                        input,
                        (fuel - steps(q)) as nat,
                    )
                }
        }
}

/// The progress `r` taken back to the first operation of the body.
pub open spec fn again(r: Progress, body: int) -> Progress {
    Progress { state: r.state.at(body), ..r }
}

/// The progress at the end of the body after the body has run `n` times,
/// the first time from `q`.
pub open spec fn after_rounds(
    effect: spec_fn(Progress) -> Progress,
    body: int,
    q: Progress,
    n: nat,
) -> Progress
    decreases n,
{
    if n <= 1 {
        effect(q)
    } else {
        after_rounds(effect, body, again(effect(q), body), (n - 1) as nat)
    }
}

/// The number of steps that `n` rounds of the loop take, the first from
/// `q`: for each round the steps of the body and one for the test at its
/// end.
pub open spec fn steps_of_rounds(
    effect: spec_fn(Progress) -> Progress,
    steps: spec_fn(Progress) -> nat,
    body: int,
    q: Progress,
    n: nat,
) -> nat
    decreases n,
{
    if n <= 1 {
        steps(q) + 1
    } else {
        steps(q) + 1 + steps_of_rounds(
            effect,
            steps,
            body,
            again(effect(q), body),
            (n - 1) as nat,
        )
    }
}

/// The progress `r` of a machine at a `LoopEnd`, after the machine has left
/// the loop.
pub open spec fn left_loop(r: Progress) -> Progress {
    Progress {
        state: MachineState { pc: r.state.pc + 1, loops: r.state.loops.drop_last(), ..r.state },
        ..r
    }
}

/// From the start of a body that counts the cell down, with the cell at
/// `n`, the machine runs the body `n` times and then leaves the loop.
proof fn lemma_rounds(
    program: Seq<Op>,
    input: Seq<u8>,
    q: Progress,
    end: int,
    effect: spec_fn(Progress) -> Progress,
    steps: spec_fn(Progress) -> nat,
    fuel: nat,
)
    requires
        at_body(q, q.state.pc),
        0 <= end < program.len(),
        program[end] == Op::LoopEnd,
        counts_down(program, input, q.state.pc, end, effect, steps),
    ensures
        ({
            let n = q.state.cell() as nat;
            let total = steps_of_rounds(effect, steps, q.state.pc, q, n);
            let last = after_rounds(effect, q.state.pc, q, n);
            &&& last.state.cell() == 0
            &&& last.state.pc == end
            &&& last.state.loops == q.state.loops
            &&& fuel < total ==> run_from(program, q, input, fuel).0 is Exhausted
            &&& fuel >= total ==> run_from(program, q, input, fuel) == run_from(
                program,
                left_loop(last),
                input,
                (fuel - total) as nat,
            )
        }),
    decreases q.state.cell(),
{
    let body = q.state.pc;
    let r = effect(q);
    let rest = fuel - steps(q);
    if rest >= 0 {
        lemma_run_unfold(program, r, input, rest as nat);
    }
    if q.state.cell() > 1 {
        let left: nat = if rest >= 1 {
            (rest - 1) as nat
        } else {
            0
        };
        lemma_rounds(program, input, again(r, body), end, effect, steps, left);
    }
}

/// A loop whose body counts the current cell down, met with the cell at
/// `n`, runs its body exactly `n` times: the machine takes one step to
/// enter the loop, then for each of `n` rounds the steps of the body and
/// one for the test at its end, no fewer, and then stands behind the loop
/// with the cell at zero.
pub proof fn lemma_loop_counts_down(
    program: Seq<Op>,
    input: Seq<u8>,
    p: Progress,
    end: int,
    effect: spec_fn(Progress) -> Progress,
    steps: spec_fn(Progress) -> nat,
    fuel: nat,
)
    requires
        p.state.valid(),
        p.state.pc < end < program.len(),
        program[p.state.pc] == Op::LoopStart,
        program[end] == Op::LoopEnd,
        p.state.cell() != 0,
        counts_down(program, input, p.state.pc + 1, end, effect, steps),
    ensures
        ({
            let body = p.state.pc + 1;
            let n = p.state.cell() as nat;
            let entered = Progress {
                state: MachineState { pc: body, loops: p.state.loops.push(body), ..p.state },
                ..p
            };
            let total = 1 + steps_of_rounds(effect, steps, body, entered, n);
            let last = after_rounds(effect, body, entered, n);
            &&& last.state.cell() == 0
            &&& left_loop(last).state.pc == end + 1
            &&& left_loop(last).state.loops == p.state.loops
            &&& fuel < total ==> run_from(program, p, input, fuel).0 is Exhausted
            &&& fuel >= total ==> run_from(program, p, input, fuel) == run_from(
                program,
                left_loop(last),
                input,
                (fuel - total) as nat,
            )
        }),
{
    let body = p.state.pc + 1;
    let entered = Progress {
        state: MachineState { pc: body, loops: p.state.loops.push(body), ..p.state },
        ..p
    };
    let left: nat = if fuel > 0 {
        (fuel - 1) as nat
    } else {
        0
    };
    lemma_run_unfold(program, p, input, fuel);
    lemma_rounds(program, input, entered, end, effect, steps, left);
}

/// The state in which a machine leaves a loop that counted the current
/// cell down to zero and whose `LoopEnd` stands at `end`.
pub open spec fn counted_down(s: MachineState, end: int) -> MachineState {
    MachineState { tape: s.tape.update(s.ptr, 0u8), pc: end + 1, ..s }
}

/// Inside the loop `[-]`, at its body, with the cell at `n`, the machine
/// takes two steps for each unit of `n`, one for the body and one for the
/// test, and then stands behind the loop with the cell at zero.
proof fn lemma_countdown_body(
    program: Seq<Op>,
    p: Progress,
    input: Seq<u8>,
    fuel: nat,
    outer: Seq<int>,
)
    requires
        p.state.valid(),
        p.state.pc + 1 < program.len(),
        program[p.state.pc] == Op::Dec(1),
        program[p.state.pc + 1] == Op::LoopEnd,
        p.state.loops == outer.push(p.state.pc),
        p.state.cell() != 0,
    ensures
        fuel < 2 * p.state.cell() ==> run_from(program, p, input, fuel).0 is Exhausted,
        fuel >= 2 * p.state.cell() ==> run_from(program, p, input, fuel) == run_from(
            program,
            Progress {
                state: MachineState {
                    tape: p.state.tape.update(p.state.ptr, 0u8),
                    pc: p.state.pc + 2,
                    loops: outer,
                    ..p.state
                },
                ..p
            },
            input,
            (fuel - 2 * p.state.cell()) as nat,
        ),
    decreases p.state.cell(),
{
    let s = p.state;
    let n = s.cell();
    lemma_run_unfold(program, p, input, fuel);
    if fuel >= 1 {
        let s1 = s.stored(((n - 1) % 256) as u8);
        let p1 = Progress { state: s1, ..p };
        lemma_run_unfold(program, p1, input, (fuel - 1) as nat);
        if fuel >= 2 {
            if n == 1 {
                assert(s1.loops.drop_last() =~= outer);
            } else {
                let p2 = Progress { state: s1.at(s.pc), ..p };
                lemma_countdown_body(program, p2, input, (fuel - 2) as nat, outer);
                assert(s1.tape.update(s.ptr, 0u8) =~= s.tape.update(s.ptr, 0u8));
            }
        }
    }
}

/// The loop `[-]`, met with the cell at `n`, runs its body exactly `n`
/// times: the machine takes one step to meet the loop and two for each
/// unit of `n`, no fewer, and then stands behind the loop with the cell at
/// zero and all else as it was.
pub proof fn lemma_countdown_loop(program: Seq<Op>, p: Progress, input: Seq<u8>, fuel: nat)
    requires
        p.state.valid(),
        p.state.pc + 2 < program.len(),
        program[p.state.pc] == Op::LoopStart,
        program[p.state.pc + 1] == Op::Dec(1),
        program[p.state.pc + 2] == Op::LoopEnd,
    ensures
        fuel < 1 + 2 * p.state.cell() ==> run_from(program, p, input, fuel).0 is Exhausted,
        fuel >= 1 + 2 * p.state.cell() ==> run_from(program, p, input, fuel) == run_from(
            program,
            Progress { state: counted_down(p.state, p.state.pc + 2), ..p },
            input,
            (fuel - (1 + 2 * p.state.cell())) as nat,
        ),
{
    let s = p.state;
    lemma_run_unfold(program, p, input, fuel);
    if fuel >= 1 {
        if s.cell() == 0 {
            assert(loop_end(program, s.pc + 1, 1) == Some(s.pc + 2)) by {
                reveal_with_fuel(loop_end, 3);
            }
            assert(s.tape.update(s.ptr, 0u8) =~= s.tape);
        } else {
            let s1 = MachineState { pc: s.pc + 1, loops: s.loops.push(s.pc + 1), ..s };
            let p1 = Progress { state: s1, ..p };
            lemma_countdown_body(program, p1, input, (fuel - 1) as nat, s.loops);
        }
    }
}

} // verus!
