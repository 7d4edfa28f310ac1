//! The coalesced program behaves as the program it was made from.
//!
//! Three laws say so. A run that ends, and not because the pointer left the
//! tape, ends the same way after coalescing, and leaves the same behind.
//! No run loses output by coalescing. And coalescing makes no run end that
//! would not have ended without it.
//!
//! The one thing that coalescing may change is a fault of the pointer in
//! the middle of a run of moves: the coalesced program makes the moves in
//! one step, and does not notice that the pointer would have left the tape
//! on the way.

use vstd::prelude::*;
use crate::ops::Op;
use crate::optimizer::{RunKind, is_unit, net_delta, optimize_spec, run_end};
use crate::machine::{Fault, MachineState};
use crate::run::{Progress, Status, lemma_fuel_monotonic, run_spec};
use crate::simulation::{lemma_runs_agree, lemma_runs_end_together, lemma_runs_keep_output};

verus! {

/// Whether two faults are of the same kind, wherever they were met.
pub open spec fn same_fault(a: Fault, b: Fault) -> bool {
    match (a, b) {
        (Fault::UnmatchedLoopEnd { .. }, Fault::UnmatchedLoopEnd { .. }) => true,
        (Fault::UnmatchedLoopStart { .. }, Fault::UnmatchedLoopStart { .. }) => true,
        (Fault::TapeBounds { .. }, Fault::TapeBounds { .. }) => true,
        _ => false,
    }
}

/// Whether two runs ended the same way.
pub open spec fn same_status(a: Status, b: Status) -> bool {
    match (a, b) {
        (Status::Halted, Status::Halted) => true,
        (Status::Starved, Status::Starved) => true,
        (Status::Exhausted, Status::Exhausted) => true,
        (Status::Faulted(f), Status::Faulted(g)) => same_fault(f, g),
        _ => false,
    }
}

/// Whether `status` is the fault of a pointer that left the tape.
pub open spec fn is_bounds_fault(status: Status) -> bool {
    status matches Status::Faulted(Fault::TapeBounds { .. })
}

/// Whether two runs ended the same way and left the same behind: the same
/// tape, the same output, the same number of input bytes taken, and the
/// same pointer. Of two runs that ended because the pointer left the tape,
/// the pointers are not compared: a run of moves faults at the step that
/// leaves the tape, its replacement before it has moved at all.
pub open spec fn same_end(a: (Status, Progress), b: (Status, Progress)) -> bool {
    &&& same_status(a.0, b.0)
    &&& a.1.state.tape == b.1.state.tape
    &&& a.1.output == b.1.output
    &&& a.1.consumed == b.1.consumed
    &&& !is_bounds_fault(a.0) ==> a.1.state.ptr == b.1.state.ptr
}

/// Whether a fault of the pointer in state `s` is one that the coalesced
/// program does not meet: the step that faults is one of a run of single
/// moves, and the moves of the run from that step on, taken together, leave
/// the pointer on the tape.
pub open spec fn fault_undone_by_run(ops: Seq<Op>, s: MachineState) -> bool {
    &&& 0 <= s.pc < ops.len()
    &&& is_unit(RunKind::Move, ops[s.pc])
    &&& 0 <= s.ptr + net_delta(RunKind::Move, ops, s.pc, run_end(RunKind::Move, ops, s.pc))
        < s.tape.len()
}

/// Coalescing changes the number of steps a program takes, never what it
/// does.
///
/// Take any program, any tape with its pointer, and any input. If the run
/// of the program ends within `fuel` steps, then the run of the coalesced
/// program ends within `fuel` steps too, in the same way, with the same
/// output, the same tape and pointer, and the same input taken. The one
/// exception is a run that ends because a move took the pointer off the
/// tape in the middle of a run of moves that would have brought it back.
pub proof fn lemma_optimizer_preserves_behaviour(
    ops: Seq<Op>,
    s: MachineState,
    input: Seq<u8>,
    fuel: nat,
)
    requires
        ops.len() <= usize::MAX,
        s.valid(),
        s.pc == 0,
        s.loops.len() == 0,
        !(run_spec(ops, s, input, fuel).0 is Exhausted),
        !(is_bounds_fault(run_spec(ops, s, input, fuel).0) && fault_undone_by_run(
            ops,
            run_spec(ops, s, input, fuel).1.state,
        )),
    ensures
        same_end(run_spec(ops, s, input, fuel), run_spec(optimize_spec(ops), s, input, fuel)),
{
    let opt = optimize_spec(ops);
    let start = Progress { state: s, consumed: 0, output: Seq::empty() };
    lemma_runs_agree(ops, opt, start, start, input, fuel);
}

/// Coalescing loses no output, whether the program ends or not.
///
/// Take any program, any tape with its pointer, any input and any number
/// of steps. What the run of the program has written within these steps is
/// the beginning of what the run of the coalesced program has written
/// within as many, and the second has read no less input than the first.
pub proof fn lemma_optimizer_keeps_output(
    ops: Seq<Op>,
    s: MachineState,
    input: Seq<u8>,
    fuel: nat,
)
    requires
        ops.len() <= usize::MAX,
        s.valid(),
        s.pc == 0,
        s.loops.len() == 0,
    ensures
        run_spec(ops, s, input, fuel).1.output.is_prefix_of(
            run_spec(optimize_spec(ops), s, input, fuel).1.output,
        ),
        run_spec(ops, s, input, fuel).1.consumed <= run_spec(
            optimize_spec(ops),
            s,
            input,
            fuel,
        ).1.consumed,
{
    let opt = optimize_spec(ops);
    let start = Progress { state: s, consumed: 0, output: Seq::empty() };
    lemma_runs_keep_output(ops, opt, start, start, input, fuel);
}

/// Coalescing makes no program end that would not end without it.
///
/// Take any program, any tape with its pointer, and any input. If the run
/// of the coalesced program ends within `fuel` steps, then the run of the
/// program ends within the number of steps that is returned: in the same
/// way as the coalesced run, with the same output, the same tape and
/// pointer, and the same input taken, or else by a move that takes the
/// pointer off the tape in the middle of a run of moves that would have
/// brought it back.
pub proof fn lemma_optimizer_adds_no_ending(
    ops: Seq<Op>,
    s: MachineState,
    input: Seq<u8>,
    fuel: nat,
) -> (enough: nat)
    requires
        ops.len() <= usize::MAX,
        s.valid(),
        s.pc == 0,
        s.loops.len() == 0,
        !(run_spec(optimize_spec(ops), s, input, fuel).0 is Exhausted),
    ensures
        !(run_spec(ops, s, input, enough).0 is Exhausted),
        same_end(
            run_spec(ops, s, input, enough),
            run_spec(optimize_spec(ops), s, input, fuel),
        ) || (is_bounds_fault(run_spec(ops, s, input, enough).0) && fault_undone_by_run(
            ops,
            run_spec(ops, s, input, enough).1.state,
        )),
{
    let opt = optimize_spec(ops);
    let start = Progress { state: s, consumed: 0, output: Seq::empty() };
    let enough = lemma_runs_end_together(ops, opt, start, start, input, fuel);
    if !(is_bounds_fault(run_spec(ops, s, input, enough).0) && fault_undone_by_run(
        ops,
        run_spec(ops, s, input, enough).1.state,
    )) {
        lemma_runs_agree(ops, opt, start, start, input, enough);
        if enough <= fuel {
            lemma_fuel_monotonic(opt, start, input, enough, fuel);
        } else {
            lemma_fuel_monotonic(opt, start, input, fuel, enough);
        }
    }
    enough
}

} // verus!
