//! Two runs side by side: a program and its coalesced form.
//!
//! The run of a program and the run of its coalesced form agree whenever
//! the first stands at the start of a maximal run or at a barrier: they
//! hold the same tape, the same pointer, the same input and output, and
//! what is left of the coalesced program is the coalesced form of what is
//! left of the program it was made from. From one such point the two runs
//! reach the next: the first in one step for each operation of the run, the
//! second in one step or none.

use vstd::prelude::*;
use vstd::arithmetic::div_mod::{lemma_add_mod_noop_right, lemma_sub_mod_noop_right};
use crate::ops::Op;
use crate::optimizer::{
    RunKind,
    emit,
    is_unit,
    lemma_net_delta_bounds,
    lemma_net_delta_split,
    lemma_run_end_bounds,
    lemma_run_end_is,
    net_delta,
    optimize_from,
    run_end,
    run_kind,
    unit_delta,
};
use crate::scan::loop_end;
use crate::machine::{Fault, MachineState, Step, step_spec, supply_spec};
use crate::run::{
    Progress,
    Status,
    advance,
    ending,
    lemma_fuel_monotonic,
    lemma_more_fuel_extends,
    lemma_run_extends,
    lemma_run_unfold,
    run_from,
};
use crate::equivalence::{fault_undone_by_run, is_bounds_fault, same_end, same_fault};

verus! {

/// Index `at_opt` of the coalesced program `opt` stands for index `at` of
/// `ops`: from there on, `opt` is the coalesced form of `ops` from `at` on.
pub(crate) open spec fn aligned(ops: Seq<Op>, opt: Seq<Op>, at: int, at_opt: int) -> bool {
    &&& 0 <= at <= ops.len()
    &&& 0 <= at_opt <= opt.len()
    &&& opt.skip(at_opt) =~= optimize_from(ops, at)
}

/// Whether state `t` of a machine on the coalesced program `opt` stands
/// for state `s` of a machine on `ops`.
pub(crate) open spec fn states_agree(
    ops: Seq<Op>,
    opt: Seq<Op>,
    s: MachineState,
    t: MachineState,
) -> bool {
    &&& s.tape == t.tape
    &&& s.ptr == t.ptr
    &&& 0 <= s.ptr < s.tape.len()
    &&& aligned(ops, opt, s.pc, t.pc)
    &&& s.loops.len() == t.loops.len()
    &&& forall|k: int|
        0 <= k < s.loops.len() ==> aligned(ops, opt, #[trigger] s.loops[k], t.loops[k])
}

/// Whether progress `q` of a run of the coalesced program `opt` stands for
/// progress `p` of a run of `ops`.
pub(crate) open spec fn progress_agrees(
    ops: Seq<Op>,
    opt: Seq<Op>,
    p: Progress,
    q: Progress,
) -> bool {
    &&& states_agree(ops, opt, p.state, q.state)
    &&& p.consumed == q.consumed
    &&& p.output == q.output
}

/// The state that a run of cell steps with net effect `delta` leaves when
/// it ends at index `to`.
pub(crate) open spec fn after_cell_run(s: MachineState, delta: int, to: int) -> MachineState {
    MachineState { tape: s.tape.update(s.ptr, ((s.cell() + delta) % 256) as u8), pc: to, ..s }
}

/// The state that a run of pointer steps with net effect `delta` leaves
/// when it ends at index `to`.
pub(crate) open spec fn after_move_run(s: MachineState, delta: int, to: int) -> MachineState {
    MachineState { ptr: s.ptr + delta, pc: to, ..s }
}

/// Whether the run that ended in `end` stopped before it got through the
/// stretch of pointer steps up to index `to` that `p` stood in: a step took
/// the pointer off the tape, or the fuel did not last. The machine stands
/// at the step it did not take, with the pointer where the steps before
/// have brought it, and nothing else has changed.
pub(crate) open spec fn stopped_within(
    ops: Seq<Op>,
    end: (Status, Progress),
    p: Progress,
    fuel: nat,
    to: int,
) -> bool {
    let at = end.1.state.pc;
    &&& p.state.pc <= at < to
    &&& end.1 == (Progress {
        state: after_move_run(p.state, net_delta(RunKind::Move, ops, p.state.pc, at), at),
        ..p
    })
    &&& 0 <= end.1.state.ptr < end.1.state.tape.len()
    &&& if end.0 is Exhausted {
        fuel == at - p.state.pc
    } else {
        &&& is_bounds_fault(end.0)
        &&& !(0 <= end.1.state.ptr + unit_delta(RunKind::Move, ops[at]) < end.1.state.tape.len())
    }
}

/// What aligned indices say of the operations that stand at them.
///
/// At a barrier both programs hold the same operation, and the indices
/// behind it are aligned. At the start of a run the coalesced program holds
/// the run's replacement, if there is one, and the index behind the run is
/// aligned with the index behind the replacement.
pub(crate) proof fn lemma_aligned_step(ops: Seq<Op>, opt: Seq<Op>, at: int, at_opt: int)
    requires
        aligned(ops, opt, at, at_opt),
    ensures
        at == ops.len() ==> at_opt == opt.len(),
        at < ops.len() ==> match run_kind(ops[at]) {
            None => {
                &&& at_opt < opt.len()
                &&& opt[at_opt] == ops[at]
                &&& aligned(ops, opt, at + 1, at_opt + 1)
            },
            Some(kind) => {
                let end = run_end(kind, ops, at);
                let delta = net_delta(kind, ops, at, end);
                &&& at < end <= ops.len()
                &&& forall|j: int| at <= j < end ==> is_unit(kind, #[trigger] ops[j])
                &&& -(end - at) <= delta <= end - at
                &&& if delta == 0 {
                    aligned(ops, opt, end, at_opt)
                } else {
                    &&& at_opt < opt.len()
                    &&& opt[at_opt] == emit(kind, delta)[0]
                    &&& aligned(ops, opt, end, at_opt + 1)
                }
            },
        },
{
    let rest = opt.skip(at_opt);
    if at < ops.len() {
        match run_kind(ops[at]) {
            None => {
                assert(rest[0] == ops[at]);
                assert(opt.skip(at_opt + 1) =~= rest.skip(1));
            },
            Some(kind) => {
                let end = run_end(kind, ops, at);
                let delta = net_delta(kind, ops, at, end);
                lemma_run_end_bounds(kind, ops, at);
                lemma_net_delta_bounds(kind, ops, at, end);
                if delta != 0 {
                    assert(rest[0] == emit(kind, delta)[0]);
                    assert(opt.skip(at_opt + 1) =~= rest.skip(1));
                }
            },
        }
    }
}

/// A scan for a closing `LoopEnd` passes over a stretch without brackets.
pub(crate) proof fn lemma_scan_passes(program: Seq<Op>, from: int, to: int, open: nat)
    requires
        0 <= from <= to <= program.len(),
        forall|j: int| from <= j < to ==> !(#[trigger] program[j]).is_bracket(),
    ensures
        loop_end(program, from, open) == loop_end(program, to, open),
    decreases to - from,
{
    if from < to && open > 0 {
        lemma_scan_passes(program, from + 1, to, open);
    }
}

/// From aligned indices, the scans for a closing `LoopEnd` in the two
/// programs fail together, or find ends whose successors are aligned.
pub(crate) proof fn lemma_scan_agrees(ops: Seq<Op>, opt: Seq<Op>, at: int, at_opt: int, open: nat)
    requires
        aligned(ops, opt, at, at_opt),
        open >= 1,
    ensures
        match (loop_end(ops, at, open), loop_end(opt, at_opt, open)) {
            (None, None) => true,
            (Some(end), Some(end_opt)) => aligned(ops, opt, end + 1, end_opt + 1),
            _ => false,
        },
    decreases ops.len() - at,
{
    lemma_aligned_step(ops, opt, at, at_opt);
    if at < ops.len() {
        match run_kind(ops[at]) {
            None => {
                if ops[at] == Op::LoopStart {
                    lemma_scan_agrees(ops, opt, at + 1, at_opt + 1, open + 1);
                } else if ops[at] == Op::LoopEnd {
                    if open > 1 {
                        lemma_scan_agrees(ops, opt, at + 1, at_opt + 1, (open - 1) as nat);
                    }
                } else {
                    lemma_scan_agrees(ops, opt, at + 1, at_opt + 1, open);
                }
            },
            Some(kind) => {
                let end = run_end(kind, ops, at);
                let delta = net_delta(kind, ops, at, end);
                assert forall|j: int| at <= j < end implies !(#[trigger] ops[j]).is_bracket() by {
                    assert(is_unit(kind, ops[j]));
                }
                lemma_scan_passes(ops, at, end, open);
                if delta == 0 {
                    lemma_scan_agrees(ops, opt, end, at_opt, open);
                } else {
                    lemma_scan_agrees(ops, opt, end, at_opt + 1, open);
                }
            },
        }
    }
}

/// From states that agree, at a barrier or at the end of the program, both
/// machines take the same step and agree again.
pub(crate) proof fn lemma_barrier_step(ops: Seq<Op>, opt: Seq<Op>, s: MachineState, t: MachineState)
    requires
        states_agree(ops, opt, s, t),
        s.pc < ops.len() ==> run_kind(ops[s.pc]) is None,
    ensures
        match (step_spec(ops, s).1, step_spec(opt, t).1) {
            (Err(f), Err(g)) => same_fault(f, g),
            (Ok(a), Ok(b)) => a == b,
            _ => false,
        },
        states_agree(ops, opt, step_spec(ops, s).0, step_spec(opt, t).0),
        forall|byte: u8|
            states_agree(
                ops,
                opt,
                #[trigger] supply_spec(ops, s, byte),
                supply_spec(opt, t, byte),
            ),
{
    lemma_aligned_step(ops, opt, s.pc, t.pc);
    if s.pc < ops.len() {
        let op = ops[s.pc];
        match op {
            Op::LoopStart => {
                if s.cell() != 0 {
                    let s1 = step_spec(ops, s).0;
                    let t1 = step_spec(opt, t).0;
                    assert forall|k: int| 0 <= k < s1.loops.len() implies aligned(
                        ops,
                        opt,
                        #[trigger] s1.loops[k],
                        t1.loops[k],
                    ) by {
                        if k < s.loops.len() {
                            assert(s1.loops[k] == s.loops[k]);
                        }
                    }
                } else {
                    lemma_scan_agrees(ops, opt, s.pc + 1, t.pc + 1, 1);
                }
            },
            Op::LoopEnd => {
                if s.loops.len() > 0 {
                    assert(aligned(
                        ops,
                        opt,
                        s.loops[s.loops.len() - 1],
                        t.loops[t.loops.len() - 1],
                    ));
                    if s.cell() == 0 {
                        let s1 = step_spec(ops, s).0;
                        let t1 = step_spec(opt, t).0;
                        assert forall|k: int| 0 <= k < s1.loops.len() implies aligned(
                            ops,
                            opt,
                            #[trigger] s1.loops[k],
                            t1.loops[k],
                        ) by {
                            assert(s1.loops[k] == s.loops[k]);
                        }
                    }
                }
            },
            _ => {},
        }
    }
}

/// Reducing a sum modulo 256 on the way does not change it modulo 256.
pub(crate) proof fn lemma_wrap_sum(a: int, b: int)
    ensures
        ((a % 256) + b) % 256 == (a + b) % 256,
{
    lemma_add_mod_noop_right(b, a, 256);
}

/// A single cell step changes the current cell by one, modulo 256.
pub(crate) proof fn lemma_cell_unit_step(ops: Seq<Op>, s: MachineState)
    requires
        0 <= s.pc < ops.len(),
        is_unit(RunKind::Cell, ops[s.pc]),
    ensures
        step_spec(ops, s) == (
            s.stored(((s.cell() + unit_delta(RunKind::Cell, ops[s.pc])) % 256) as u8),
            Ok::<Step, Fault>(Step::Advanced),
        ),
{
}

/// A cell step followed by the rest of a run leaves what the whole run
/// leaves.
pub(crate) proof fn lemma_cell_run_compose(s: MachineState, unit: int, rest: int, to: int)
    requires
        0 <= s.ptr < s.tape.len(),
    ensures
        after_cell_run(s.stored(((s.cell() + unit) % 256) as u8), rest, to) == after_cell_run(
            s,
            unit + rest,
            to,
        ),
{
    let next = s.stored(((s.cell() + unit) % 256) as u8);
    lemma_wrap_sum(s.cell() + unit, rest);
    assert(after_cell_run(next, rest, to).tape =~= after_cell_run(s, unit + rest, to).tape);
}

/// A machine that stands in a stretch of single cell steps runs through
/// it, one step for each, and changes the current cell by the net effect of
/// the stretch, modulo 256.
pub(crate) proof fn lemma_cell_run(ops: Seq<Op>, p: Progress, input: Seq<u8>, fuel: nat, to: int)
    requires
        0 <= p.state.ptr < p.state.tape.len(),
        0 <= p.state.pc <= to <= ops.len(),
        forall|j: int| p.state.pc <= j < to ==> is_unit(RunKind::Cell, #[trigger] ops[j]),
    ensures
        fuel < to - p.state.pc ==> run_from(ops, p, input, fuel) == (
            Status::Exhausted,
            Progress {
                state: after_cell_run(
                    p.state,
                    net_delta(RunKind::Cell, ops, p.state.pc, p.state.pc + fuel),
                    p.state.pc + fuel,
                ),
                ..p
            },
        ),
        fuel >= to - p.state.pc ==> run_from(ops, p, input, fuel) == run_from(
            ops,
            Progress {
                state: after_cell_run(
                    p.state,
                    net_delta(RunKind::Cell, ops, p.state.pc, to),
                    to,
                ),
                ..p
            },
            input,
            (fuel - (to - p.state.pc)) as nat,
        ),
    decreases to - p.state.pc,
{
    let s = p.state;
    let from = s.pc;
    lemma_run_unfold(ops, p, input, fuel);
    if from == to || fuel == 0 {
        assert(after_cell_run(s, 0, from).tape =~= s.tape);
    } else {
        let unit = unit_delta(RunKind::Cell, ops[from]);
        lemma_cell_unit_step(ops, s);
        let next = s.stored(((s.cell() + unit) % 256) as u8);
        let p1 = Progress { state: next, ..p };
        lemma_cell_run(ops, p1, input, (fuel - 1) as nat, to);
        assert(net_delta(RunKind::Cell, ops, from, from + 1) == unit) by {
            assert(net_delta(RunKind::Cell, ops, from, from) == 0);
        }
        if fuel < to - from {
            lemma_net_delta_split(RunKind::Cell, ops, from, from + 1, from + fuel);
            lemma_cell_run_compose(
                s,
                unit,
                net_delta(RunKind::Cell, ops, from + 1, from + fuel),
                from + fuel,
            );
        } else {
            lemma_net_delta_split(RunKind::Cell, ops, from, from + 1, to);
            lemma_cell_run_compose(s, unit, net_delta(RunKind::Cell, ops, from + 1, to), to);
        }
    }
}

/// A single pointer step moves the pointer by one, or faults where that
/// takes the pointer off the tape.
pub(crate) proof fn lemma_move_unit_step(ops: Seq<Op>, s: MachineState)
    requires
        0 <= s.ptr < s.tape.len(),
        0 <= s.pc < ops.len(),
        is_unit(RunKind::Move, ops[s.pc]),
    ensures
        step_spec(ops, s) == if 0 <= s.ptr + unit_delta(RunKind::Move, ops[s.pc])
            < s.tape.len() {
            (
                s.moved(s.ptr + unit_delta(RunKind::Move, ops[s.pc])),
                Ok::<Step, Fault>(Step::Advanced),
            )
        } else {
            (s, Err::<Step, Fault>(Fault::TapeBounds { at: s.pc as usize }))
        },
{
}

/// A machine that stands in a stretch of single pointer steps runs through
/// it, one step for each, and moves the pointer by the net effect of the
/// stretch, unless a step on the way takes the pointer off the tape.
pub(crate) proof fn lemma_move_run(ops: Seq<Op>, p: Progress, input: Seq<u8>, fuel: nat, to: int)
    requires
        0 <= p.state.ptr < p.state.tape.len(),
        0 <= p.state.pc <= to <= ops.len(),
        forall|j: int| p.state.pc <= j < to ==> is_unit(RunKind::Move, #[trigger] ops[j]),
    ensures
        ({
            let end = run_from(ops, p, input, fuel);
            let delta = net_delta(RunKind::Move, ops, p.state.pc, to);
            ||| stopped_within(ops, end, p, fuel, to)
            ||| {
                &&& fuel >= to - p.state.pc
                &&& 0 <= p.state.ptr + delta < p.state.tape.len()
                &&& end == run_from(
                    ops,
                    Progress { state: after_move_run(p.state, delta, to), ..p },
                    input,
                    (fuel - (to - p.state.pc)) as nat,
                )
            }
        }),
    decreases to - p.state.pc,
{
    let s = p.state;
    let from = s.pc;
    lemma_run_unfold(ops, p, input, fuel);
    if from < to && fuel > 0 {
        let unit = unit_delta(RunKind::Move, ops[from]);
        lemma_move_unit_step(ops, s);
        if 0 <= s.ptr + unit < s.tape.len() {
            let next = s.moved(s.ptr + unit);
            let p1 = Progress { state: next, ..p };
            lemma_move_run(ops, p1, input, (fuel - 1) as nat, to);
            assert(net_delta(RunKind::Move, ops, from, from + 1) == unit) by {
                assert(net_delta(RunKind::Move, ops, from, from) == 0);
            }
            let end = run_from(ops, p, input, fuel);
            if stopped_within(ops, end, p1, (fuel - 1) as nat, to) {
                let at = end.1.state.pc;
                lemma_net_delta_split(RunKind::Move, ops, from, from + 1, at);
                assert(after_move_run(
                    next,
                    net_delta(RunKind::Move, ops, from + 1, at),
                    at,
                ) == after_move_run(s, net_delta(RunKind::Move, ops, from, at), at));
            } else {
                lemma_net_delta_split(RunKind::Move, ops, from, from + 1, to);
            }
        }
    }
}

/// The one step of the coalesced program that replaces a run of cell steps
/// changes the current cell as the run does.
pub(crate) proof fn lemma_cell_replacement(
    ops: Seq<Op>,
    opt: Seq<Op>,
    s: MachineState,
    t: MachineState,
    end: int,
    delta: int,
)
    requires
        states_agree(ops, opt, s, t),
        delta != 0,
        t.pc < opt.len(),
        opt[t.pc] == emit(RunKind::Cell, delta)[0],
        aligned(ops, opt, end, t.pc + 1),
    ensures
        step_spec(opt, t).1 == Ok::<Step, Fault>(Step::Advanced),
        states_agree(ops, opt, after_cell_run(s, delta, end), step_spec(opt, t).0),
{
    if delta > 0 {
        lemma_wrap_sum(delta, s.cell() as int);
    } else {
        lemma_sub_mod_noop_right(s.cell() as int, -delta, 256);
    }
}

/// The one step of the coalesced program that replaces a run of pointer
/// steps moves the pointer as the run does, where the run stays on the
/// tape.
pub(crate) proof fn lemma_move_replacement(
    ops: Seq<Op>,
    opt: Seq<Op>,
    s: MachineState,
    t: MachineState,
    end: int,
    delta: int,
)
    requires
        states_agree(ops, opt, s, t),
        delta != 0,
        -(usize::MAX as int) <= delta <= usize::MAX as int,
        0 <= s.ptr + delta < s.tape.len(),
        t.pc < opt.len(),
        opt[t.pc] == emit(RunKind::Move, delta)[0],
        aligned(ops, opt, end, t.pc + 1),
    ensures
        step_spec(opt, t).1 == Ok::<Step, Fault>(Step::Advanced),
        states_agree(ops, opt, after_move_run(s, delta, end), step_spec(opt, t).0),
{
}

/// The one step of the coalesced program that replaces a run of pointer
/// steps faults where the run as a whole takes the pointer off the tape.
pub(crate) proof fn lemma_move_replacement_faults(
    ops: Seq<Op>,
    opt: Seq<Op>,
    s: MachineState,
    t: MachineState,
    delta: int,
)
    requires
        states_agree(ops, opt, s, t),
        delta != 0,
        -(usize::MAX as int) <= delta <= usize::MAX as int,
        !(0 <= s.ptr + delta < s.tape.len()),
        t.pc < opt.len(),
        opt[t.pc] == emit(RunKind::Move, delta)[0],
    ensures
        step_spec(opt, t) == (t, Err::<Step, Fault>(Fault::TapeBounds { at: t.pc as usize })),
{
}

/// A run of pointer steps that stops at a fault on the way, where the steps
/// from there on would not bring the pointer back, takes the pointer off
/// the tape as a whole.
pub(crate) proof fn lemma_fault_not_undone(ops: Seq<Op>, s: MachineState, at: int, ptr_at: int)
    requires
        0 <= s.pc <= at < ops.len(),
        forall|j: int| s.pc <= j < run_end(RunKind::Move, ops, s.pc) ==> is_unit(
            RunKind::Move,
            #[trigger] ops[j],
        ),
        at < run_end(RunKind::Move, ops, s.pc) <= ops.len(),
        run_end(RunKind::Move, ops, s.pc) < ops.len() ==> !is_unit(
            RunKind::Move,
            ops[run_end(RunKind::Move, ops, s.pc)],
        ),
        ptr_at == s.ptr + net_delta(RunKind::Move, ops, s.pc, at),
        !fault_undone_by_run(ops, MachineState { ptr: ptr_at, pc: at, ..s }),
    ensures
        !(0 <= s.ptr + net_delta(
            RunKind::Move,
            ops,
            s.pc,
            run_end(RunKind::Move, ops, s.pc),
        ) < s.tape.len()),
{
    let end = run_end(RunKind::Move, ops, s.pc);
    lemma_run_end_is(RunKind::Move, ops, at, end);
    lemma_net_delta_split(RunKind::Move, ops, s.pc, at, end);
}

/// From progress that agrees, a run of `ops` that ends within its fuel,
/// and not by a pointer that leaves the tape, ends as the run of the
/// coalesced program does, and leaves the same behind.
pub(crate) proof fn lemma_runs_agree(
    ops: Seq<Op>,
    opt: Seq<Op>,
    p: Progress,
    q: Progress,
    input: Seq<u8>,
    fuel: nat,
)
    requires
        ops.len() <= usize::MAX,
        progress_agrees(ops, opt, p, q),
        !(run_from(ops, p, input, fuel).0 is Exhausted),
        !(is_bounds_fault(run_from(ops, p, input, fuel).0) && fault_undone_by_run(
            ops,
            run_from(ops, p, input, fuel).1.state,
        )),
    ensures
        same_end(run_from(ops, p, input, fuel), run_from(opt, q, input, fuel)),
    decreases fuel,
{
    let s = p.state;
    let t = q.state;
    lemma_aligned_step(ops, opt, s.pc, t.pc);
    lemma_run_unfold(ops, p, input, fuel);
    lemma_run_unfold(opt, q, input, fuel);
    if s.pc < ops.len() && run_kind(ops[s.pc]) is Some {
        let kind = run_kind(ops[s.pc])->0;
        let end = run_end(kind, ops, s.pc);
        let delta = net_delta(kind, ops, s.pc, end);
        let len = end - s.pc;
        let after = match kind {
            RunKind::Cell => after_cell_run(s, delta, end),
            RunKind::Move => after_move_run(s, delta, end),
        };
        let p1 = Progress { state: after, ..p };
        match kind {
            RunKind::Cell => {
                lemma_cell_run(ops, p, input, fuel, end);
            },
            RunKind::Move => {
                lemma_move_run(ops, p, input, fuel, end);
            },
        }
        let slow = run_from(ops, p, input, fuel);
        if kind == RunKind::Move && stopped_within(ops, slow, p, fuel, end) {
            lemma_run_end_bounds(kind, ops, s.pc);
            lemma_fault_not_undone(ops, s, slow.1.state.pc, slow.1.state.ptr);
            lemma_move_replacement_faults(ops, opt, s, t, delta);
        } else if delta == 0 {
            let left = (fuel - len) as nat;
            assert(after.tape =~= s.tape);
            lemma_runs_agree(ops, opt, p1, q, input, left);
            lemma_fuel_monotonic(opt, q, input, left, fuel);
        } else {
            let left = (fuel - len) as nat;
            match kind {
                RunKind::Cell => {
                    lemma_cell_replacement(ops, opt, s, t, end, delta);
                },
                RunKind::Move => {
                    lemma_move_replacement(ops, opt, s, t, end, delta);
                },
            }
            let q1 = Progress { state: step_spec(opt, t).0, ..q };
            lemma_runs_agree(ops, opt, p1, q1, input, left);
            lemma_fuel_monotonic(opt, q1, input, left, (fuel - 1) as nat);
        }
    } else {
        lemma_barrier_step(ops, opt, s, t);
        let (s1, event) = step_spec(ops, s);
        let t1 = step_spec(opt, t).0;
        let left = (fuel - 1) as nat;
        match event {
            Ok(Step::Advanced) => {
                lemma_runs_agree(
                    ops,
                    opt,
                    Progress { state: s1, ..p },
                    Progress { state: t1, ..q },
                    input,
                    left,
                );
            },
            Ok(Step::Output(byte)) => {
                lemma_runs_agree(
                    ops,
                    opt,
                    Progress { state: s1, output: p.output.push(byte), ..p },
                    Progress { state: t1, output: q.output.push(byte), ..q },
                    input,
                    left,
                );
            },
            Ok(Step::NeedInput) => {
                if p.consumed < input.len() {
                    let byte = input[p.consumed as int];
                    lemma_runs_agree(
                        ops,
                        opt,
                        Progress {
                            state: supply_spec(ops, s, byte),
                            consumed: p.consumed + 1,
                            ..p
                        },
                        Progress {
                            state: supply_spec(opt, t, byte),
                            consumed: q.consumed + 1,
                            ..q
                        },
                        input,
                        left,
                    );
                }
            },
            _ => {},
        }
    }
}

/// The beginning of a beginning is a beginning.
pub(crate) proof fn lemma_prefix_transitive(a: Seq<u8>, b: Seq<u8>, c: Seq<u8>)
    requires
        a.is_prefix_of(b),
        b.is_prefix_of(c),
    ensures
        a.is_prefix_of(c),
{
}

/// From progress that agrees, whatever a run of `ops` has written and read
/// within its fuel, the run of the coalesced program has written and read
/// within the same fuel, and possibly more.
pub(crate) proof fn lemma_runs_keep_output(
    ops: Seq<Op>,
    opt: Seq<Op>,
    p: Progress,
    q: Progress,
    input: Seq<u8>,
    fuel: nat,
)
    requires
        ops.len() <= usize::MAX,
        progress_agrees(ops, opt, p, q),
    ensures
        run_from(ops, p, input, fuel).1.output.is_prefix_of(
            run_from(opt, q, input, fuel).1.output,
        ),
        run_from(ops, p, input, fuel).1.consumed <= run_from(opt, q, input, fuel).1.consumed,
    decreases fuel,
{
    let s = p.state;
    let t = q.state;
    let slow = run_from(ops, p, input, fuel);
    let fast = run_from(opt, q, input, fuel);
    lemma_aligned_step(ops, opt, s.pc, t.pc);
    lemma_run_extends(opt, q, input, fuel);
    lemma_run_unfold(ops, p, input, fuel);
    lemma_run_unfold(opt, q, input, fuel);
    if fuel > 0 && s.pc < ops.len() && run_kind(ops[s.pc]) is Some {
        let kind = run_kind(ops[s.pc])->0;
        let end = run_end(kind, ops, s.pc);
        let delta = net_delta(kind, ops, s.pc, end);
        let len = end - s.pc;
        let after = match kind {
            RunKind::Cell => after_cell_run(s, delta, end),
            RunKind::Move => after_move_run(s, delta, end),
        };
        let p1 = Progress { state: after, ..p };
        match kind {
            RunKind::Cell => {
                lemma_cell_run(ops, p, input, fuel, end);
            },
            RunKind::Move => {
                lemma_move_run(ops, p, input, fuel, end);
            },
        }
        if fuel >= len && slow == run_from(ops, p1, input, (fuel - len) as nat) && 0 <= after.ptr
            < after.tape.len() {
            let left = (fuel - len) as nat;
            if delta == 0 {
                assert(after.tape =~= s.tape);
                lemma_runs_keep_output(ops, opt, p1, q, input, left);
                lemma_more_fuel_extends(opt, q, input, left, fuel);
                lemma_prefix_transitive(
                    slow.1.output,
                    run_from(opt, q, input, left).1.output,
                    fast.1.output,
                );
            } else {
                match kind {
                    RunKind::Cell => {
                        lemma_cell_replacement(ops, opt, s, t, end, delta);
                    },
                    RunKind::Move => {
                        lemma_move_replacement(ops, opt, s, t, end, delta);
                    },
                }
                let q1 = Progress { state: step_spec(opt, t).0, ..q };
                lemma_runs_keep_output(ops, opt, p1, q1, input, left);
                lemma_more_fuel_extends(opt, q1, input, left, (fuel - 1) as nat);
                lemma_prefix_transitive(
                    slow.1.output,
                    run_from(opt, q1, input, left).1.output,
                    fast.1.output,
                );
            }
        }
    } else if fuel > 0 {
        lemma_barrier_step(ops, opt, s, t);
        if ending(ops, p, input) is None {
            let p1 = advance(ops, p, input);
            let q1 = advance(opt, q, input);
            lemma_runs_keep_output(ops, opt, p1, q1, input, (fuel - 1) as nat);
        }
    }
}

/// From progress that agrees, where the run of the coalesced program ends
/// within its fuel, the run of `ops` ends too, within the number of steps
/// that is returned.
pub(crate) proof fn lemma_runs_end_together(
    ops: Seq<Op>,
    opt: Seq<Op>,
    p: Progress,
    q: Progress,
    input: Seq<u8>,
    fuel: nat,
) -> (enough: nat)
    requires
        ops.len() <= usize::MAX,
        progress_agrees(ops, opt, p, q),
        !(run_from(opt, q, input, fuel).0 is Exhausted),
    ensures
        !(run_from(ops, p, input, enough).0 is Exhausted),
    decreases fuel, ops.len() - p.state.pc,
{
    let s = p.state;
    let t = q.state;
    lemma_aligned_step(ops, opt, s.pc, t.pc);
    lemma_run_unfold(opt, q, input, fuel);
    if s.pc < ops.len() && run_kind(ops[s.pc]) is Some {
        let kind = run_kind(ops[s.pc])->0;
        let end = run_end(kind, ops, s.pc);
        let delta = net_delta(kind, ops, s.pc, end);
        let len = (end - s.pc) as nat;
        let after = match kind {
            RunKind::Cell => after_cell_run(s, delta, end),
            RunKind::Move => after_move_run(s, delta, end),
        };
        let p1 = Progress { state: after, ..p };
        match kind {
            RunKind::Cell => {
                lemma_cell_run(ops, p, input, len, end);
            },
            RunKind::Move => {
                lemma_move_run(ops, p, input, len, end);
            },
        }
        if is_bounds_fault(run_from(ops, p, input, len).0) {
            len
        } else {
            let rest = if delta == 0 {
                assert(after.tape =~= s.tape);
                lemma_runs_end_together(ops, opt, p1, q, input, fuel)
            } else {
                match kind {
                    RunKind::Cell => {
                        lemma_cell_replacement(ops, opt, s, t, end, delta);
                    },
                    RunKind::Move => {
                        lemma_move_replacement(ops, opt, s, t, end, delta);
                    },
                }
                let q1 = Progress { state: step_spec(opt, t).0, ..q };
                assert(run_from(opt, q, input, fuel) == run_from(
                    opt,
                    q1,
                    input,
                    (fuel - 1) as nat,
                ));
                lemma_runs_end_together(ops, opt, p1, q1, input, (fuel - 1) as nat)
            };
            match kind {
                RunKind::Cell => {
                    lemma_cell_run(ops, p, input, len + rest, end);
                },
                RunKind::Move => {
                    lemma_move_run(ops, p, input, len + rest, end);
                },
            }
            len + rest
        }
    } else {
        lemma_barrier_step(ops, opt, s, t);
        if ending(ops, p, input) is None {
            let p1 = advance(ops, p, input);
            let q1 = advance(opt, q, input);
            let rest = lemma_runs_end_together(ops, opt, p1, q1, input, (fuel - 1) as nat);
            lemma_run_unfold(ops, p, input, rest + 1);
            rest + 1
        } else {
            lemma_run_unfold(ops, p, input, 1);
            1
        }
    }
}

} // verus!
