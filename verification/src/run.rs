//! Running a program against a prepared input.
//!
//! A run drives the machine step by step, takes the bytes that `Read`
//! operations ask for from a given input, and collects the bytes that
//! `Print` operations hand out. It is bounded by a number of steps, so that
//! it ends on every program.

use vstd::prelude::*;
use crate::ops::Op;
use crate::machine::{Fault, Machine, MachineState, Step, step_spec, supply_spec};

verus! {

/// How a run ended.
#[derive(Debug, PartialEq, Eq, Clone, Copy, Structural)]
pub enum Status {
    /// The program was run to its end.
    Halted,
    /// The machine stands at a `Read` and the input is used up.
    Starved,
    /// The allowed number of steps was taken and the program has not ended.
    Exhausted,
    /// The run was ended by a defect.
    Faulted(Fault),
}

/// How far a run has come.
pub struct Progress {
    /// The state of the machine.
    pub state: MachineState,
    /// The number of input bytes taken so far.
    pub consumed: nat,
    /// The bytes handed out so far.
    pub output: Seq<u8>,
}

/// How the run ends at `p`, if it ends there: at the end of the program, at
/// a fault, or at a `Read` with the input used up.
pub open spec fn ending(program: Seq<Op>, p: Progress, input: Seq<u8>) -> Option<Status> {
    match step_spec(program, p.state).1 {
        Err(fault) => Some(Status::Faulted(fault)),
        Ok(Step::Halted) => Some(Status::Halted),
        Ok(Step::NeedInput) => if p.consumed < input.len() {
            None
        } else {
            Some(Status::Starved)
        },
        Ok(Step::Advanced) => None,
        Ok(Step::Output(_)) => None,
    }
}

/// The progress that one step makes from `p`, where the run does not end
/// there: a `Print` adds its byte to the output, a `Read` takes the next
/// byte of the input.
pub open spec fn advance(program: Seq<Op>, p: Progress, input: Seq<u8>) -> Progress {
    let (next, event) = step_spec(program, p.state);
    match event {
        Ok(Step::Output(byte)) => Progress { state: next, output: p.output.push(byte), ..p },
        Ok(Step::NeedInput) => Progress {
            state: supply_spec(program, next, input[p.consumed as int]),
            consumed: p.consumed + 1,
            ..p
        },
        _ => Progress { state: next, ..p },
    }
}

/// The end of the run that goes on from `p` for at most `fuel` steps: how
/// it ends, and how far it has come by then.
#[verifier::opaque]
pub open spec fn run_from(program: Seq<Op>, p: Progress, input: Seq<u8>, fuel: nat) -> (
    Status,
    Progress,
)
    decreases fuel,
{
    if fuel == 0 {
        (Status::Exhausted, p)
    } else {
        match ending(program, p, input) {
            Some(status) => (status, p),
            None => run_from(program, advance(program, p, input), input, (fuel - 1) as nat),
        }
    }
}

/// The end of the run that starts in state `s` with nothing read and
/// nothing written.
pub open spec fn run_spec(program: Seq<Op>, s: MachineState, input: Seq<u8>, fuel: nat) -> (
    Status,
    Progress,
) {
    run_from(program, Progress { state: s, consumed: 0, output: Seq::empty() }, input, fuel)
}

/// A run without fuel is exhausted where it stands; a run with fuel ends
/// where it stands if it ends there, and else goes on from the progress of
/// one step with one step less.
pub proof fn lemma_run_unfold(program: Seq<Op>, p: Progress, input: Seq<u8>, fuel: nat)
    ensures
        run_from(program, p, input, fuel) == if fuel == 0 {
            (Status::Exhausted, p)
        } else {
            match ending(program, p, input) {
                Some(status) => (status, p),
                None => run_from(program, advance(program, p, input), input, (fuel - 1) as nat),
            }
        },
{
    reveal(run_from);
}

/// A run takes nothing back: what was written stays written, in its
/// place, and what was read stays read.
pub proof fn lemma_run_extends(program: Seq<Op>, p: Progress, input: Seq<u8>, fuel: nat)
    ensures
        p.output.is_prefix_of(run_from(program, p, input, fuel).1.output),
        p.consumed <= run_from(program, p, input, fuel).1.consumed,
    decreases fuel,
{
    lemma_run_unfold(program, p, input, fuel);
    if fuel > 0 && ending(program, p, input) is None {
        lemma_run_extends(program, advance(program, p, input), input, (fuel - 1) as nat);
    }
}

/// A run with more fuel goes on from where the run with less left off; a
/// run that has ended within its fuel ends the same way with more.
pub proof fn lemma_run_split(
    program: Seq<Op>,
    p: Progress,
    input: Seq<u8>,
    first: nat,
    second: nat,
)
    ensures
        run_from(program, p, input, first + second) == if run_from(
            program,
            p,
            input,
            first,
        ).0 is Exhausted {
            run_from(program, run_from(program, p, input, first).1, input, second)
        } else {
            run_from(program, p, input, first)
        },
    decreases first,
{
    lemma_run_unfold(program, p, input, first);
    lemma_run_unfold(program, p, input, first + second);
    if first > 0 && ending(program, p, input) is None {
        let p1 = advance(program, p, input);
        lemma_run_split(program, p1, input, (first - 1) as nat, second);
    }
}

/// A run that has ended within its fuel ends the same way with more.
pub proof fn lemma_fuel_monotonic(
    program: Seq<Op>,
    p: Progress,
    input: Seq<u8>,
    fuel: nat,
    more: nat,
)
    requires
        fuel <= more,
        !(run_from(program, p, input, fuel).0 is Exhausted),
    ensures
        run_from(program, p, input, more) == run_from(program, p, input, fuel),
{
    lemma_run_split(program, p, input, fuel, (more - fuel) as nat);
}

/// More fuel takes nothing back: the output of a run is the beginning of
/// the output of the run with more fuel.
pub proof fn lemma_more_fuel_extends(
    program: Seq<Op>,
    p: Progress,
    input: Seq<u8>,
    fuel: nat,
    more: nat,
)
    requires
        fuel <= more,
    ensures
        run_from(program, p, input, fuel).1.output.is_prefix_of(
            run_from(program, p, input, more).1.output,
        ),
        run_from(program, p, input, fuel).1.consumed <= run_from(
            program,
            p,
            input,
            more,
        ).1.consumed,
{
    lemma_run_split(program, p, input, fuel, (more - fuel) as nat);
    let short = run_from(program, p, input, fuel);
    if short.0 is Exhausted {
        lemma_run_extends(program, short.1, input, (more - fuel) as nat);
    }
}

/// What a run leaves behind, besides the machine.
#[derive(Debug)]
pub struct Outcome {
    /// How the run ended.
    pub status: Status,
    /// The number of input bytes taken.
    pub consumed: usize,
    /// The bytes handed out, in order.
    pub output: Vec<u8>,
}

impl Outcome {
    /// Whether this outcome, with the machine in state `state`, is the end
    /// `end` of a run.
    pub open spec fn is_end(self, state: MachineState, end: (Status, Progress)) -> bool {
        &&& self.status == end.0
        &&& state == end.1.state
        &&& self.consumed == end.1.consumed
        &&& self.output@ == end.1.output
    }
}

impl Machine {
    /// Runs `program` from the machine's present state for at most `fuel`
    /// steps. Each `Read` takes the next byte of `input`; each `Print` adds
    /// a byte to the output.
    ///
    /// The run ends when the program has been run to its end, at a `Read`
    /// for which no input is left, at a fault, or when `fuel` steps have been
    /// taken; the machine is left in the state it had reached by then.
    pub fn run(&mut self, program: &[Op], input: &[u8], fuel: u64) -> (outcome: Outcome)
        ensures
            outcome.is_end(final(self)@, run_spec(program@, old(self)@, input@, fuel as nat)),
            old(self)@.valid(),
            final(self)@.valid(),
    {
        let mut output: Vec<u8> = Vec::new();
        let mut consumed: usize = 0;
        let mut left: u64 = fuel;
        proof {
            use_type_invariant(&*self);
            self.lemma_valid();
        }
        while left > 0
            invariant
                consumed <= input.len(),
                old(self)@.valid(),
                self@.valid(),
                run_from(
                    program@,
                    Progress { state: self@, consumed: consumed as nat, output: output@ },
                    input@,
                    left as nat,
                ) == run_spec(program@, old(self)@, input@, fuel as nat),
            decreases left,
        {
            proof {
                lemma_run_unfold(
                    program@,
                    Progress { state: self@, consumed: consumed as nat, output: output@ },
                    input@,
                    left as nat,
                );
            }
            match self.step(program) {
                Err(fault) => {
                    return Outcome { status: Status::Faulted(fault), consumed, output };
                },
                Ok(Step::Halted) => {
                    return Outcome { status: Status::Halted, consumed, output };
                },
                Ok(Step::Advanced) => {},
                Ok(Step::Output(byte)) => {
                    output.push(byte);
                },
                Ok(Step::NeedInput) => {
                    if consumed < input.len() {
                        self.supply(program, input[consumed]);
                        consumed += 1;
                    } else {
                        return Outcome { status: Status::Starved, consumed, output };
                    }
                },
            }
            left -= 1;
        }
        proof {
            lemma_run_unfold(
                program@,
                Progress { state: self@, consumed: consumed as nat, output: output@ },
                input@,
                0,
            );
        }
        Outcome { status: Status::Exhausted, consumed, output }
    }
}

/// Runs `program` on a fresh machine for at most `fuel` steps, with `input`
/// for its `Read` operations, and returns the machine with what the run
/// left behind.
pub fn execute(program: &[Op], input: &[u8], fuel: u64) -> (end: (Machine, Outcome))
    ensures
        end.1.is_end(end.0@, run_spec(program@, MachineState::fresh(), input@, fuel as nat)),
{
    let mut machine = Machine::new();
    let outcome = machine.run(program, input, fuel);
    (machine, outcome)
}

} // verus!
