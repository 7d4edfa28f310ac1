//! The execution engine: a tape machine that runs a program one operation
//! at a time.
//!
//! The machine performs no input or output itself. A step that prints hands
//! the byte to the caller; a step that reads asks the caller for a byte.

use vstd::prelude::*;
use crate::ops::Op;
use crate::input::{first_byte_spec, input_byte, trimmed};
use crate::scan::{find_loop_end, lemma_loop_end_bounds, loop_end};

verus! {

/// The number of cells of a fresh tape.
pub const TAPE_SIZE: usize = 3000;

/// The cell a fresh machine points at: the middle of the tape.
pub const ORIGIN: usize = 1500;

/// A defect that ends a run for good.
#[derive(Debug, PartialEq, Eq, Clone, Copy, Structural)]
pub enum Fault {
    /// The `LoopEnd` at index `at` closes no loop.
    UnmatchedLoopEnd { at: usize },
    /// The `LoopStart` at index `at` is closed nowhere.
    UnmatchedLoopStart { at: usize },
    /// The move at index `at` would take the pointer off the tape.
    TapeBounds { at: usize },
}

/// What one step of the machine did.
#[derive(Debug, PartialEq, Eq, Clone, Copy, Structural)]
pub enum Step {
    /// An operation was executed that concerns nobody but the machine.
    Advanced,
    /// A `Print` was executed: the byte is to be written out.
    Output(u8),
    /// The machine stands at a `Read` and goes on once a byte is supplied.
    NeedInput,
    /// The program has been run to its end.
    Halted,
}

/// The state of a machine as contracts see it.
pub struct MachineState {
    /// The cells of the tape.
    pub tape: Seq<u8>,
    /// The index of the current cell.
    pub ptr: int,
    /// The index of the operation to execute next.
    pub pc: int,
    /// For each loop that is being executed, outermost first, the index of
    /// the first operation of its body.
    pub loops: Seq<int>,
}

impl MachineState {
    /// The pointer is on the tape, and each open loop body begins behind its
    /// `LoopStart`.
    pub open spec fn valid(self) -> bool {
        &&& 0 <= self.ptr < self.tape.len()
        &&& 0 <= self.pc
        &&& forall|k: int| 0 <= k < self.loops.len() ==> #[trigger] self.loops[k] >= 1
    }

    /// A zeroed tape of `TAPE_SIZE` cells with the pointer at `ORIGIN`.
    pub open spec fn fresh() -> MachineState {
        MachineState {
            tape: Seq::new(TAPE_SIZE as nat, |i: int| 0u8),
            ptr: ORIGIN as int,
            pc: 0,
            loops: Seq::empty(),
        }
    }

    /// The value of the current cell.
    pub open spec fn cell(self) -> u8 {
        self.tape[self.ptr]
    }

    /// This state after the current cell was set to `value` and the program
    /// counter moved on by one.
    pub open spec fn stored(self, value: u8) -> MachineState {
        MachineState { tape: self.tape.update(self.ptr, value), pc: self.pc + 1, ..self }
    }

    /// This state after the pointer was set to `ptr` and the program counter
    /// moved on by one.
    pub open spec fn moved(self, ptr: int) -> MachineState {
        MachineState { ptr, pc: self.pc + 1, ..self }
    }

    /// This state with the program counter at `pc`.
    pub open spec fn at(self, pc: int) -> MachineState {
        MachineState { pc, ..self }
    }
}

/// The sum of a cell and a count, modulo 256.
pub open spec fn wrapping_inc(cell: u8, count: u8) -> u8 {
    ((cell + count) % 256) as u8
}

/// The difference of a cell and a count, modulo 256.
pub open spec fn wrapping_dec(cell: u8, count: u8) -> u8 {
    ((cell - count) % 256) as u8
}

/// One step of the machine on `program`: the state it leaves and what it
/// reports. A fault, a halt and a request for input leave the state as it
/// was.
pub open spec fn step_spec(program: Seq<Op>, s: MachineState) -> (
    MachineState,
    Result<Step, Fault>,
) {
    if s.pc >= program.len() {
        if s.loops.len() == 0 {
            (s, Ok(Step::Halted))
        } else {
            (s, Err(Fault::UnmatchedLoopStart { at: (s.loops.last() - 1) as usize }))
        }
    } else {
        match program[s.pc] {
            Op::Inc(n) => (s.stored(wrapping_inc(s.cell(), n)), Ok(Step::Advanced)),
            Op::Dec(n) => (s.stored(wrapping_dec(s.cell(), n)), Ok(Step::Advanced)),
            Op::Next(n) => if s.ptr + n < s.tape.len() {
                (s.moved(s.ptr + n), Ok(Step::Advanced))
            } else {
                (s, Err(Fault::TapeBounds { at: s.pc as usize }))
            },
            Op::Prev(n) => if n <= s.ptr {
                (s.moved(s.ptr - n), Ok(Step::Advanced))
            } else {
                (s, Err(Fault::TapeBounds { at: s.pc as usize }))
            },
            Op::Print => (s.at(s.pc + 1), Ok(Step::Output(s.cell()))),
            Op::Read => (s, Ok(Step::NeedInput)),
            Op::LoopStart => if s.cell() != 0 {
                (
                    MachineState { pc: s.pc + 1, loops: s.loops.push(s.pc + 1), ..s },
                    Ok(Step::Advanced),
                )
            } else {
                match loop_end(program, s.pc + 1, 1) {
                    Some(end) => (s.at(end + 1), Ok(Step::Advanced)),
                    None => (s, Err(Fault::UnmatchedLoopStart { at: s.pc as usize })),
                }
            },
            Op::LoopEnd => if s.loops.len() == 0 {
                (s, Err(Fault::UnmatchedLoopEnd { at: s.pc as usize }))
            } else if s.cell() != 0 {
                (s.at(s.loops.last()), Ok(Step::Advanced))
            } else {
                (
                    MachineState { pc: s.pc + 1, loops: s.loops.drop_last(), ..s },
                    Ok(Step::Advanced),
                )
            },
        }
    }
}

/// The state after `byte` was supplied to a machine that stands at a
/// `Read`; in any other state nothing is taken.
pub open spec fn supply_spec(program: Seq<Op>, s: MachineState, byte: u8) -> MachineState {
    if 0 <= s.pc < program.len() && program[s.pc] == Op::Read {
        s.stored(byte)
    } else {
        s
    }
}

/// A step leaves a valid state valid, and so does a byte supplied.
pub proof fn lemma_step_keeps_valid(program: Seq<Op>, s: MachineState)
    requires
        s.valid(),
    ensures
        step_spec(program, s).0.valid(),
        forall|byte: u8| (#[trigger] supply_spec(program, s, byte)).valid(),
{
    if s.pc < program.len() && program[s.pc] == Op::LoopStart && s.cell() == 0 {
        lemma_loop_end_bounds(program, s.pc + 1, 1);
    }
}

/// A tape with its pointer, the program counter and the open loops.
pub struct Machine {
    tape: Vec<u8>,
    ptr: usize,
    pc: usize,
    loops: Vec<usize>,
}

impl View for Machine {
    type V = MachineState;

    closed spec fn view(&self) -> MachineState {
        MachineState {
            tape: self.tape@,
            ptr: self.ptr as int,
            pc: self.pc as int,
            loops: self.loops@.map_values(|b: usize| b as int),
        }
    }
}

impl Machine {
    /// What holds of every machine: the pointer is on the tape, and each
    /// open loop body begins behind its `LoopStart`.
    #[verifier::type_invariant]
    pub closed spec fn inv(&self) -> bool {
        &&& self.ptr < self.tape.len()
        &&& forall|k: int| 0 <= k < self.loops.len() ==> #[trigger] self.loops[k] >= 1
    }

    /// The state of a machine is valid.
    pub proof fn lemma_valid(&self)
        requires
            self.inv(),
        ensures
            self@.valid(),
    {
    }

    /// A machine at the start of a program, on a zeroed tape of `TAPE_SIZE`
    /// cells, pointing at `ORIGIN`.
    pub fn new() -> (m: Machine)
        ensures
            m@ == MachineState::fresh(),
            m@.valid(),
    {
        let mut tape: Vec<u8> = Vec::new();
        while tape.len() < TAPE_SIZE
            invariant
                tape.len() <= TAPE_SIZE,
                forall|i: int| 0 <= i < tape.len() ==> tape[i] == 0,
            decreases TAPE_SIZE - tape.len(),
        {
            tape.push(0);
        }
        let m = Machine { tape, ptr: ORIGIN, pc: 0, loops: Vec::new() };
        assert(m@.tape =~= MachineState::fresh().tape);
        assert(m@.loops =~= MachineState::fresh().loops);
        m
    }

    /// A machine at the start of a program, on the given tape, pointing at
    /// cell `ptr`; `None` where the tape has no such cell.
    pub fn with_tape(tape: Vec<u8>, ptr: usize) -> (m: Option<Machine>)
        ensures
            match m {
                Some(m) => ptr < tape.len() && m@.valid() && m@ == (MachineState {
                    tape: tape@,
                    ptr: ptr as int,
                    pc: 0,
                    loops: Seq::empty(),
                }),
                None => ptr >= tape.len(),
            },
    {
        if ptr < tape.len() {
            let m = Machine { tape, ptr, pc: 0, loops: Vec::new() };
            assert(m@.loops =~= Seq::empty());
            Some(m)
        } else {
            None
        }
    }

    /// The cells of the tape.
    pub fn tape(&self) -> (cells: &Vec<u8>)
        ensures
            cells@ == self@.tape,
    {
        &self.tape
    }

    /// The index of the current cell.
    pub fn pointer(&self) -> (ptr: usize)
        ensures
            ptr == self@.ptr,
    {
        self.ptr
    }

    /// The index of the operation to execute next.
    pub fn pc(&self) -> (pc: usize)
        ensures
            pc == self@.pc,
    {
        self.pc
    }

    /// The value of the current cell.
    pub fn cell(&self) -> (value: u8)
        ensures
            value == self@.cell(),
    {
        proof {
            use_type_invariant(self);
        }
        self.tape[self.ptr]
    }

    /// Records that the loop whose body starts at `body` is entered.
    fn open_loop(&mut self, body: usize)
        requires
            body >= 1,
        ensures
            final(self)@ == (MachineState {
                loops: old(self)@.loops.push(body as int),
                ..old(self)@
            }),
    {
        proof {
            use_type_invariant(&*self);
        }
        let mut loops: Vec<usize> = Vec::new();
        core::mem::swap(&mut self.loops, &mut loops);
        loops.push(body);
        self.loops = loops;
        assert(self@.loops =~= old(self)@.loops.push(body as int));
    }

    /// Records that the innermost open loop is left.
    fn close_loop(&mut self)
        requires
            old(self)@.loops.len() > 0,
        ensures
            final(self)@ == (MachineState {
                loops: old(self)@.loops.drop_last(),
                ..old(self)@
            }),
    {
        proof {
            use_type_invariant(&*self);
        }
        let mut loops: Vec<usize> = Vec::new();
        core::mem::swap(&mut self.loops, &mut loops);
        loops.pop();
        self.loops = loops;
        assert(self@.loops =~= old(self)@.loops.drop_last());
    }

    /// Executes the operation at the program counter.
    ///
    /// A `Print` hands its byte to the caller in `Step::Output`. At a `Read`
    /// nothing is executed: the machine reports `Step::NeedInput` and waits
    /// for `supply`. At the end of the program it reports `Step::Halted`,
    /// or, where a loop is still open, the `LoopStart` that nothing closes.
    pub fn step(&mut self, program: &[Op]) -> (event: Result<Step, Fault>)
        ensures
            (final(self)@, event) == step_spec(program@, old(self)@),
            old(self)@.valid(),
            final(self)@.valid(),
    {
        proof {
            use_type_invariant(&*self);
            self.lemma_valid();
            lemma_step_keeps_valid(program@, self@);
        }
        let pc = self.pc;
        if pc >= program.len() {
            if self.loops.len() == 0 {
                return Ok(Step::Halted);
            }
            let body = self.loops[self.loops.len() - 1];
            return Err(Fault::UnmatchedLoopStart { at: body - 1 });
        }
        match program[pc] {
            Op::Inc(n) => {
                let value = self.tape[self.ptr].wrapping_add(n);
                self.tape[self.ptr] = value;
                self.pc = pc + 1;
                Ok(Step::Advanced)
            },
            Op::Dec(n) => {
                let value = self.tape[self.ptr].wrapping_sub(n);
                self.tape[self.ptr] = value;
                self.pc = pc + 1;
                Ok(Step::Advanced)
            },
            Op::Next(n) => {
                if n < self.tape.len() - self.ptr {
                    self.ptr = self.ptr + n;
                    self.pc = pc + 1;
                    Ok(Step::Advanced)
                } else {
                    Err(Fault::TapeBounds { at: pc })
                }
            },
            Op::Prev(n) => {
                if n <= self.ptr {
                    self.ptr = self.ptr - n;
                    self.pc = pc + 1;
                    Ok(Step::Advanced)
                } else {
                    Err(Fault::TapeBounds { at: pc })
                }
            },
            Op::Print => {
                self.pc = pc + 1;
                Ok(Step::Output(self.tape[self.ptr]))
            },
            Op::Read => Ok(Step::NeedInput),
            Op::LoopStart => {
                if self.tape[self.ptr] != 0 {
                    self.open_loop(pc + 1);
                    proof {
                        use_type_invariant(&*self);
                    }
                    self.pc = pc + 1;
                    Ok(Step::Advanced)
                } else {
                    match find_loop_end(program, pc + 1) {
                        Some(end) => {
                            self.pc = end + 1;
                            Ok(Step::Advanced)
                        },
                        None => Err(Fault::UnmatchedLoopStart { at: pc }),
                    }
                }
            },
            Op::LoopEnd => {
                if self.loops.len() == 0 {
                    Err(Fault::UnmatchedLoopEnd { at: pc })
                } else if self.tape[self.ptr] != 0 {
                    self.pc = self.loops[self.loops.len() - 1];
                    Ok(Step::Advanced)
                } else {
                    self.close_loop();
                    proof {
                        use_type_invariant(&*self);
                    }
                    self.pc = pc + 1;
                    Ok(Step::Advanced)
                }
            },
        }
    }

    /// Supplies the byte that a `Read` waits for: stores it in the current
    /// cell and moves past the `Read`. Returns whether the byte was taken;
    /// a machine that does not stand at a `Read` takes none and stays as it
    /// is.
    pub fn supply(&mut self, program: &[Op], byte: u8) -> (taken: bool)
        ensures
            final(self)@ == supply_spec(program@, old(self)@, byte),
            taken <==> (old(self)@.pc < program@.len() && program@[old(self)@.pc] == Op::Read),
            old(self)@.valid(),
            final(self)@.valid(),
    {
        proof {
            use_type_invariant(&*self);
            self.lemma_valid();
            lemma_step_keeps_valid(program@, self@);
        }
        let pc = self.pc;
        if pc < program.len() {
            if let Op::Read = program[pc] {
                self.tape[self.ptr] = byte;
                self.pc = pc + 1;
                return true;
            }
        }
        false
    }

    /// Supplies a line of input to a `Read`: the byte that the line gives
    /// is stored as by `supply`. A blank line gives no byte: the machine
    /// stays as it is and the `Read` waits for another line. Returns whether
    /// a byte was taken.
    pub fn supply_line(&mut self, program: &[Op], line: &str) -> (taken: bool)
        ensures
            match first_byte_spec(trimmed(line@)) {
                Some(byte) => {
                    &&& final(self)@ == supply_spec(program@, old(self)@, byte)
                    &&& taken <==> (old(self)@.pc < program@.len() && program@[old(self)@.pc]
                        == Op::Read)
                },
                None => final(self)@ == old(self)@ && !taken,
            },
            old(self)@.valid(),
            final(self)@.valid(),
    {
        match input_byte(line) {
            Some(byte) => self.supply(program, byte),
            None => {
                proof {
                    use_type_invariant(&*self);
                    self.lemma_valid();
                }
                false
            },
        }
    }
}

} // verus!
