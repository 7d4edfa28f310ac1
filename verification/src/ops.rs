//! The operations a program is made of.

use vstd::prelude::*;

verus! {

/// One operation of a program.
///
/// The four counted operations carry the amount they apply; the lexer only
/// ever produces a count of one, the optimizer may produce any count.
#[derive(Debug, PartialEq, Eq, Clone, Copy, Structural)]
pub enum Op {
    /// Add the count to the current cell, modulo 256.
    Inc(u8),
    /// Subtract the count from the current cell, modulo 256.
    Dec(u8),
    /// Move the tape pointer right by the count.
    Next(usize),
    /// Move the tape pointer left by the count.
    Prev(usize),
    /// Enter the loop body if the current cell is non-zero, else skip it.
    LoopStart,
    /// Repeat the loop body if the current cell is non-zero, else leave it.
    LoopEnd,
    /// Write the current cell to the output.
    Print,
    /// Store one byte of input in the current cell.
    Read,
}

impl Op {
    /// Whether this is one of the two loop brackets.
    pub open spec fn is_bracket(self) -> bool {
        self == Op::LoopStart || self == Op::LoopEnd
    }
}

} // verus!
