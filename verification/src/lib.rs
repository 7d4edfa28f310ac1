//! An interpreter core for the eight-command tape language: a lexer, a
//! run-coalescing optimizer and a step-wise execution engine, each with a
//! machine-checked contract.
//!
//! Source text becomes a program with [`lex`], a program becomes a shorter
//! one with the same behaviour with [`optimize`], and a [`Machine`] runs a
//! program one operation at a time, or, with [`execute`], against a
//! prepared input. The library performs no input or output of its own.
//!
//! ```
//! use brainfuck::{execute, lex, optimize, Status};
//!
//! let program = optimize(lex("++>+++++[<+>-]<."));
//! let (machine, outcome) = execute(&program, &[], 1_000);
//! assert_eq!(outcome.status, Status::Halted);
//! assert_eq!(outcome.output, vec![7]);
//! assert_eq!(machine.cell(), 7);
//! ```

pub mod ops;
pub mod lexer;
pub mod optimizer;
pub mod scan;
pub mod machine;
pub mod run;
pub mod loops;
mod simulation;
pub mod equivalence;
pub mod input;

pub use crate::input::input_byte;
pub use crate::lexer::lex;
pub use crate::machine::{Fault, Machine, Step};
pub use crate::ops::Op;
pub use crate::optimizer::optimize;
pub use crate::run::{execute, Outcome, Status};
