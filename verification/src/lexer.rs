//! From source text to operations.

use vstd::prelude::*;
use crate::ops::Op;

verus! {

/// The operation a character stands for; `None` for the characters that
/// are not commands, which a source text may hold freely as commentary.
pub open spec fn command_op(c: char) -> Option<Op> {
    if c == '>' {
        Some(Op::Next(1))
    } else if c == '<' {
        Some(Op::Prev(1))
    } else if c == '+' {
        Some(Op::Inc(1))
    } else if c == '-' {
        Some(Op::Dec(1))
    } else if c == '[' {
        Some(Op::LoopStart)
    } else if c == ']' {
        Some(Op::LoopEnd)
    } else if c == ',' {
        Some(Op::Read)
    } else if c == '.' {
        Some(Op::Print)
    } else {
        None
    }
}

/// The program a source text denotes: the operations of its command
/// characters, in the order of the text.
pub open spec fn lex_spec(source: Seq<char>) -> Seq<Op> {
    source.filter_map(|c: char| command_op(c))
}

/// A program is no longer than its source text.
pub proof fn lemma_lex_len(source: Seq<char>)
    ensures
        lex_spec(source).len() <= source.len(),
    decreases source.len(),
{
    if source.len() > 0 {
        lemma_lex_len(source.drop_last());
    }
}

/// Lexing maps character for character: a text that holds command
/// characters only gives a program of the same length, whose operation at
/// each index is the one that the character at that index stands for.
pub proof fn lemma_lex_commands_only(source: Seq<char>)
    requires
        forall|i: int| 0 <= i < source.len() ==> command_op(#[trigger] source[i]) is Some,
    ensures
        lex_spec(source).len() == source.len(),
        forall|i: int|
            0 <= i < source.len() ==> Some(#[trigger] lex_spec(source)[i]) == command_op(
                source[i],
            ),
    decreases source.len(),
{
    if source.len() > 0 {
        lemma_lex_commands_only(source.drop_last());
    }
}

/// Lexing reads a text piece by piece: the program of two texts joined is
/// the two programs joined.
pub proof fn lemma_lex_concat(left: Seq<char>, right: Seq<char>)
    ensures
        lex_spec(left + right) == lex_spec(left) + lex_spec(right),
    decreases right.len(),
{
    if right.len() > 0 {
        assert((left + right).drop_last() == left + right.drop_last());
        lemma_lex_concat(left, right.drop_last());
    }
}

/// Translates source text into a program.
///
/// Brackets are not checked for balance here; the engine reports an
/// unbalanced program when it runs into the defect.
pub fn lex(prog: &str) -> (ops: Vec<Op>)
    ensures
        ops@ == lex_spec(prog@),
        ops@.len() <= prog@.len(),
{
    proof {
        lemma_lex_len(prog@);
    }
    let mut ops: Vec<Op> = Vec::new();
    let chars = prog.chars();
    for ch in it: chars
        invariant
            it.seq() == prog@,
            ops@ == lex_spec(prog@.take(it.index() as int)),
    {
        proof {
            assert(prog@.take(it.index() + 1).drop_last() == prog@.take(it.index() as int));
        }
        match ch {
            '>' => ops.push(Op::Next(1)),
            '<' => ops.push(Op::Prev(1)),
            '+' => ops.push(Op::Inc(1)),
            '-' => ops.push(Op::Dec(1)),
            '[' => ops.push(Op::LoopStart),
            ']' => ops.push(Op::LoopEnd),
            ',' => ops.push(Op::Read),
            '.' => ops.push(Op::Print),
            _ => {},
        }
    }
    proof {
        assert(prog@.take(prog@.len() as int) == prog@);
    }
    ops
}

} // verus!
