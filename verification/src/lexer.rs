//! The lexer: keeps the bytes that are instruction symbols, in order, and
//! drops every other byte without complaint.

use vstd::prelude::*;
use crate::instructions::{instruction_of_char, Instruction};

verus! {

/// The instructions that a byte string holds: each symbol byte gives its
/// instruction, every other byte gives nothing.
pub open spec fn lex(bytes: Seq<u8>) -> Seq<Instruction>
    decreases bytes.len(),
{
    if bytes.len() == 0 {
        Seq::empty()
    } else {
        match instruction_of_char(bytes.last() as char) {
            Some(i) => lex(bytes.drop_last()).push(i),
            None => lex(bytes.drop_last()),
        }
    }
}

/// Converts bytes into the instructions they spell.
pub fn tokenize(bytes: &[u8]) -> (out: Vec<Instruction>)
    ensures
        out@ == lex(bytes@),
{
    let mut out: Vec<Instruction> = Vec::new();
    let mut i: usize = 0;
    while i < bytes.len()
        invariant
            i <= bytes.len(),
            out@ == lex(bytes@.take(i as int)),
        decreases bytes.len() - i,
    {
        proof {
            assert(bytes@.take(i + 1).drop_last() =~= bytes@.take(i as int));
        }
        match Instruction::from_char(bytes[i] as char) {
            Some(instruction) => out.push(instruction),
            None => {},
        }
        i += 1;
    }
    proof {
        assert(bytes@.take(i as int) =~= bytes@);
    }
    out
}

/// Converts bytes into the instructions they spell, all at once.
pub fn tokenize_all(bytes: &[u8]) -> (out: Vec<Instruction>)
    ensures
        out@ == lex(bytes@),
{
    tokenize(bytes)
}

} // verus!
