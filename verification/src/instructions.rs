//! The instruction model: the seven basic instructions of the source
//! language, and the extended set that the optimizer produces.

use vstd::prelude::*;

verus! {

/// A basic instruction, one per recognized source symbol.
#[derive(Debug, Clone, Copy, PartialEq, Eq, Structural)]
pub enum Instruction {
    MoveRight,
    MoveLeft,
    Increment,
    Decrement,
    Output,
    JumpForward,
    JumpBackwards,
}

/// An instruction of the optimized stream: a basic instruction, or a fused
/// form standing for a run of them.
#[derive(Debug, Clone, Copy, PartialEq, Eq, Structural)]
pub enum ExtendedInstruction {
    Regular(Instruction),
    /// Adds the count to the current cell, modulo 256.
    Add(u8),
    /// Subtracts the count from the current cell, modulo 256.
    Sub(u8),
    /// Moves the data pointer right by the count.
    JumpRight(u32),
    /// Moves the data pointer left by the count.
    JumpLeft(u32),
    /// Writes zero to the current cell.
    SetZero,
}

/// The instruction that a source character stands for, if it stands for one.
pub open spec fn instruction_of_char(c: char) -> Option<Instruction> {
    if c == '>' {
        Some(Instruction::MoveRight)
    } else if c == '<' {
        Some(Instruction::MoveLeft)
    } else if c == '+' {
        Some(Instruction::Increment)
    } else if c == '-' {
        Some(Instruction::Decrement)
    } else if c == '.' {
        Some(Instruction::Output)
    } else if c == '[' {
        Some(Instruction::JumpForward)
    } else if c == ']' {
        Some(Instruction::JumpBackwards)
    } else {
        None
    }
}

/// The source character of an instruction.
pub open spec fn char_of_instruction(i: Instruction) -> char {
    match i {
        Instruction::MoveRight => '>',
        Instruction::MoveLeft => '<',
        Instruction::Increment => '+',
        Instruction::Decrement => '-',
        Instruction::Output => '.',
        Instruction::JumpForward => '[',
        Instruction::JumpBackwards => ']',
    }
}

impl Instruction {
    /// Reads one source character. Every character but the seven symbols is
    /// refused.
    pub fn from_char(c: char) -> (r: Option<Instruction>)
        ensures
            r == instruction_of_char(c),
    {
        match c {
            '>' => Some(Instruction::MoveRight),
            '<' => Some(Instruction::MoveLeft),
            '+' => Some(Instruction::Increment),
            '-' => Some(Instruction::Decrement),
            '.' => Some(Instruction::Output),
            '[' => Some(Instruction::JumpForward),
            ']' => Some(Instruction::JumpBackwards),
            _ => None,
        }
    }

    /// The source character that this instruction is written as.
    pub fn to_char(self) -> (c: char)
        ensures
            c == char_of_instruction(self),
            instruction_of_char(c) == Some(self),
    {
        match self {
            Instruction::MoveRight => '>',
            Instruction::MoveLeft => '<',
            Instruction::Increment => '+',
            Instruction::Decrement => '-',
            Instruction::Output => '.',
            Instruction::JumpForward => '[',
            Instruction::JumpBackwards => ']',
        }
    }
}

impl TryFrom<char> for Instruction {
    type Error = &'static str;

    fn try_from(c: char) -> (r: Result<Self, Self::Error>) {
        match Instruction::from_char(c) {
            Some(i) => Ok(i),
            None => Err("Unknown instruction character"),
        }
    }
}

impl vstd::std_specs::convert::TryFromSpecImpl<char> for Instruction {
    open spec fn obeys_try_from_spec() -> bool {
        true
    }

    open spec fn try_from_spec(c: char) -> Result<Self, Self::Error> {
        match instruction_of_char(c) {
            Some(i) => Ok(i),
            None => Err("Unknown instruction character"),
        }
    }
}

impl From<Instruction> for char {
    fn from(val: Instruction) -> (c: char) {
        val.to_char()
    }
}

impl vstd::std_specs::convert::FromSpecImpl<Instruction> for char {
    open spec fn obeys_from_spec() -> bool {
        true
    }

    open spec fn from_spec(val: Instruction) -> char {
        char_of_instruction(val)
    }
}

} // verus!
