//! The just-in-time compiler: optimizes a program, assembles its machine
//! code and places it in executable memory.

use memmap2::Mmap;
use vstd::prelude::*;
use crate::assembler::{assemble, image, MAX_ASSEMBLED_LEN};
use crate::instructions::Instruction;
use crate::jumps::{
    balanced, has_unmatched_close, has_unmatched_open, lemma_bracket_verdicts, BracketMismatch,
};
use crate::machine::{blank_tape, new_tape, TAPE_LENGTH};
use crate::optimizer::{
    extended, instructions_to_extended, lemma_optimized_len, optimize_instruction_repetitions,
    optimize_pattern_based, optimized,
};
use crate::rewrites::lemma_optimized_brackets;
use crate::region::{address_of, executable_bytes, fill, make_exec, map_anon};

verus! {

/// Why the compiler gave no routine, or none to run.
#[derive(Debug, Clone, Copy, PartialEq, Eq, Structural)]
pub enum CompileError {
    /// A bracket of the program has no partner.
    Bracket(BracketMismatch),
    /// The operating system refused to map the memory, or to make it
    /// executable.
    MemoryMappingFailure,
    /// The routine was asked for before any program was compiled.
    EmptyProgramInvocation,
}

/// A compiler with its tape, the machine code of the last program that it
/// compiled, and the executable region that holds that code.
pub struct Compiler {
    /// The machine code of the routine.
    machine_code: Vec<u8>,
    /// The executable memory that holds the routine.
    executable_memory: Option<Mmap>,
    /// The tape: 30,000 cells, which the routine works on in place.
    memory: Vec<u8>,
    /// The address of the tape that the routine was compiled for.
    tape_address: u64,
}

/// Places machine code in memory and makes it executable: a region of
/// exactly the code's length is mapped, the code is copied into it, and
/// write access is given up for the right to execute.
pub fn load(code: &Vec<u8>) -> (r: Result<Mmap, CompileError>)
    ensures
        match r {
            Ok(region) => executable_bytes(region) == code@,
            Err(e) => e == CompileError::MemoryMappingFailure,
        },
{
    match map_anon(code.len()) {
        Err(_) => Err(CompileError::MemoryMappingFailure),
        Ok(mut region) => {
            fill(&mut region, code.as_slice());
            match make_exec(region) {
                Err(_) => Err(CompileError::MemoryMappingFailure),
                Ok(executable) => Ok(executable),
            }
        },
    }
}

impl Compiler {
    /// The machine code of the routine; empty before the first compilation.
    pub closed spec fn code(&self) -> Seq<u8> {
        self.machine_code@
    }

    /// The tape.
    pub closed spec fn tape(&self) -> Seq<u8> {
        self.memory@
    }

    /// The address of the tape that the routine was compiled for.
    pub closed spec fn base(&self) -> u64 {
        self.tape_address
    }

    /// The bytes in executable memory, if a routine has been placed there.
    pub closed spec fn region(&self) -> Option<Seq<u8>> {
        match self.executable_memory {
            Some(region) => Some(executable_bytes(region)),
            None => None,
        }
    }

    /// The invariant of the type: the tape has its 30,000 cells, and the
    /// executable region is there if and only if code has been compiled,
    /// and then it holds that code.
    pub closed spec fn wf(&self) -> bool {
        &&& self.memory@.len() == TAPE_LENGTH
        &&& self.machine_code@.len() > 0 <==> self.executable_memory.is_some()
        &&& self.executable_memory matches Some(region) ==> executable_bytes(region)
            == self.machine_code@
    }

    /// A compiler with a blank tape and no routine.
    pub fn new() -> (compiler: Compiler)
        ensures
            compiler.wf(),
            compiler.code() == Seq::<u8>::empty(),
            compiler.region().is_none(),
            compiler.tape() == blank_tape(),
    {
        Compiler {
            machine_code: Vec::new(),
            executable_memory: None,
            memory: new_tape(),
            tape_address: 0,
        }
    }

    /// Compiles a program: optimizes it, assembles the routine for this
    /// compiler's tape, and places it in fresh executable memory, in place
    /// of whatever routine was there. Where that fails, the compiler is
    /// left as it was.
    ///
    /// A program of any length with a bracket that has no partner is
    /// refused with that fault. The bound on the length is asked of
    /// programs with paired brackets only.
    pub fn compile(&mut self, source: &[Instruction]) -> (r: Result<(), CompileError>)
        requires
            old(self).wf(),
            balanced(extended(source@)) ==> source.len() <= MAX_ASSEMBLED_LEN,
        ensures
            final(self).wf(),
            final(self).tape() == old(self).tape(),
            match r {
                Ok(()) => {
                    &&& balanced(extended(source@))
                    &&& final(self).code() == image(final(self).base(), optimized(source@))
                    &&& final(self).region() == Some(final(self).code())
                },
                Err(CompileError::Bracket(BracketMismatch::UnmatchedClose)) => {
                    &&& has_unmatched_close(extended(source@))
                    &&& *final(self) == *old(self)
                },
                Err(CompileError::Bracket(BracketMismatch::UnmatchedOpen)) => {
                    &&& has_unmatched_open(extended(source@))
                    &&& *final(self) == *old(self)
                },
                Err(CompileError::MemoryMappingFailure) => {
                    &&& balanced(extended(source@))
                    &&& *final(self) == *old(self)
                },
                Err(CompileError::EmptyProgramInvocation) => false,
            },
            has_unmatched_close(extended(source@)) ==> r == Err::<(), CompileError>(
                CompileError::Bracket(BracketMismatch::UnmatchedClose),
            ),
            has_unmatched_open(extended(source@)) ==> r == Err::<(), CompileError>(
                CompileError::Bracket(BracketMismatch::UnmatchedOpen),
            ),
    {
        let address = address_of(&self.memory);
        let wrapped = instructions_to_extended(source);
        let coalesced = optimize_instruction_repetitions(wrapped.as_slice());
        let instructions = optimize_pattern_based(coalesced.as_slice());
        proof {
            lemma_optimized_len(source@);
            lemma_optimized_brackets(source@);
            lemma_bracket_verdicts(extended(source@));
        }
        match assemble(address, instructions.as_slice()) {
            Err(e) => Err(CompileError::Bracket(e)),
            Ok(code) => {
                proof {
                    crate::assembler::lemma_image_len(address, instructions@);
                }
                match load(&code) {
                    Err(e) => Err(e),
                    Ok(region) => {
                        self.machine_code = code;
                        self.executable_memory = Some(region);
                        self.tape_address = address;
                        Ok(())
                    },
                }
            },
        }
    }

    /// Hands out the routine to run: the executable region, whose first
    /// byte is the entry of a routine that takes no argument and returns
    /// nothing. The caller makes the jump. Before any compilation there is
    /// no routine, and that is reported instead.
    pub fn execute(&self) -> (r: Result<&Mmap, CompileError>)
        requires
            self.wf(),
        ensures
            match r {
                Ok(region) => self.code().len() > 0 && executable_bytes(*region) == self.code(),
                Err(e) => self.code().len() == 0 && e == CompileError::EmptyProgramInvocation,
            },
    {
        if self.machine_code.len() == 0 {
            return Err(CompileError::EmptyProgramInvocation);
        }
        match &self.executable_memory {
            Some(region) => Ok(region),
            None => Err(CompileError::EmptyProgramInvocation),
        }
    }

    /// Sets every cell of the tape to zero, in place: the tape stays where
    /// the routine expects it. The routine itself is kept.
    pub fn clear(&mut self)
        requires
            old(self).wf(),
        ensures
            final(self).wf(),
            final(self).tape() == blank_tape(),
            final(self).code() == old(self).code(),
            final(self).region() == old(self).region(),
            final(self).base() == old(self).base(),
    {
        let mut i: usize = 0;
        while i < TAPE_LENGTH
            invariant
                i <= TAPE_LENGTH,
                self.wf(),
                self.machine_code == old(self).machine_code,
                self.executable_memory == old(self).executable_memory,
                self.tape_address == old(self).tape_address,
                forall|k: int| 0 <= k < i ==> self.memory@[k] == 0,
            decreases TAPE_LENGTH - i,
        {
            self.memory.set(i, 0);
            i += 1;
        }
        assert(self.memory@ =~= blank_tape());
    }

    /// The machine code of the routine.
    pub fn machine_code(&self) -> (code: &Vec<u8>)
        ensures
            code@ == self.code(),
    {
        &self.machine_code
    }

    /// The tape.
    pub fn memory(&self) -> (tape: &Vec<u8>)
        ensures
            tape@ == self.tape(),
    {
        &self.memory
    }
}

impl Default for Compiler {
    fn default() -> (compiler: Compiler)
        ensures
            compiler.wf(),
            compiler.code() == Seq::<u8>::empty(),
            compiler.region().is_none(),
            compiler.tape() == blank_tape(),
    {
        Compiler::new()
    }
}

} // verus!
