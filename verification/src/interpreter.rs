//! The interpreter: runs an optimized program against a tape of 30,000
//! cells, one instruction at a time, with the jumps resolved beforehand.

use vstd::prelude::*;
use crate::instructions::{ExtendedInstruction, Instruction};
use crate::jumps::{
    balanced, has_unmatched_close, has_unmatched_open, index_positions, is_match,
    lemma_bracket_verdicts, lemma_close_has_match, lemma_open_has_match, matching_close,
    matching_open, resolve_jumps, BracketMismatch, JumpMap,
};
use crate::machine::{
    blank_tape, cell_after, new_tape, output, run, status, step, valid_state, written, State,
    Status, TAPE_LENGTH,
};
use crate::optimizer::{
    extended, instructions_to_extended, optimize_instruction_repetitions, optimize_pattern_based,
    optimized,
};
use crate::preservation::lemma_optimized_finishes_alike;
use crate::rewrites::lemma_optimized_brackets;

verus! {

/// What one step of the interpreter did.
#[derive(Debug, Clone, Copy, PartialEq, Eq, Structural)]
pub enum Step {
    /// An instruction was carried out and wrote nothing.
    Advanced,
    /// An output instruction was carried out: the byte is to be written to
    /// the output stream.
    Output(u8),
    /// Nothing was done: the program has ended.
    Finished,
    /// Nothing was done: the next instruction would move the data pointer
    /// off the tape.
    PointerOutOfBounds,
}

/// What a stretch of a run produced.
pub struct Execution {
    /// The bytes written, in order.
    pub output: Vec<u8>,
    /// Where the machine stands now. `Running` says that the step budget
    /// ended first and the run can be resumed.
    pub status: Status,
}

/// A tape machine with a program loaded into it.
pub struct Interpreter {
    /// The data pointer.
    stack_pointer: usize,
    /// The tape: 30,000 cells.
    stack: Vec<u8>,
    /// The jumps of the loaded program, by instruction index.
    jumps: JumpMap,
    /// The loaded program, optimized.
    instructions: Vec<ExtendedInstruction>,
    /// The index of the next instruction.
    instruction_pointer: usize,
}

impl Interpreter {
    /// The loaded program.
    pub closed spec fn code(&self) -> Seq<ExtendedInstruction> {
        self.instructions@
    }

    /// The state of the machine.
    pub closed spec fn state(&self) -> State {
        State {
            ip: self.instruction_pointer as int,
            pointer: self.stack_pointer as int,
            tape: self.stack@,
        }
    }

    /// The jump map of the loaded program, keyed by instruction index.
    pub closed spec fn jumps(&self) -> JumpMap {
        self.jumps
    }

    /// The invariant of the type: the state is one that the program can be
    /// run from, the program's brackets are paired, and the jump map holds
    /// exactly those pairs.
    pub closed spec fn wf(&self) -> bool {
        &&& valid_state(self.code(), self.state())
        &&& balanced(self.code())
        &&& self.jumps().resolves(self.code(), index_positions(self.code().len()))
    }

    /// What `wf` says to the outside: all three parts of the invariant.
    pub proof fn lemma_wf(&self)
        requires
            self.wf(),
        ensures
            valid_state(self.code(), self.state()),
            balanced(self.code()),
            self.jumps().resolves(self.code(), index_positions(self.code().len())),
    {
    }

    /// A machine with a blank tape, the data pointer on the first cell, and
    /// the empty program.
    pub fn new() -> (interpreter: Interpreter)
        ensures
            interpreter.wf(),
            interpreter.code() == Seq::<ExtendedInstruction>::empty(),
            interpreter.state() == (State { ip: 0, pointer: 0, tape: blank_tape() }),
            interpreter.jumps().forward() == Map::<usize, usize>::empty(),
            interpreter.jumps().backward() == Map::<usize, usize>::empty(),
    {
        Interpreter {
            stack_pointer: 0,
            stack: new_tape(),
            jumps: JumpMap::new(),
            instructions: Vec::new(),
            instruction_pointer: 0,
        }
    }

    /// Brings the machine back to where `new` leaves it: the tape blank,
    /// the data pointer on the first cell, the jump map and the program
    /// dropped.
    pub fn clear(&mut self)
        ensures
            final(self).wf(),
            final(self).code() == Seq::<ExtendedInstruction>::empty(),
            final(self).state() == (State { ip: 0, pointer: 0, tape: blank_tape() }),
            final(self).jumps().forward() == Map::<usize, usize>::empty(),
            final(self).jumps().backward() == Map::<usize, usize>::empty(),
    {
        self.stack_pointer = 0;
        self.stack = new_tape();
        self.jumps.clear();
        self.instructions = Vec::new();
        self.instruction_pointer = 0;
    }

    /// The data pointer.
    pub fn pointer(&self) -> (p: usize)
        ensures
            p == self.state().pointer,
    {
        self.stack_pointer
    }

    /// The tape.
    pub fn memory(&self) -> (tape: &Vec<u8>)
        ensures
            tape@ == self.state().tape,
    {
        &self.stack
    }

    /// The loaded program.
    pub fn program(&self) -> (code: &Vec<ExtendedInstruction>)
        ensures
            code@ == self.code(),
    {
        &self.instructions
    }

    /// Pairs the brackets of a sequence of instructions and, if every
    /// bracket has its partner, loads it as it is, with the instruction
    /// pointer at its start. The tape and the data pointer stay as they
    /// are. A sequence with a bracket that has no partner is refused, and
    /// nothing changes.
    pub fn load_instructions(&mut self, instructions: Vec<ExtendedInstruction>) -> (r: Result<
        (),
        BracketMismatch,
    >)
        requires
            old(self).wf(),
        ensures
            final(self).wf(),
            match r {
                Ok(()) => {
                    &&& balanced(instructions@)
                    &&& final(self).code() == instructions@
                    &&& final(self).state() == (State { ip: 0, ..old(self).state() })
                },
                Err(BracketMismatch::UnmatchedClose) => {
                    &&& has_unmatched_close(instructions@)
                    &&& *final(self) == *old(self)
                },
                Err(BracketMismatch::UnmatchedOpen) => {
                    &&& has_unmatched_open(instructions@)
                    &&& *final(self) == *old(self)
                },
            },
            has_unmatched_close(instructions@) ==> r == Err::<(), BracketMismatch>(
                BracketMismatch::UnmatchedClose,
            ),
            has_unmatched_open(instructions@) ==> r == Err::<(), BracketMismatch>(
                BracketMismatch::UnmatchedOpen,
            ),
            balanced(instructions@) ==> r.is_ok(),
    {
        proof {
            lemma_bracket_verdicts(instructions@);
        }
        match resolve_jumps(instructions.as_slice()) {
            Err(e) => Err(e),
            Ok(jumps) => {
                self.jumps = jumps;
                self.instructions = instructions;
                self.instruction_pointer = 0;
                Ok(())
            },
        }
    }

    /// Optimizes a program, pairs its brackets and, if every bracket has
    /// its partner, loads the optimized program with the instruction
    /// pointer at its start. The tape and the data pointer stay as they
    /// are. A program with a bracket that has no partner is refused, and
    /// nothing changes.
    pub fn load(&mut self, program: &[Instruction]) -> (r: Result<(), BracketMismatch>)
        requires
            old(self).wf(),
        ensures
            final(self).wf(),
            match r {
                Ok(()) => {
                    &&& balanced(extended(program@))
                    &&& final(self).code() == optimized(program@)
                    &&& final(self).state() == (State { ip: 0, ..old(self).state() })
                },
                Err(BracketMismatch::UnmatchedClose) => {
                    &&& has_unmatched_close(extended(program@))
                    &&& *final(self) == *old(self)
                },
                Err(BracketMismatch::UnmatchedOpen) => {
                    &&& has_unmatched_open(extended(program@))
                    &&& *final(self) == *old(self)
                },
            },
            has_unmatched_close(extended(program@)) ==> r == Err::<(), BracketMismatch>(
                BracketMismatch::UnmatchedClose,
            ),
            has_unmatched_open(extended(program@)) ==> r == Err::<(), BracketMismatch>(
                BracketMismatch::UnmatchedOpen,
            ),
            balanced(extended(program@)) ==> r.is_ok(),
    {
        let wrapped = instructions_to_extended(program);
        let coalesced = optimize_instruction_repetitions(wrapped.as_slice());
        let fused = optimize_pattern_based(coalesced.as_slice());
        proof {
            lemma_optimized_brackets(program@);
        }
        self.load_instructions(fused)
    }

    /// Carries out the next instruction, if there is one and it keeps the
    /// data pointer on the tape.
    pub fn step(&mut self) -> (r: Step)
        requires
            old(self).wf(),
        ensures
            final(self).wf(),
            final(self).code() == old(self).code(),
            final(self).jumps() == old(self).jumps(),
            match r {
                Step::Finished => {
                    &&& status(old(self).code(), old(self).state()) == Status::Finished
                    &&& final(self).state() == old(self).state()
                },
                Step::PointerOutOfBounds => {
                    &&& status(old(self).code(), old(self).state()) == Status::PointerOutOfBounds
                    &&& final(self).state() == old(self).state()
                },
                Step::Advanced => {
                    &&& status(old(self).code(), old(self).state()) == Status::Running
                    &&& written(old(self).code(), old(self).state()).is_none()
                    &&& final(self).state() == step(old(self).code(), old(self).state())
                },
                Step::Output(byte) => {
                    &&& status(old(self).code(), old(self).state()) == Status::Running
                    &&& written(old(self).code(), old(self).state()) == Some(byte)
                    &&& final(self).state() == step(old(self).code(), old(self).state())
                },
            },
    {
        let ip = self.instruction_pointer;
        if ip >= self.instructions.len() {
            return Step::Finished;
        }
        let ghost code = self.instructions@;
        let instruction = self.instructions[ip];
        let pointer = self.stack_pointer;
        let cell = self.stack[pointer];
        let mut result = Step::Advanced;
        let mut next = ip + 1;
        match instruction {
            ExtendedInstruction::Regular(Instruction::MoveRight) => {
                if pointer + 1 >= TAPE_LENGTH {
                    return Step::PointerOutOfBounds;
                }
                self.stack_pointer = pointer + 1;
            },
            ExtendedInstruction::Regular(Instruction::MoveLeft) => {
                if pointer < 1 {
                    return Step::PointerOutOfBounds;
                }
                self.stack_pointer = pointer - 1;
            },
            ExtendedInstruction::Regular(Instruction::Increment) => {
                self.stack.set(pointer, cell.wrapping_add(1));
            },
            ExtendedInstruction::Regular(Instruction::Decrement) => {
                self.stack.set(pointer, cell.wrapping_sub(1));
            },
            ExtendedInstruction::Regular(Instruction::Output) => {
                result = Step::Output(cell);
            },
            ExtendedInstruction::Regular(Instruction::JumpForward) => {
                if cell == 0 {
                    proof {
                        lemma_open_has_match(code, ip as int);
                        let c = matching_close(code, ip as int);
                        assert(is_match(code, ip as int, c));
                        assert(index_positions(code.len())[ip as int] == ip);
                        assert(index_positions(code.len())[c] == c);
                    }
                    match self.jumps.close_of(ip) {
                        Some(close) => {
                            next = close + 1;
                        },
                        None => {},
                    }
                }
            },
            ExtendedInstruction::Regular(Instruction::JumpBackwards) => {
                if cell != 0 {
                    proof {
                        lemma_close_has_match(code, ip as int);
                        let o = matching_open(code, ip as int);
                        assert(is_match(code, o, ip as int));
                        assert(index_positions(code.len())[ip as int] == ip);
                        assert(index_positions(code.len())[o] == o);
                    }
                    match self.jumps.open_of(ip) {
                        Some(open) => {
                            next = open + 1;
                        },
                        None => {},
                    }
                }
            },
            ExtendedInstruction::Add(n) => {
                self.stack.set(pointer, cell.wrapping_add(n));
            },
            ExtendedInstruction::Sub(n) => {
                self.stack.set(pointer, cell.wrapping_sub(n));
            },
            ExtendedInstruction::JumpRight(n) => {
                if n as usize >= TAPE_LENGTH - pointer {
                    return Step::PointerOutOfBounds;
                }
                self.stack_pointer = pointer + n as usize;
            },
            ExtendedInstruction::JumpLeft(n) => {
                if n as usize > pointer {
                    return Step::PointerOutOfBounds;
                }
                self.stack_pointer = pointer - n as usize;
            },
            ExtendedInstruction::SetZero => {
                self.stack.set(pointer, 0);
            },
        }
        self.instruction_pointer = next;
        proof {
            let st = old(self).state();
            assert(self.stack@ =~= st.tape.update(st.pointer, cell_after(instruction, cell)));
        }
        result
    }

    /// Runs the loaded program on from where it stands, for `max_steps`
    /// steps at most, and collects what it writes.
    pub fn resume(&mut self, max_steps: usize) -> (r: Execution)
        requires
            old(self).wf(),
        ensures
            final(self).wf(),
            final(self).code() == old(self).code(),
            final(self).jumps() == old(self).jumps(),
            final(self).state() == run(old(self).code(), old(self).state(), max_steps as nat),
            r.output@ == output(old(self).code(), old(self).state(), max_steps as nat),
            r.status == status(final(self).code(), final(self).state()),
    {
        let ghost code = self.code();
        let ghost start = self.state();
        let mut out: Vec<u8> = Vec::new();
        let mut remaining = max_steps;
        let mut status = Status::Running;
        while remaining > 0
            invariant_except_break
                status == Status::Running,
            invariant
                self.wf(),
                self.code() == code,
                self.jumps() == old(self).jumps(),
                run(code, self.state(), remaining as nat) == run(code, start, max_steps as nat),
                out@ + output(code, self.state(), remaining as nat) == output(
                    code,
                    start,
                    max_steps as nat,
                ),
            ensures
                self.wf(),
                self.code() == code,
                self.jumps() == old(self).jumps(),
                self.state() == run(code, start, max_steps as nat),
                out@ == output(code, start, max_steps as nat),
                status == crate::machine::status(code, self.state()) || (remaining == 0 && status
                    == Status::Running),
            decreases remaining,
        {
            let ghost before = self.state();
            let ghost written_so_far = out@;
            match self.step() {
                Step::Finished => {
                    status = Status::Finished;
                    assert(out@ + Seq::<u8>::empty() =~= out@);
                    break ;
                },
                Step::PointerOutOfBounds => {
                    status = Status::PointerOutOfBounds;
                    assert(out@ + Seq::<u8>::empty() =~= out@);
                    break ;
                },
                Step::Advanced => {},
                Step::Output(byte) => {
                    out.push(byte);
                    assert(out@ + output(code, self.state(), (remaining - 1) as nat)
                        =~= written_so_far + (seq![byte] + output(
                        code,
                        self.state(),
                        (remaining - 1) as nat,
                    )));
                },
            }
            remaining -= 1;
            proof {
                if remaining == 0 {
                    assert(out@ + Seq::<u8>::empty() =~= out@);
                }
            }
        }
        if remaining == 0 {
            assert(out@ + Seq::<u8>::empty() =~= out@);
            status = self.status();
        }
        Execution { output: out, status }
    }

    /// Where the machine stands.
    pub fn status(&self) -> (s: Status)
        requires
            self.wf(),
        ensures
            s == status(self.code(), self.state()),
    {
        let ip = self.instruction_pointer;
        if ip >= self.instructions.len() {
            return Status::Finished;
        }
        let pointer = self.stack_pointer;
        let on_tape = match self.instructions[ip] {
            ExtendedInstruction::Regular(Instruction::MoveRight) => pointer + 1 < TAPE_LENGTH,
            ExtendedInstruction::Regular(Instruction::MoveLeft) => pointer >= 1,
            ExtendedInstruction::JumpRight(n) => (n as usize) < TAPE_LENGTH - pointer,
            ExtendedInstruction::JumpLeft(n) => n as usize <= pointer,
            _ => true,
        };
        if on_tape {
            Status::Running
        } else {
            Status::PointerOutOfBounds
        }
    }

    /// Loads a program and runs it from its start for `max_steps` steps at
    /// most. The brackets are checked first: with a bracket that has no
    /// partner nothing is run and nothing changes.
    ///
    /// What runs is the optimized program. Where the program as written
    /// would have run to its end within the budget, the bytes written, the
    /// tape and the data pointer are those that it would have left.
    pub fn execute(&mut self, program: &[Instruction], max_steps: usize) -> (r: Result<
        Execution,
        BracketMismatch,
    >)
        requires
            old(self).wf(),
        ensures
            final(self).wf(),
            match r {
                Ok(execution) => {
                    let start = State { ip: 0, ..old(self).state() };
                    &&& balanced(extended(program@))
                    &&& final(self).code() == optimized(program@)
                    &&& final(self).state() == run(optimized(program@), start, max_steps as nat)
                    &&& execution.output@ == output(optimized(program@), start, max_steps as nat)
                    &&& execution.status == status(optimized(program@), final(self).state())
                    &&& forall|n: nat|
                        n <= max_steps && status(
                            extended(program@),
                            #[trigger] run(extended(program@), start, n),
                        ) == Status::Finished ==> {
                            &&& execution.status == Status::Finished
                            &&& execution.output@ == output(extended(program@), start, n)
                            &&& final(self).state().pointer == run(
                                extended(program@),
                                start,
                                n,
                            ).pointer
                            &&& final(self).state().tape == run(extended(program@), start, n).tape
                        }
                },
                Err(BracketMismatch::UnmatchedClose) => {
                    &&& has_unmatched_close(extended(program@))
                    &&& *final(self) == *old(self)
                },
                Err(BracketMismatch::UnmatchedOpen) => {
                    &&& has_unmatched_open(extended(program@))
                    &&& *final(self) == *old(self)
                },
            },
            has_unmatched_close(extended(program@)) ==> r matches Err(
                BracketMismatch::UnmatchedClose,
            ),
            has_unmatched_open(extended(program@)) ==> r matches Err(
                BracketMismatch::UnmatchedOpen,
            ),
            balanced(extended(program@)) ==> r.is_ok(),
    {
        let ghost start = State { ip: 0, ..self.state() };
        match self.load(program) {
            Err(e) => Err(e),
            Ok(()) => {
                let execution = self.resume(max_steps);
                proof {
                    let plain = extended(program@);
                    assert forall|n: nat|
                        n <= max_steps && status(plain, #[trigger] run(plain, start, n))
                            == Status::Finished implies {
                        &&& execution.status == Status::Finished
                        &&& execution.output@ == output(plain, start, n)
                        &&& self.state().pointer == run(plain, start, n).pointer
                        &&& self.state().tape == run(plain, start, n).tape
                    } by {
                        lemma_optimized_finishes_alike(
                            program@,
                            start.pointer,
                            start.tape,
                            n,
                            max_steps as nat,
                        );
                    }
                }
                Ok(execution)
            },
        }
    }
}

impl Default for Interpreter {
    fn default() -> (interpreter: Interpreter)
        ensures
            interpreter.wf(),
            interpreter.code() == Seq::<ExtendedInstruction>::empty(),
            interpreter.state() == (State { ip: 0, pointer: 0, tape: blank_tape() }),
            interpreter.jumps().forward() == Map::<usize, usize>::empty(),
            interpreter.jumps().backward() == Map::<usize, usize>::empty(),
    {
        Interpreter::new()
    }
}

} // verus!
