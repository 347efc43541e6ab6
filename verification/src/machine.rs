//! The tape machine as a mathematical object: what one instruction does to
//! the state, when a run stops, and what a run of so many steps writes.

use vstd::prelude::*;
use crate::instructions::{ExtendedInstruction, Instruction};
use crate::jumps::{matching_close, matching_open};

verus! {

/// The number of cells on the tape.
pub const TAPE_LENGTH: usize = 30_000;

/// Where a machine stands.
#[derive(Debug, Clone, Copy, PartialEq, Eq, Structural)]
pub enum Status {
    /// The next instruction can be carried out.
    Running,
    /// The instruction pointer has reached the end of the program.
    Finished,
    /// The next instruction would move the data pointer off the tape. The
    /// machine stops in front of it.
    PointerOutOfBounds,
}

/// The state of the machine: instruction pointer, data pointer and tape.
pub ghost struct State {
    pub ip: int,
    pub pointer: int,
    pub tape: Seq<u8>,
}

/// A state that a program can be run from: the instruction pointer within
/// the program or at its end, the data pointer on the tape.
pub open spec fn valid_state(code: Seq<ExtendedInstruction>, st: State) -> bool {
    &&& 0 <= st.ip <= code.len()
    &&& 0 <= st.pointer < TAPE_LENGTH
    &&& st.tape.len() == TAPE_LENGTH
}

/// The data pointer after the instruction.
pub open spec fn pointer_after(i: ExtendedInstruction, pointer: int) -> int {
    match i {
        ExtendedInstruction::Regular(Instruction::MoveRight) => pointer + 1,
        ExtendedInstruction::Regular(Instruction::MoveLeft) => pointer - 1,
        ExtendedInstruction::JumpRight(n) => pointer + n,
        ExtendedInstruction::JumpLeft(n) => pointer - n,
        _ => pointer,
    }
}

/// The value of the current cell after the instruction: cell arithmetic
/// wraps modulo 256.
pub open spec fn cell_after(i: ExtendedInstruction, cell: u8) -> u8 {
    match i {
        ExtendedInstruction::Regular(Instruction::Increment) => ((cell + 1) % 256) as u8,
        ExtendedInstruction::Regular(Instruction::Decrement) => ((cell - 1) % 256) as u8,
        ExtendedInstruction::Add(n) => ((cell + n) % 256) as u8,
        ExtendedInstruction::Sub(n) => ((cell - n) % 256) as u8,
        ExtendedInstruction::SetZero => 0,
        _ => cell,
    }
}

/// The instruction pointer after the instruction at `ip`. An opening
/// bracket on a zero cell goes behind its closing partner, a closing
/// bracket on a non-zero cell goes behind its opening partner, and
/// everything else goes to the next instruction.
pub open spec fn ip_after(code: Seq<ExtendedInstruction>, ip: int, cell: u8) -> int {
    match code[ip] {
        ExtendedInstruction::Regular(Instruction::JumpForward) => if cell == 0 {
            matching_close(code, ip) + 1
        } else {
            ip + 1
        },
        ExtendedInstruction::Regular(Instruction::JumpBackwards) => if cell != 0 {
            matching_open(code, ip) + 1
        } else {
            ip + 1
        },
        _ => ip + 1,
    }
}

/// Whether the machine can take a step, and if not, why.
pub open spec fn status(code: Seq<ExtendedInstruction>, st: State) -> Status {
    if st.ip >= code.len() {
        Status::Finished
    } else if 0 <= pointer_after(code[st.ip], st.pointer) < TAPE_LENGTH {
        Status::Running
    } else {
        Status::PointerOutOfBounds
    }
}

/// The state after one step of a running machine.
pub open spec fn step(code: Seq<ExtendedInstruction>, st: State) -> State {
    let i = code[st.ip];
    let cell = st.tape[st.pointer];
    State {
        ip: ip_after(code, st.ip, cell),
        pointer: pointer_after(i, st.pointer),
        tape: st.tape.update(st.pointer, cell_after(i, cell)),
    }
}

/// The byte that the next step writes to the output, if it writes one.
pub open spec fn written(code: Seq<ExtendedInstruction>, st: State) -> Option<u8> {
    if code[st.ip] == ExtendedInstruction::Regular(Instruction::Output) {
        Some(st.tape[st.pointer])
    } else {
        None
    }
}

/// The state after `n` steps, or where the machine stopped before that.
pub open spec fn run(code: Seq<ExtendedInstruction>, st: State, n: nat) -> State
    decreases n,
{
    if n == 0 || status(code, st) != Status::Running {
        st
    } else {
        run(code, step(code, st), (n - 1) as nat)
    }
}

/// The bytes written during those steps, in order.
pub open spec fn output(code: Seq<ExtendedInstruction>, st: State, n: nat) -> Seq<u8>
    decreases n,
{
    if n == 0 || status(code, st) != Status::Running {
        Seq::empty()
    } else {
        match written(code, st) {
            Some(byte) => seq![byte] + output(code, step(code, st), (n - 1) as nat),
            None => output(code, step(code, st), (n - 1) as nat),
        }
    }
}

/// A tape with every cell at zero.
pub open spec fn blank_tape() -> Seq<u8> {
    Seq::new(TAPE_LENGTH as nat, |i: int| 0u8)
}

/// Makes a tape with every cell at zero.
pub fn new_tape() -> (tape: Vec<u8>)
    ensures
        tape@ == blank_tape(),
{
    let mut tape: Vec<u8> = Vec::new();
    let mut i: usize = 0;
    while i < TAPE_LENGTH
        invariant
            i <= TAPE_LENGTH,
            tape@.len() == i,
            forall|k: int| 0 <= k < i ==> tape@[k] == 0,
        decreases TAPE_LENGTH - i,
    {
        tape.push(0);
        i += 1;
    }
    assert(tape@ =~= blank_tape());
    tape
}

} // verus!
