//! The code generator: the x86-64 bytes of each instruction, for 64-bit
//! Linux. The register `r13` holds the address of the current cell for the
//! whole of the generated routine.
//!
//! The mapping is local: it knows no addresses. A bracket gets a
//! placeholder for its 32-bit displacement, which the linker fills in.

use vstd::prelude::*;
use crate::instructions::{ExtendedInstruction, Instruction};

verus! {

/// How far into the encoding of a bracket its displacement field starts.
pub const DISPLACEMENT_FIELD: usize = 8;

/// The length of the encoding of a bracket.
pub const JUMP_LENGTH: usize = 12;

/// The four bytes of a 32-bit number, least significant first: the order
/// in which the processor reads an immediate.
pub open spec fn le_bytes(n: u32) -> Seq<u8> {
    seq![
        (n % 0x100) as u8,
        ((n / 0x100) % 0x100) as u8,
        ((n / 0x1_0000) % 0x100) as u8,
        (n / 0x100_0000) as u8,
    ]
}

/// The bytes of a bracket up to its displacement field: the current cell is
/// loaded into `rax` and its low byte tested, then comes the opcode of the
/// conditional jump (`0x84`: jump if zero, `0x85`: jump if not zero).
pub open spec fn jump_head(condition: u8) -> Seq<u8> {
    seq![0x49, 0x8b, 0x45, 0x00, 0x84, 0xc0, 0x0f, condition]
}

/// The bytes of a basic instruction.
pub open spec fn basic_encoding(i: Instruction) -> Seq<u8> {
    match i {
        // inc r13
        Instruction::MoveRight => seq![0x49, 0xff, 0xc5],
        // dec r13
        Instruction::MoveLeft => seq![0x49, 0xff, 0xcd],
        // inc byte ptr [r13]
        Instruction::Increment => seq![0x41, 0xfe, 0x45, 0x00],
        // dec byte ptr [r13]
        Instruction::Decrement => seq![0x41, 0xfe, 0x4d, 0x00],
        // mov rax, [r13]; test al, al; jnz <placeholder>
        Instruction::JumpBackwards => jump_head(0x85) + seq![0xff, 0xff, 0xff, 0xff],
        // mov rax, [r13]; test al, al; jz <placeholder>
        Instruction::JumpForward => jump_head(0x84) + seq![0xff, 0xff, 0xff, 0xff],
        // mov rax, 1; mov rdi, 1; mov rsi, r13; mov rdx, 1; syscall
        Instruction::Output => seq![
            0x48, 0xc7, 0xc0, 0x01, 0x00, 0x00, 0x00, 0x48, 0xc7, 0xc7, 0x01, 0x00, 0x00, 0x00,
            0x4c, 0x89, 0xee, 0x48, 0xc7, 0xc2, 0x01, 0x00, 0x00, 0x00, 0x0f, 0x05,
        ],
    }
}

/// The bytes of an instruction of the optimized stream. `Add` and `Sub`
/// work on the one byte of the current cell, so that they wrap modulo 256
/// and touch no other cell. A shift by at most 255 has the short form with
/// a one-byte immediate; a longer one has the long form with a four-byte
/// immediate, least significant byte first.
pub open spec fn encoding(i: ExtendedInstruction) -> Seq<u8> {
    match i {
        ExtendedInstruction::Regular(basic) => basic_encoding(basic),
        // add byte ptr [r13], count
        ExtendedInstruction::Add(count) => seq![0x41, 0x80, 0x45, 0x00, count],
        // sub byte ptr [r13], count
        ExtendedInstruction::Sub(count) => seq![0x41, 0x80, 0x6d, 0x00, count],
        // sub r13, offset
        ExtendedInstruction::JumpLeft(offset) => if offset <= 0xff {
            seq![0x49, 0x83, 0xed, offset as u8]
        } else {
            seq![0x49, 0x81, 0xed] + le_bytes(offset)
        },
        // add r13, offset
        ExtendedInstruction::JumpRight(offset) => if offset <= 0xff {
            seq![0x49, 0x83, 0xc5, offset as u8]
        } else {
            seq![0x49, 0x81, 0xc5] + le_bytes(offset)
        },
        // mov byte ptr [r13], 0
        ExtendedInstruction::SetZero => seq![0x41, 0xc6, 0x45, 0x00, 0x00],
    }
}

/// An encoding has at least 3 and at most 26 bytes; that of a bracket has
/// 12, the last four of them the placeholder.
pub proof fn lemma_encoding_len(i: ExtendedInstruction)
    ensures
        3 <= encoding(i).len() <= 26,
        i == ExtendedInstruction::Regular(Instruction::JumpForward) || i
            == ExtendedInstruction::Regular(Instruction::JumpBackwards) ==> encoding(i).len()
            == JUMP_LENGTH,
{
}

/// Appends the four bytes of `n`, least significant first.
fn push_le_bytes(bytes: &mut Vec<u8>, n: u32)
    ensures
        final(bytes)@ == old(bytes)@ + le_bytes(n),
{
    bytes.push((n % 0x100) as u8);
    bytes.push(((n / 0x100) % 0x100) as u8);
    bytes.push(((n / 0x1_0000) % 0x100) as u8);
    bytes.push((n / 0x100_0000) as u8);
    assert(final(bytes)@ =~= old(bytes)@ + le_bytes(n));
}

/// The machine code of a basic instruction.
pub fn encode_instruction(instruction: &Instruction) -> (bytes: Vec<u8>)
    ensures
        bytes@ == basic_encoding(*instruction),
{
    let bytes = match instruction {
        Instruction::MoveRight => vec![0x49, 0xff, 0xc5],
        Instruction::MoveLeft => vec![0x49, 0xff, 0xcd],
        Instruction::Increment => vec![0x41, 0xfe, 0x45, 0x00],
        Instruction::Decrement => vec![0x41, 0xfe, 0x4d, 0x00],
        Instruction::JumpBackwards => vec![
            0x49, 0x8b, 0x45, 0x00, 0x84, 0xc0, 0x0f, 0x85, 0xff, 0xff, 0xff, 0xff,
        ],
        Instruction::JumpForward => vec![
            0x49, 0x8b, 0x45, 0x00, 0x84, 0xc0, 0x0f, 0x84, 0xff, 0xff, 0xff, 0xff,
        ],
        Instruction::Output => vec![
            0x48, 0xc7, 0xc0, 0x01, 0x00, 0x00, 0x00, 0x48, 0xc7, 0xc7, 0x01, 0x00, 0x00, 0x00,
            0x4c, 0x89, 0xee, 0x48, 0xc7, 0xc2, 0x01, 0x00, 0x00, 0x00, 0x0f, 0x05,
        ],
    };
    assert(bytes@ =~= basic_encoding(*instruction));
    bytes
}

/// The machine code of an instruction of the optimized stream.
pub fn encode(instruction: &ExtendedInstruction) -> (bytes: Vec<u8>)
    ensures
        bytes@ == encoding(*instruction),
{
    match instruction {
        ExtendedInstruction::Regular(basic) => encode_instruction(basic),
        ExtendedInstruction::Add(count) => {
            let bytes = vec![0x41, 0x80, 0x45, 0x00, *count];
            assert(bytes@ =~= encoding(*instruction));
            bytes
        },
        ExtendedInstruction::Sub(count) => {
            let bytes = vec![0x41, 0x80, 0x6d, 0x00, *count];
            assert(bytes@ =~= encoding(*instruction));
            bytes
        },
        ExtendedInstruction::JumpLeft(offset) => {
            let mut bytes: Vec<u8> = Vec::new();
            if *offset <= 0xff {
                bytes.push(0x49);
                bytes.push(0x83);
                bytes.push(0xed);
                bytes.push(*offset as u8);
            } else {
                bytes.push(0x49);
                bytes.push(0x81);
                bytes.push(0xed);
                push_le_bytes(&mut bytes, *offset);
            }
            assert(bytes@ =~= encoding(*instruction));
            bytes
        },
        ExtendedInstruction::JumpRight(offset) => {
            let mut bytes: Vec<u8> = Vec::new();
            if *offset <= 0xff {
                bytes.push(0x49);
                bytes.push(0x83);
                bytes.push(0xc5);
                bytes.push(*offset as u8);
            } else {
                bytes.push(0x49);
                bytes.push(0x81);
                bytes.push(0xc5);
                push_le_bytes(&mut bytes, *offset);
            }
            assert(bytes@ =~= encoding(*instruction));
            bytes
        },
        ExtendedInstruction::SetZero => {
            let bytes = vec![0x41, 0xc6, 0x45, 0x00, 0x00];
            assert(bytes@ =~= encoding(*instruction));
            bytes
        },
    }
}

} // verus!
