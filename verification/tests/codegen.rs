use bf_jit::assembler::{assemble, emit};
use bf_jit::instructions::{ExtendedInstruction, Instruction};
use bf_jit::jumps::BracketMismatch;
use bf_jit::lexer::tokenize_all;
use bf_jit::optimizer::instructions_to_extended;
use bf_jit::x86_64::{encode, encode_instruction};

const ADDRESS: u64 = 0x1122_3344_5566_7788;
const PROLOGUE: [u8; 10] = [0x49, 0xbd, 0x88, 0x77, 0x66, 0x55, 0x44, 0x33, 0x22, 0x11];

fn plain(source: &str) -> Vec<ExtendedInstruction> {
    instructions_to_extended(&tokenize_all(source.as_bytes()))
}

fn routine(body: &[&[u8]]) -> Vec<u8> {
    let mut bytes = PROLOGUE.to_vec();
    for piece in body {
        bytes.extend_from_slice(piece);
    }
    bytes.push(0xc3);
    bytes
}

#[test]
fn basic_instructions_have_their_fixed_bytes() {
    assert_eq!(encode_instruction(&Instruction::MoveRight), vec![0x49, 0xff, 0xc5]);
    assert_eq!(encode_instruction(&Instruction::MoveLeft), vec![0x49, 0xff, 0xcd]);
    assert_eq!(
        encode_instruction(&Instruction::Increment),
        vec![0x41, 0xfe, 0x45, 0x00]
    );
    assert_eq!(
        encode_instruction(&Instruction::Decrement),
        vec![0x41, 0xfe, 0x4d, 0x00]
    );
    assert_eq!(
        encode_instruction(&Instruction::JumpForward),
        vec![0x49, 0x8b, 0x45, 0x00, 0x84, 0xc0, 0x0f, 0x84, 0xff, 0xff, 0xff, 0xff]
    );
    assert_eq!(
        encode_instruction(&Instruction::JumpBackwards),
        vec![0x49, 0x8b, 0x45, 0x00, 0x84, 0xc0, 0x0f, 0x85, 0xff, 0xff, 0xff, 0xff]
    );
    assert_eq!(
        encode_instruction(&Instruction::Output),
        vec![
            0x48, 0xc7, 0xc0, 0x01, 0x00, 0x00, 0x00, 0x48, 0xc7, 0xc7, 0x01, 0x00, 0x00, 0x00,
            0x4c, 0x89, 0xee, 0x48, 0xc7, 0xc2, 0x01, 0x00, 0x00, 0x00, 0x0f, 0x05,
        ]
    );
}

#[test]
fn a_regular_instruction_is_encoded_as_its_basic_instruction() {
    for symbol in "><+-.[]".chars() {
        let basic = Instruction::from_char(symbol).unwrap();
        assert_eq!(
            encode(&ExtendedInstruction::Regular(basic)),
            encode_instruction(&basic)
        );
    }
}

#[test]
fn add_and_sub_are_byte_operations_and_carry_their_count() {
    assert_eq!(
        encode(&ExtendedInstruction::Add(8)),
        vec![0x41, 0x80, 0x45, 0x00, 0x08]
    );
    assert_eq!(
        encode(&ExtendedInstruction::Add(255)),
        vec![0x41, 0x80, 0x45, 0x00, 0xff]
    );
    assert_eq!(
        encode(&ExtendedInstruction::Sub(9)),
        vec![0x41, 0x80, 0x6d, 0x00, 0x09]
    );
    assert_eq!(
        encode(&ExtendedInstruction::Sub(0)),
        vec![0x41, 0x80, 0x6d, 0x00, 0x00]
    );
}

#[test]
fn set_zero_stores_a_zero_byte() {
    assert_eq!(
        encode(&ExtendedInstruction::SetZero),
        vec![0x41, 0xc6, 0x45, 0x00, 0x00]
    );
}

#[test]
fn a_short_shift_has_a_one_byte_immediate() {
    assert_eq!(
        encode(&ExtendedInstruction::JumpRight(2)),
        vec![0x49, 0x83, 0xc5, 0x02]
    );
    assert_eq!(
        encode(&ExtendedInstruction::JumpRight(0xff)),
        vec![0x49, 0x83, 0xc5, 0xff]
    );
    assert_eq!(
        encode(&ExtendedInstruction::JumpLeft(2)),
        vec![0x49, 0x83, 0xed, 0x02]
    );
    assert_eq!(
        encode(&ExtendedInstruction::JumpLeft(0xff)),
        vec![0x49, 0x83, 0xed, 0xff]
    );
}

#[test]
fn a_long_shift_has_a_four_byte_little_endian_immediate() {
    assert_eq!(
        encode(&ExtendedInstruction::JumpRight(256)),
        vec![0x49, 0x81, 0xc5, 0x00, 0x01, 0x00, 0x00]
    );
    assert_eq!(
        encode(&ExtendedInstruction::JumpRight(0x1234_5678)),
        vec![0x49, 0x81, 0xc5, 0x78, 0x56, 0x34, 0x12]
    );
    assert_eq!(
        encode(&ExtendedInstruction::JumpLeft(256)),
        vec![0x49, 0x81, 0xed, 0x00, 0x01, 0x00, 0x00]
    );
    assert_eq!(
        encode(&ExtendedInstruction::JumpLeft(29_999)),
        vec![0x49, 0x81, 0xed, 0x2f, 0x75, 0x00, 0x00]
    );
    assert_eq!(
        encode(&ExtendedInstruction::JumpLeft(0xffff_ffff)),
        vec![0x49, 0x81, 0xed, 0xff, 0xff, 0xff, 0xff]
    );
}

#[test]
fn the_empty_program_is_prologue_and_return() {
    assert_eq!(assemble(ADDRESS, &[]), Ok(routine(&[])));
    assert_eq!(assemble(0, &[]).unwrap().len(), 11);
    assert_eq!(
        assemble(0x0102, &[]).unwrap(),
        vec![0x49, 0xbd, 0x02, 0x01, 0, 0, 0, 0, 0, 0, 0xc3]
    );
}

#[test]
fn instructions_are_laid_out_in_order() {
    let code = assemble(ADDRESS, &plain("+>.")).unwrap();
    assert_eq!(
        code,
        routine(&[
            &[0x41, 0xfe, 0x45, 0x00],
            &[0x49, 0xff, 0xc5],
            &encode_instruction(&Instruction::Output),
        ])
    );
}

#[test]
fn emission_leaves_the_placeholders_and_gives_the_field_offsets() {
    let (code, fields) = emit(ADDRESS, &plain("[-]"));
    assert_eq!(
        code,
        routine(&[
            &[0x49, 0x8b, 0x45, 0x00, 0x84, 0xc0, 0x0f, 0x84, 0xff, 0xff, 0xff, 0xff],
            &[0x41, 0xfe, 0x4d, 0x00],
            &[0x49, 0x8b, 0x45, 0x00, 0x84, 0xc0, 0x0f, 0x85, 0xff, 0xff, 0xff, 0xff],
        ])
    );
    assert_eq!(fields, vec![18, 30, 34]);
}

#[test]
fn a_pair_of_brackets_gets_its_displacements() {
    let code = assemble(ADDRESS, &plain("[-]")).unwrap();
    assert_eq!(
        code,
        routine(&[
            &[0x49, 0x8b, 0x45, 0x00, 0x84, 0xc0, 0x0f, 0x84, 0x10, 0x00, 0x00, 0x00],
            &[0x41, 0xfe, 0x4d, 0x00],
            &[0x49, 0x8b, 0x45, 0x00, 0x84, 0xc0, 0x0f, 0x85, 0xf0, 0xff, 0xff, 0xff],
        ])
    );
    assert_eq!(code.len(), 39);
}

#[test]
fn nested_brackets_get_their_own_displacements() {
    let code = assemble(ADDRESS, &plain("[[]]")).unwrap();
    assert_eq!(
        code,
        routine(&[
            &[0x49, 0x8b, 0x45, 0x00, 0x84, 0xc0, 0x0f, 0x84, 0x24, 0x00, 0x00, 0x00],
            &[0x49, 0x8b, 0x45, 0x00, 0x84, 0xc0, 0x0f, 0x84, 0x0c, 0x00, 0x00, 0x00],
            &[0x49, 0x8b, 0x45, 0x00, 0x84, 0xc0, 0x0f, 0x85, 0xf4, 0xff, 0xff, 0xff],
            &[0x49, 0x8b, 0x45, 0x00, 0x84, 0xc0, 0x0f, 0x85, 0xdc, 0xff, 0xff, 0xff],
        ])
    );
}

#[test]
fn a_displacement_of_more_than_a_byte_is_little_endian() {
    let mut body = vec![ExtendedInstruction::Regular(Instruction::JumpForward)];
    for _ in 0..100 {
        body.push(ExtendedInstruction::Add(1));
    }
    body.push(ExtendedInstruction::Regular(Instruction::JumpBackwards));
    let code = assemble(ADDRESS, &body).unwrap();
    // the brackets stand 12 + 100 * 5 = 512 bytes apart
    assert_eq!(code[18..22], [0x00, 0x02, 0x00, 0x00]);
    let close_field = 10 + 12 + 500 + 8;
    assert_eq!(code[close_field..close_field + 4], [0x00, 0xfe, 0xff, 0xff]);
    assert_eq!(code.len(), 10 + 12 + 500 + 12 + 1);
}

#[test]
fn unmatched_brackets_give_no_code() {
    assert_eq!(
        assemble(ADDRESS, &plain("+[")),
        Err(BracketMismatch::UnmatchedOpen)
    );
    assert_eq!(
        assemble(ADDRESS, &plain("+]")),
        Err(BracketMismatch::UnmatchedClose)
    );
    assert_eq!(
        assemble(ADDRESS, &plain("][")),
        Err(BracketMismatch::UnmatchedClose)
    );
}

#[test]
fn a_long_shift_is_read_back_as_its_count() {
    for count in [256u32, 257, 29_999, 65_536, 0x0102_0304, u32::MAX] {
        let bytes = encode(&ExtendedInstruction::JumpRight(count));
        assert_eq!(bytes.len(), 7);
        let immediate = u32::from_le_bytes([bytes[3], bytes[4], bytes[5], bytes[6]]);
        assert_eq!(immediate, count);
    }
}
