use bf_jit::instructions::Instruction;

#[test]
fn every_symbol_reads_as_its_instruction() {
    assert_eq!(Instruction::from_char('>'), Some(Instruction::MoveRight));
    assert_eq!(Instruction::from_char('<'), Some(Instruction::MoveLeft));
    assert_eq!(Instruction::from_char('+'), Some(Instruction::Increment));
    assert_eq!(Instruction::from_char('-'), Some(Instruction::Decrement));
    assert_eq!(Instruction::from_char('.'), Some(Instruction::Output));
    assert_eq!(Instruction::from_char('['), Some(Instruction::JumpForward));
    assert_eq!(Instruction::from_char(']'), Some(Instruction::JumpBackwards));
}

#[test]
fn the_input_symbol_is_no_instruction() {
    assert_eq!(Instruction::from_char(','), None);
    assert_eq!(Instruction::from_char(' '), None);
    assert_eq!(Instruction::from_char('x'), None);
}

#[test]
fn try_from_refuses_unknown_characters() {
    assert_eq!(Instruction::try_from('+'), Ok(Instruction::Increment));
    assert_eq!(
        Instruction::try_from(','),
        Err("Unknown instruction character")
    );
}

#[test]
fn instructions_write_back_as_their_symbols() {
    let all = [
        (Instruction::MoveRight, '>'),
        (Instruction::MoveLeft, '<'),
        (Instruction::Increment, '+'),
        (Instruction::Decrement, '-'),
        (Instruction::Output, '.'),
        (Instruction::JumpForward, '['),
        (Instruction::JumpBackwards, ']'),
    ];
    for (instruction, symbol) in all {
        assert_eq!(instruction.to_char(), symbol);
        assert_eq!(char::from(instruction), symbol);
        assert_eq!(Instruction::from_char(symbol), Some(instruction));
    }
}
