use bf_jit::instructions::Instruction;
use bf_jit::lexer::{tokenize, tokenize_all};

#[test]
fn tokenize_keeps_the_seven_symbols_in_order() {
    let tokens = tokenize(b"><+-.[]");
    assert_eq!(
        tokens,
        vec![
            Instruction::MoveRight,
            Instruction::MoveLeft,
            Instruction::Increment,
            Instruction::Decrement,
            Instruction::Output,
            Instruction::JumpForward,
            Instruction::JumpBackwards,
        ]
    );
}

#[test]
fn tokenize_all_drops_every_other_byte() {
    let tokens = tokenize_all(b"a+ b,\n-\xff]");
    assert_eq!(
        tokens,
        vec![
            Instruction::Increment,
            Instruction::Decrement,
            Instruction::JumpBackwards,
        ]
    );
}

#[test]
fn tokenize_of_nothing_is_nothing() {
    assert_eq!(tokenize_all(b""), vec![]);
    assert_eq!(tokenize_all(b"hello, world"), vec![]);
}
