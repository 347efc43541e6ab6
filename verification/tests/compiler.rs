use bf_jit::assembler::assemble;
use bf_jit::compiler::{load, CompileError, Compiler};
use bf_jit::instructions::ExtendedInstruction;
use bf_jit::jumps::BracketMismatch;
use bf_jit::lexer::tokenize_all;

fn tape_address(compiler: &Compiler) -> u64 {
    let code = compiler.machine_code();
    let mut bytes = [0u8; 8];
    bytes.copy_from_slice(&code[2..10]);
    u64::from_le_bytes(bytes)
}

#[test]
fn a_new_compiler_has_a_blank_tape_and_no_code() {
    let compiler = Compiler::new();
    assert!(compiler.machine_code().is_empty());
    assert_eq!(compiler.memory(), &vec![0u8; 30_000]);
    let other = Compiler::default();
    assert!(other.machine_code().is_empty());
}

#[test]
fn running_before_compiling_is_reported() {
    let compiler = Compiler::new();
    assert_eq!(
        compiler.execute().err(),
        Some(CompileError::EmptyProgramInvocation)
    );
}

#[test]
fn running_after_a_refused_compilation_is_reported_too() {
    let mut compiler = Compiler::new();
    assert!(compiler.compile(&tokenize_all(b"[")).is_err());
    assert_eq!(
        compiler.execute().err(),
        Some(CompileError::EmptyProgramInvocation)
    );
}

#[test]
fn unmatched_brackets_are_refused() {
    let mut compiler = Compiler::new();
    assert_eq!(
        compiler.compile(&tokenize_all(b"+[+")),
        Err(CompileError::Bracket(BracketMismatch::UnmatchedOpen))
    );
    assert_eq!(
        compiler.compile(&tokenize_all(b"+]+")),
        Err(CompileError::Bracket(BracketMismatch::UnmatchedClose))
    );
    assert!(compiler.machine_code().is_empty());
}

#[test]
fn the_compiled_code_is_the_assembled_optimized_program() {
    let mut compiler = Compiler::new();
    assert_eq!(compiler.compile(&tokenize_all(b"+++[-]>>.")), Ok(()));
    let address = tape_address(&compiler);
    let expected = assemble(
        address,
        &[
            ExtendedInstruction::Add(3),
            ExtendedInstruction::SetZero,
            ExtendedInstruction::JumpRight(2),
            ExtendedInstruction::Regular(bf_jit::instructions::Instruction::Output),
        ],
    )
    .unwrap();
    assert_eq!(compiler.machine_code(), &expected);
    assert_eq!(address, compiler.memory().as_ptr() as u64);
}

#[test]
fn the_executable_region_holds_the_code() {
    let mut compiler = Compiler::new();
    compiler.compile(&tokenize_all(b"++[>+<-]>.")).unwrap();
    let region = compiler.execute().unwrap();
    assert_eq!(region.len(), compiler.machine_code().len());
    assert_eq!(&region[..], &compiler.machine_code()[..]);
    assert_eq!(region[0], 0x49);
    assert_eq!(region[region.len() - 1], 0xc3);
}

#[test]
fn compiling_again_replaces_the_routine() {
    let mut compiler = Compiler::new();
    compiler.compile(&tokenize_all(b"+.")).unwrap();
    let first = compiler.machine_code().clone();
    compiler.compile(&tokenize_all(b"-")).unwrap();
    let second = compiler.machine_code().clone();
    assert_eq!(first.len(), 10 + 4 + 26 + 1);
    assert_eq!(second.len(), 10 + 4 + 1);
    assert_eq!(&compiler.execute().unwrap()[..], &second[..]);
}

#[test]
fn a_refused_compilation_keeps_the_routine() {
    let mut compiler = Compiler::new();
    compiler.compile(&tokenize_all(b"+.")).unwrap();
    let code = compiler.machine_code().clone();
    assert!(compiler.compile(&tokenize_all(b"]")).is_err());
    assert_eq!(compiler.machine_code(), &code);
    assert_eq!(&compiler.execute().unwrap()[..], &code[..]);
}

#[test]
fn clear_keeps_the_routine_and_the_place_of_the_tape() {
    let mut compiler = Compiler::new();
    compiler.compile(&tokenize_all(b"+.")).unwrap();
    let code = compiler.machine_code().clone();
    let place = compiler.memory().as_ptr();
    compiler.clear();
    assert_eq!(compiler.machine_code(), &code);
    assert_eq!(compiler.memory().as_ptr(), place);
    assert_eq!(compiler.memory(), &vec![0u8; 30_000]);
    assert!(compiler.execute().is_ok());
}

#[test]
fn loading_copies_the_bytes_into_executable_memory() {
    let bytes: Vec<u8> = (0..=255u8).collect();
    let region = load(&bytes).unwrap();
    assert_eq!(&region[..], &bytes[..]);
}
