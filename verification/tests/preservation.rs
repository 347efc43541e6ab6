use bf_jit::instructions::{ExtendedInstruction, Instruction};
use bf_jit::interpreter::{Interpreter, Step};
use bf_jit::jumps::BracketMismatch;
use bf_jit::lexer::tokenize_all;
use bf_jit::machine::Status;
use bf_jit::optimizer::instructions_to_extended;

const PROGRAMS: [&str; 12] = [
    "",
    "++++++++.",
    "++++++++[>++++++++<-]>.",
    "+++---.",
    "+++++[-].",
    ">+-<+.>.",
    "+>+>+<<[->[->+<]<]>>.",
    "++[>+++[>++<-]<-]>>.",
    "-[-.]",
    "+[[-]].",
    ">>>+++<<<[-]>>>[-<+>]<.",
    "++>+++>++++<<[.>]<<<",
];

/// Runs the instructions as they are, step by step, and counts the steps.
fn run_plain(source: &str) -> (Interpreter, Vec<u8>, Status, usize) {
    let mut interpreter = Interpreter::new();
    let plain = instructions_to_extended(&tokenize_all(source.as_bytes()));
    interpreter.load_instructions(plain).unwrap();
    count_steps(interpreter)
}

/// Runs the optimized program, step by step, and counts the steps.
fn run_optimized(source: &str) -> (Interpreter, Vec<u8>, Status, usize) {
    let mut interpreter = Interpreter::new();
    interpreter.load(&tokenize_all(source.as_bytes())).unwrap();
    count_steps(interpreter)
}

fn count_steps(mut interpreter: Interpreter) -> (Interpreter, Vec<u8>, Status, usize) {
    let mut output = Vec::new();
    let mut steps = 0;
    loop {
        match interpreter.step() {
            Step::Advanced => steps += 1,
            Step::Output(byte) => {
                output.push(byte);
                steps += 1;
            }
            Step::Finished => return (interpreter, output, Status::Finished, steps),
            Step::PointerOutOfBounds => {
                return (interpreter, output, Status::PointerOutOfBounds, steps)
            }
        }
    }
}

#[test]
fn the_optimized_program_writes_what_the_program_writes() {
    for source in PROGRAMS {
        let (plain, plain_output, plain_status, plain_steps) = run_plain(source);
        let (fast, fast_output, fast_status, fast_steps) = run_optimized(source);
        assert_eq!(fast_output, plain_output);
        assert!(fast_steps <= plain_steps);
        if plain_status == Status::Finished {
            assert_eq!(fast_status, Status::Finished);
            assert_eq!(fast.memory(), plain.memory());
            assert_eq!(fast.pointer(), plain.pointer());
        }
    }
}

#[test]
fn loading_instructions_does_not_optimize_them() {
    let mut interpreter = Interpreter::new();
    let plain = instructions_to_extended(&tokenize_all(b"+++[-]"));
    interpreter.load_instructions(plain.clone()).unwrap();
    assert_eq!(interpreter.program(), &plain);
}

#[test]
fn loading_instructions_checks_the_brackets() {
    let mut interpreter = Interpreter::new();
    assert_eq!(
        interpreter.load_instructions(instructions_to_extended(&tokenize_all(b"+]"))),
        Err(BracketMismatch::UnmatchedClose)
    );
    assert_eq!(
        interpreter.load_instructions(instructions_to_extended(&tokenize_all(b"[+"))),
        Err(BracketMismatch::UnmatchedOpen)
    );
    assert!(interpreter.program().is_empty());
}

#[test]
fn the_count_down_loop_takes_one_step_and_two_for_each_unit() {
    let mut interpreter = Interpreter::new();
    interpreter
        .load_instructions(vec![ExtendedInstruction::Add(5)])
        .unwrap();
    interpreter.resume(10);
    assert_eq!(interpreter.memory()[0], 5);
    interpreter
        .load_instructions(instructions_to_extended(&tokenize_all(b"[-]")))
        .unwrap();
    let part = interpreter.resume(10);
    assert_eq!(part.status, Status::Running);
    let rest = interpreter.resume(1);
    assert_eq!(rest.status, Status::Finished);
    assert_eq!(interpreter.memory()[0], 0);
    assert_eq!(part.output, vec![]);
    assert_eq!(rest.output, vec![]);
}

#[test]
fn set_zero_reaches_the_same_state_as_the_count_down_loop() {
    for value in [0u8, 1, 5, 200, 255] {
        let mut looped = Interpreter::new();
        looped
            .load_instructions(vec![ExtendedInstruction::Add(value)])
            .unwrap();
        looped.resume(1);
        looped
            .load_instructions(instructions_to_extended(&tokenize_all(b"[-]")))
            .unwrap();
        let execution = looped.resume(1 + 2 * value as usize);
        assert_eq!(execution.status, Status::Finished);

        let mut direct = Interpreter::new();
        direct
            .load_instructions(vec![ExtendedInstruction::Add(value)])
            .unwrap();
        direct.resume(1);
        direct
            .load_instructions(vec![ExtendedInstruction::SetZero])
            .unwrap();
        let execution = direct.resume(1);
        assert_eq!(execution.status, Status::Finished);

        assert_eq!(looped.memory()[0], 0);
        assert_eq!(direct.memory(), looped.memory());
        assert_eq!(direct.pointer(), looped.pointer());
    }
}

#[test]
fn a_program_that_leaves_the_tape_stops_where_its_optimized_form_goes_on() {
    let (_, plain_output, plain_status, _) = run_plain("<>.");
    assert_eq!(plain_output, vec![]);
    assert_eq!(plain_status, Status::PointerOutOfBounds);
    let (_, fast_output, fast_status, _) = run_optimized("<>.");
    assert_eq!(fast_output, vec![0]);
    assert_eq!(fast_status, Status::Finished);
}

#[test]
fn fused_instructions_run_as_the_steps_they_stand_for() {
    let mut fused = Interpreter::new();
    fused
        .load_instructions(vec![
            ExtendedInstruction::Add(3),
            ExtendedInstruction::JumpRight(2),
            ExtendedInstruction::Sub(4),
            ExtendedInstruction::JumpLeft(1),
            ExtendedInstruction::Regular(Instruction::Increment),
        ])
        .unwrap();
    fused.resume(100);
    let (plain, _, _, _) = run_plain("+++>>----<+");
    assert_eq!(fused.memory(), plain.memory());
    assert_eq!(fused.pointer(), plain.pointer());
    assert_eq!(fused.memory()[0], 3);
    assert_eq!(fused.memory()[1], 1);
    assert_eq!(fused.memory()[2], 252);
    assert_eq!(fused.pointer(), 1);
}
