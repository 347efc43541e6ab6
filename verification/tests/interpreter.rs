use bf_jit::instructions::{ExtendedInstruction, Instruction};
use bf_jit::interpreter::{Interpreter, Step};
use bf_jit::jumps::BracketMismatch;
use bf_jit::lexer::tokenize_all;
use bf_jit::machine::{new_tape, Status, TAPE_LENGTH};

fn run(source: &str) -> (Interpreter, Vec<u8>, Status) {
    let mut interpreter = Interpreter::new();
    let execution = interpreter
        .execute(&tokenize_all(source.as_bytes()), 1_000_000)
        .unwrap();
    (interpreter, execution.output, execution.status)
}

#[test]
fn a_new_interpreter_is_blank() {
    let interpreter = Interpreter::new();
    assert_eq!(interpreter.pointer(), 0);
    assert_eq!(interpreter.memory().len(), 30_000);
    assert!(interpreter.memory().iter().all(|cell| *cell == 0));
    assert!(interpreter.program().is_empty());
    assert_eq!(interpreter.status(), Status::Finished);
    let other = Interpreter::default();
    assert_eq!(other.memory(), interpreter.memory());
}

#[test]
fn the_tape_has_thirty_thousand_cells() {
    assert_eq!(TAPE_LENGTH, 30_000);
    assert_eq!(new_tape(), vec![0u8; 30_000]);
}

#[test]
fn eight_increments_write_eight() {
    let (_, output, status) = run("++++++++.");
    assert_eq!(output, vec![8]);
    assert_eq!(status, Status::Finished);
}

#[test]
fn eight_times_eight_is_sixty_four() {
    let (interpreter, output, status) = run("++++++++[>++++++++<-]>.");
    assert_eq!(output, vec![64]);
    assert_eq!(status, Status::Finished);
    assert_eq!(interpreter.pointer(), 1);
    assert_eq!(interpreter.memory()[0], 0);
    assert_eq!(interpreter.memory()[1], 64);
}

#[test]
fn increments_and_decrements_cancel_to_an_empty_program() {
    let (interpreter, output, status) = run("+++---");
    assert!(interpreter.program().is_empty());
    assert_eq!(interpreter.memory()[0], 0);
    assert_eq!(output, vec![]);
    assert_eq!(status, Status::Finished);
}

#[test]
fn the_count_down_loop_zeroes_a_cell_of_five_in_one_instruction() {
    let (interpreter, output, _) = run("+++++[-].");
    assert_eq!(
        interpreter.program(),
        &vec![
            ExtendedInstruction::Add(5),
            ExtendedInstruction::SetZero,
            ExtendedInstruction::Regular(Instruction::Output),
        ]
    );
    assert_eq!(interpreter.memory()[0], 0);
    assert_eq!(output, vec![0]);
}

#[test]
fn set_zero_is_one_step() {
    let mut interpreter = Interpreter::new();
    interpreter.load(&tokenize_all(b"+++++[-]")).unwrap();
    assert_eq!(interpreter.step(), Step::Advanced);
    assert_eq!(interpreter.memory()[0], 5);
    assert_eq!(interpreter.step(), Step::Advanced);
    assert_eq!(interpreter.memory()[0], 0);
    assert_eq!(interpreter.step(), Step::Finished);
}

#[test]
fn an_unfused_loop_also_counts_down_to_zero() {
    let (interpreter, output, status) = run("+++++[-->+<+].>.");
    assert_eq!(interpreter.memory()[0], 0);
    assert_eq!(output, vec![0, 5]);
    assert_eq!(status, Status::Finished);
}

#[test]
fn cells_wrap_modulo_256() {
    assert_eq!(run("-.").1, vec![255]);
    assert_eq!(run("--.").1, vec![254]);
    assert_eq!(run(&("+".repeat(255) + "+.")).1, vec![0]);
    assert_eq!(run(&("+".repeat(300) + ".")).1, vec![44]);
    assert_eq!(run("+++>-----<.>.").1, vec![3, 251]);
    assert_eq!(run(&("+".repeat(200) + "." + &"+".repeat(100) + ".")).1, vec![200, 44]);
}

#[test]
fn output_comes_in_program_order() {
    assert_eq!(run("+.+.+.").1, vec![1, 2, 3]);
    assert_eq!(run("+++[.-]").1, vec![3, 2, 1]);
}

#[test]
fn a_loop_on_a_zero_cell_is_skipped() {
    let (_, output, status) = run("[+.]++.");
    assert_eq!(output, vec![2]);
    assert_eq!(status, Status::Finished);
}

#[test]
fn nested_loops_multiply() {
    let (_, output, _) = run("++[>+++[>++<-]<-]>>.");
    assert_eq!(output, vec![12]);
}

#[test]
fn an_unmatched_opening_bracket_runs_nothing() {
    let mut interpreter = Interpreter::new();
    let r = interpreter.execute(&tokenize_all(b"+.[+."), 1000);
    assert_eq!(r.err(), Some(BracketMismatch::UnmatchedOpen));
    assert_eq!(interpreter.memory()[0], 0);
    assert!(interpreter.program().is_empty());
}

#[test]
fn an_unmatched_closing_bracket_runs_nothing() {
    let mut interpreter = Interpreter::new();
    let r = interpreter.execute(&tokenize_all(b"+.]+."), 1000);
    assert_eq!(r.err(), Some(BracketMismatch::UnmatchedClose));
    assert_eq!(interpreter.memory()[0], 0);
    assert!(interpreter.program().is_empty());
}

#[test]
fn a_refused_program_leaves_the_machine_as_it_was() {
    let mut interpreter = Interpreter::new();
    interpreter.execute(&tokenize_all(b"+++>++"), 1000).unwrap();
    let program = interpreter.program().clone();
    let r = interpreter.load(&tokenize_all(b"[[-]"));
    assert_eq!(r, Err(BracketMismatch::UnmatchedOpen));
    assert_eq!(interpreter.program(), &program);
    assert_eq!(interpreter.pointer(), 1);
    assert_eq!(interpreter.memory()[0], 3);
    assert_eq!(interpreter.memory()[1], 2);
    assert_eq!(interpreter.status(), Status::Finished);
}

#[test]
fn a_second_program_runs_on_the_tape_that_the_first_left() {
    let mut interpreter = Interpreter::new();
    interpreter.execute(&tokenize_all(b"+++>++"), 1000).unwrap();
    let execution = interpreter.execute(&tokenize_all(b".<."), 1000).unwrap();
    assert_eq!(execution.output, vec![2, 3]);
}

#[test]
fn clear_blanks_the_tape_and_drops_the_program() {
    let mut interpreter = Interpreter::new();
    interpreter.execute(&tokenize_all(b"+++>++[.-]"), 1000).unwrap();
    interpreter.clear();
    assert_eq!(interpreter.pointer(), 0);
    assert!(interpreter.memory().iter().all(|cell| *cell == 0));
    assert_eq!(interpreter.memory().len(), 30_000);
    assert!(interpreter.program().is_empty());
    assert_eq!(interpreter.step(), Step::Finished);
    let execution = interpreter.execute(&tokenize_all(b"."), 1000).unwrap();
    assert_eq!(execution.output, vec![0]);
}

#[test]
fn moving_left_of_the_tape_stops_the_machine() {
    let (interpreter, output, status) = run("+.<.");
    assert_eq!(output, vec![1]);
    assert_eq!(status, Status::PointerOutOfBounds);
    assert_eq!(interpreter.pointer(), 0);
}

#[test]
fn moving_right_of_the_tape_stops_the_machine() {
    let (interpreter, output, status) = run(&(">".repeat(29_999) + "+.>."));
    assert_eq!(output, vec![1]);
    assert_eq!(status, Status::PointerOutOfBounds);
    assert_eq!(interpreter.pointer(), 29_999);
    assert_eq!(interpreter.memory()[29_999], 1);
}

#[test]
fn a_long_shift_off_the_tape_stops_the_machine_before_it() {
    let (interpreter, _, status) = run(&(">>".to_string() + "+" + &">".repeat(30_000)));
    assert_eq!(status, Status::PointerOutOfBounds);
    assert_eq!(interpreter.pointer(), 2);
    let (interpreter, _, status) = run(">>><<<<<");
    assert_eq!(status, Status::PointerOutOfBounds);
    assert_eq!(interpreter.pointer(), 0);
}

#[test]
fn a_stopped_machine_stays_stopped() {
    let mut interpreter = Interpreter::new();
    let execution = interpreter.execute(&tokenize_all(b"<+."), 1000).unwrap();
    assert_eq!(execution.status, Status::PointerOutOfBounds);
    assert_eq!(interpreter.step(), Step::PointerOutOfBounds);
    let again = interpreter.resume(1000);
    assert_eq!(again.output, vec![]);
    assert_eq!(again.status, Status::PointerOutOfBounds);
}

#[test]
fn the_step_budget_suspends_a_run() {
    let mut interpreter = Interpreter::new();
    let first = interpreter.execute(&tokenize_all(b"+.+.+."), 3).unwrap();
    assert_eq!(first.output, vec![1]);
    assert_eq!(first.status, Status::Running);
    let second = interpreter.resume(1);
    assert_eq!(second.output, vec![2]);
    assert_eq!(second.status, Status::Running);
    let third = interpreter.resume(100);
    assert_eq!(third.output, vec![3]);
    assert_eq!(third.status, Status::Finished);
    let fourth = interpreter.resume(100);
    assert_eq!(fourth.output, vec![]);
    assert_eq!(fourth.status, Status::Finished);
}

#[test]
fn a_budget_of_nothing_runs_nothing() {
    let mut interpreter = Interpreter::new();
    let execution = interpreter.execute(&tokenize_all(b"+."), 0).unwrap();
    assert_eq!(execution.output, vec![]);
    assert_eq!(execution.status, Status::Running);
    assert_eq!(interpreter.memory()[0], 0);
}

#[test]
fn an_endless_loop_keeps_running() {
    let mut interpreter = Interpreter::new();
    let execution = interpreter.execute(&tokenize_all(b"+[.]"), 101).unwrap();
    assert_eq!(execution.output, vec![1; 50]);
    assert_eq!(execution.status, Status::Running);
    let more = interpreter.resume(100);
    assert_eq!(more.output, vec![1; 50]);
    assert_eq!(more.status, Status::Running);
}

#[test]
fn steps_report_what_they_did() {
    let mut interpreter = Interpreter::new();
    interpreter.load(&tokenize_all(b"+[.-]")).unwrap();
    assert_eq!(interpreter.status(), Status::Running);
    assert_eq!(interpreter.step(), Step::Advanced);
    assert_eq!(interpreter.step(), Step::Advanced);
    assert_eq!(interpreter.step(), Step::Output(1));
    assert_eq!(interpreter.step(), Step::Advanced);
    assert_eq!(interpreter.memory()[0], 0);
    assert_eq!(interpreter.step(), Step::Advanced);
    assert_eq!(interpreter.step(), Step::Finished);
    assert_eq!(interpreter.status(), Status::Finished);
}

#[test]
fn optimized_and_plain_programs_write_the_same() {
    let plain = "+>+>+<<[->[->+<]<]>>.";
    let padded = "+><>+-+>+><>+<<+-[->[-<>>+<]<]>>+-.";
    assert_eq!(run(plain).1, run(padded).1);
    assert_eq!(run("+++++[-]+.").1, run("+++++-----+.").1);
}
