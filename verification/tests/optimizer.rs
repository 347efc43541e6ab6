use bf_jit::instructions::{ExtendedInstruction, Instruction};
use bf_jit::lexer::tokenize_all;
use bf_jit::optimizer::{
    instructions_to_extended, optimize_instruction_repetitions, optimize_pattern_based,
    push_optimized_repeat_instruction, replace_pattern,
};

fn wrapped(source: &str) -> Vec<ExtendedInstruction> {
    instructions_to_extended(&tokenize_all(source.as_bytes()))
}

fn coalesce(source: &str) -> Vec<ExtendedInstruction> {
    optimize_instruction_repetitions(&wrapped(source))
}

fn regular(symbol: char) -> ExtendedInstruction {
    ExtendedInstruction::Regular(Instruction::from_char(symbol).unwrap())
}

#[test]
fn wrapping_keeps_every_instruction() {
    assert_eq!(
        wrapped("+[.]"),
        vec![regular('+'), regular('['), regular('.'), regular(']')]
    );
    assert_eq!(wrapped(""), vec![]);
}

#[test]
fn runs_become_counts() {
    assert_eq!(coalesce("+++"), vec![ExtendedInstruction::Add(3)]);
    assert_eq!(coalesce("--"), vec![ExtendedInstruction::Sub(2)]);
    assert_eq!(coalesce(">>>>"), vec![ExtendedInstruction::JumpRight(4)]);
    assert_eq!(coalesce("<<<<<"), vec![ExtendedInstruction::JumpLeft(5)]);
}

#[test]
fn a_run_counts_with_sign() {
    assert_eq!(coalesce("+++-"), vec![ExtendedInstruction::Add(2)]);
    assert_eq!(coalesce("+---"), vec![ExtendedInstruction::Sub(2)]);
    assert_eq!(coalesce("-+-+++"), vec![ExtendedInstruction::Add(2)]);
    assert_eq!(coalesce("><<<"), vec![ExtendedInstruction::JumpLeft(2)]);
    assert_eq!(coalesce("<>>>"), vec![ExtendedInstruction::JumpRight(2)]);
}

#[test]
fn a_count_of_one_keeps_the_single_step_of_its_sign() {
    assert_eq!(coalesce("+"), vec![regular('+')]);
    assert_eq!(coalesce("-"), vec![regular('-')]);
    assert_eq!(coalesce("++-"), vec![regular('+')]);
    assert_eq!(coalesce("+--"), vec![regular('-')]);
    assert_eq!(coalesce(">><"), vec![regular('>')]);
    assert_eq!(coalesce("><<"), vec![regular('<')]);
}

#[test]
fn a_run_that_cancels_leaves_nothing() {
    assert_eq!(coalesce("+-"), vec![]);
    assert_eq!(coalesce("+++---"), vec![]);
    assert_eq!(coalesce("<>"), vec![]);
    assert_eq!(coalesce(".+-."), vec![regular('.'), regular('.')]);
}

#[test]
fn equal_numbers_of_increments_and_decrements_cancel() {
    for n in 0..40usize {
        let source = "+".repeat(n) + &"-".repeat(n);
        assert_eq!(coalesce(&source), vec![]);
    }
}

#[test]
fn runs_of_different_kinds_stay_apart() {
    assert_eq!(
        coalesce("++>>--<<"),
        vec![
            ExtendedInstruction::Add(2),
            ExtendedInstruction::JumpRight(2),
            ExtendedInstruction::Sub(2),
            ExtendedInstruction::JumpLeft(2),
        ]
    );
}

#[test]
fn other_instructions_end_a_run_and_pass_through() {
    assert_eq!(
        coalesce("++.++[--]"),
        vec![
            ExtendedInstruction::Add(2),
            regular('.'),
            ExtendedInstruction::Add(2),
            regular('['),
            ExtendedInstruction::Sub(2),
            regular(']'),
        ]
    );
    assert_eq!(coalesce(".."), vec![regular('.'), regular('.')]);
    assert_eq!(coalesce("[["), vec![regular('['), regular('[')]);
}

#[test]
fn fused_instructions_in_the_input_pass_through() {
    let input = vec![
        ExtendedInstruction::Add(3),
        ExtendedInstruction::Add(4),
        ExtendedInstruction::SetZero,
        ExtendedInstruction::JumpLeft(9),
    ];
    assert_eq!(optimize_instruction_repetitions(&input), input);
}

#[test]
fn the_count_of_a_cell_run_wraps_at_256() {
    assert_eq!(
        coalesce(&"+".repeat(255)),
        vec![ExtendedInstruction::Add(255)]
    );
    assert_eq!(coalesce(&"+".repeat(256)), vec![ExtendedInstruction::Add(0)]);
    assert_eq!(
        coalesce(&"+".repeat(300)),
        vec![ExtendedInstruction::Add(44)]
    );
    assert_eq!(
        coalesce(&"-".repeat(258)),
        vec![ExtendedInstruction::Sub(2)]
    );
}

#[test]
fn the_count_of_a_pointer_run_does_not_wrap_at_256() {
    assert_eq!(
        coalesce(&">".repeat(300)),
        vec![ExtendedInstruction::JumpRight(300)]
    );
    assert_eq!(
        coalesce(&"<".repeat(70000)),
        vec![ExtendedInstruction::JumpLeft(70000)]
    );
}

#[test]
fn coalescing_a_settled_output_again_changes_nothing() {
    for source in ["+++>>.[--]<", "+-", "", "++[>+<-]>.", "+>+>+"] {
        let once = coalesce(source);
        let twice = optimize_instruction_repetitions(&once);
        assert_eq!(twice, once);
    }
}

#[test]
fn coalescing_again_merges_steps_that_a_cancelled_run_kept_apart() {
    let once = coalesce(">+->");
    assert_eq!(once, vec![regular('>'), regular('>')]);
    assert_eq!(
        optimize_instruction_repetitions(&once),
        vec![ExtendedInstruction::JumpRight(2)]
    );
}

#[test]
fn push_follows_the_kind_of_the_run_and_the_sign_of_the_count() {
    let cases: Vec<(Option<ExtendedInstruction>, i32, Vec<ExtendedInstruction>)> = vec![
        (None, 5, vec![]),
        (Some(regular('+')), 7, vec![ExtendedInstruction::Add(7)]),
        (Some(regular('-')), 7, vec![ExtendedInstruction::Add(7)]),
        (Some(regular('+')), -7, vec![ExtendedInstruction::Sub(7)]),
        (Some(regular('-')), 1, vec![regular('+')]),
        (Some(regular('+')), -1, vec![regular('-')]),
        (Some(regular('+')), 0, vec![]),
        (Some(regular('>')), 9, vec![ExtendedInstruction::JumpRight(9)]),
        (Some(regular('>')), -9, vec![ExtendedInstruction::JumpLeft(9)]),
        (Some(regular('<')), 1, vec![regular('>')]),
        (Some(regular('>')), -1, vec![regular('<')]),
        (Some(regular('<')), 0, vec![]),
        (Some(regular('.')), 1, vec![regular('.')]),
        (Some(regular('[')), 3, vec![regular('[')]),
        (
            Some(ExtendedInstruction::SetZero),
            -4,
            vec![ExtendedInstruction::SetZero],
        ),
        (
            Some(regular('+')),
            i32::MAX,
            vec![ExtendedInstruction::Add(255)],
        ),
        (
            Some(regular('+')),
            i32::MIN,
            vec![ExtendedInstruction::Sub(0)],
        ),
        (
            Some(regular('>')),
            i32::MIN,
            vec![ExtendedInstruction::JumpLeft(0x8000_0000)],
        ),
    ];
    for (instruction, count, expected) in cases {
        let mut buffer = vec![ExtendedInstruction::SetZero];
        push_optimized_repeat_instruction(&mut buffer, &instruction, count);
        let mut whole = vec![ExtendedInstruction::SetZero];
        whole.extend(expected);
        assert_eq!(buffer, whole);
    }
}

#[test]
fn the_count_down_loop_becomes_set_zero() {
    assert_eq!(
        optimize_pattern_based(&wrapped("[-]")),
        vec![ExtendedInstruction::SetZero]
    );
}

#[test]
fn the_count_down_loop_is_fused_in_any_context() {
    assert_eq!(
        optimize_pattern_based(&wrapped("+[-].")),
        vec![regular('+'), ExtendedInstruction::SetZero, regular('.')]
    );
    assert_eq!(
        optimize_pattern_based(&wrapped("[[-]")),
        vec![regular('['), ExtendedInstruction::SetZero]
    );
    assert_eq!(
        optimize_pattern_based(&wrapped("[-[-]")),
        vec![regular('['), regular('-'), ExtendedInstruction::SetZero]
    );
    assert_eq!(
        optimize_pattern_based(&wrapped("[[-]]")),
        vec![regular('['), ExtendedInstruction::SetZero, regular(']')]
    );
    assert_eq!(
        optimize_pattern_based(&wrapped("[-][-]")),
        vec![ExtendedInstruction::SetZero, ExtendedInstruction::SetZero]
    );
}

#[test]
fn a_part_of_the_pattern_is_kept_as_it_is() {
    assert_eq!(optimize_pattern_based(&wrapped("[-")), wrapped("[-"));
    assert_eq!(optimize_pattern_based(&wrapped("[")), wrapped("["));
    assert_eq!(optimize_pattern_based(&wrapped("[-.]")), wrapped("[-.]"));
    assert_eq!(optimize_pattern_based(&wrapped("[+]")), wrapped("[+]"));
    assert_eq!(optimize_pattern_based(&wrapped("-]")), wrapped("-]"));
    assert_eq!(optimize_pattern_based(&wrapped("")), vec![]);
}

#[test]
fn fusion_sees_what_coalescing_left() {
    let coalesced = coalesce("[+--]");
    assert_eq!(
        optimize_pattern_based(&coalesced),
        vec![ExtendedInstruction::SetZero]
    );
    let kept = coalesce("[--]");
    assert_eq!(
        optimize_pattern_based(&kept),
        vec![regular('['), ExtendedInstruction::Sub(2), regular(']')]
    );
}

#[test]
fn replace_pattern_takes_any_pattern() {
    let pattern = wrapped("+.");
    let out = replace_pattern(&wrapped("+.++.+"), &pattern, ExtendedInstruction::Add(9));
    assert_eq!(
        out,
        vec![
            ExtendedInstruction::Add(9),
            regular('+'),
            ExtendedInstruction::Add(9),
            regular('+'),
        ]
    );
}

#[test]
fn replace_pattern_restarts_at_the_instruction_that_broke_the_match() {
    let pattern = wrapped("++.");
    let out = replace_pattern(&wrapped("+++."), &pattern, ExtendedInstruction::SetZero);
    assert_eq!(out, wrapped("+++."));
    let out = replace_pattern(&wrapped("+>++."), &pattern, ExtendedInstruction::SetZero);
    assert_eq!(
        out,
        vec![regular('+'), regular('>'), ExtendedInstruction::SetZero]
    );
}

#[test]
fn increments_then_decrements_optimize_to_nothing() {
    let program = tokenize_all(b"+++---");
    let coalesced = optimize_instruction_repetitions(&instructions_to_extended(&program));
    assert_eq!(optimize_pattern_based(&coalesced), vec![]);
}
