use bf_jit::instructions::ExtendedInstruction;
use bf_jit::jumps::{resolve_jumps, resolve_jumps_at, BracketMismatch};
use bf_jit::lexer::tokenize_all;
use bf_jit::optimizer::instructions_to_extended;

fn code(source: &str) -> Vec<ExtendedInstruction> {
    instructions_to_extended(&tokenize_all(source.as_bytes()))
}

#[test]
fn a_program_without_brackets_has_no_jumps() {
    let jumps = resolve_jumps(&code("+>.<-")).unwrap();
    for position in 0..8 {
        assert_eq!(jumps.close_of(position), None);
        assert_eq!(jumps.open_of(position), None);
    }
}

#[test]
fn a_pair_is_recorded_in_both_directions() {
    let jumps = resolve_jumps(&code("+[-]")).unwrap();
    assert_eq!(jumps.close_of(1), Some(3));
    assert_eq!(jumps.open_of(3), Some(1));
    assert_eq!(jumps.close_of(3), None);
    assert_eq!(jumps.open_of(1), None);
    assert_eq!(jumps.close_of(0), None);
}

#[test]
fn nested_and_neighbouring_pairs_find_their_partners() {
    let jumps = resolve_jumps(&code("[[]][.[+]]")).unwrap();
    assert_eq!(jumps.close_of(0), Some(3));
    assert_eq!(jumps.close_of(1), Some(2));
    assert_eq!(jumps.close_of(4), Some(9));
    assert_eq!(jumps.close_of(6), Some(8));
    assert_eq!(jumps.open_of(3), Some(0));
    assert_eq!(jumps.open_of(2), Some(1));
    assert_eq!(jumps.open_of(9), Some(4));
    assert_eq!(jumps.open_of(8), Some(6));
}

#[test]
fn a_closing_bracket_without_partner_is_reported() {
    assert_eq!(
        resolve_jumps(&code("]")).err(),
        Some(BracketMismatch::UnmatchedClose)
    );
    assert_eq!(
        resolve_jumps(&code("[]]")).err(),
        Some(BracketMismatch::UnmatchedClose)
    );
    assert_eq!(
        resolve_jumps(&code("+]+[")).err(),
        Some(BracketMismatch::UnmatchedClose)
    );
}

#[test]
fn an_opening_bracket_without_partner_is_reported() {
    assert_eq!(
        resolve_jumps(&code("[")).err(),
        Some(BracketMismatch::UnmatchedOpen)
    );
    assert_eq!(
        resolve_jumps(&code("[[]")).err(),
        Some(BracketMismatch::UnmatchedOpen)
    );
    assert_eq!(
        resolve_jumps(&code("[]+[.")).err(),
        Some(BracketMismatch::UnmatchedOpen)
    );
}

#[test]
fn the_first_closing_bracket_without_partner_wins() {
    assert_eq!(
        resolve_jumps(&code("[[]]][")).err(),
        Some(BracketMismatch::UnmatchedClose)
    );
}

#[test]
fn positions_can_be_any_growing_numbers() {
    let positions = [18usize, 30, 42, 54, 100];
    let jumps = resolve_jumps_at(&code("[[]]+"), &positions).unwrap();
    assert_eq!(jumps.close_of(18), Some(54));
    assert_eq!(jumps.close_of(30), Some(42));
    assert_eq!(jumps.open_of(54), Some(18));
    assert_eq!(jumps.open_of(42), Some(30));
    assert_eq!(jumps.close_of(0), None);
    assert_eq!(jumps.close_of(100), None);
}

#[test]
fn a_cleared_map_has_no_jumps() {
    let mut jumps = resolve_jumps(&code("[]")).unwrap();
    assert_eq!(jumps.close_of(0), Some(1));
    jumps.clear();
    assert_eq!(jumps.close_of(0), None);
    assert_eq!(jumps.open_of(1), None);
}
