//! What the optimizer's rewrites do and leave alone: cancelling runs, the
//! fusion of the count-down loop in any context, when coalescing changes
//! nothing, and the pairing of brackets, which no rewrite disturbs.

use vstd::prelude::*;
use crate::instructions::{ExtendedInstruction, Instruction};
use crate::jumps::{balanced, depth, has_unmatched_close, has_unmatched_open, is_close, is_open};
use crate::optimizer::{
    coalesced, extended, flushed, fused, is_cell_step, is_pointer_step, lemma_coalesced_len,
    lemma_match_length_bounds, lemma_match_length_is, lemma_run_length_bounds,
    lemma_run_length_is, match_length, net, optimized, pattern_fused, run_length, same_run,
    set_zero_pattern, step_value,
};

verus! {

/// The instruction `i`, `n` times.
pub open spec fn repeated(i: ExtendedInstruction, n: nat) -> Seq<ExtendedInstruction> {
    Seq::new(n, |k: int| i)
}

/// The count of two stretches joined is the sum of their counts.
pub proof fn lemma_net_concat(a: Seq<ExtendedInstruction>, b: Seq<ExtendedInstruction>)
    ensures
        net(a + b) == net(a) + net(b),
    decreases b.len(),
{
    if b.len() == 0 {
        assert(a + b =~= a);
    } else {
        assert((a + b).drop_last() =~= a + b.drop_last());
        lemma_net_concat(a, b.drop_last());
    }
}

/// The count of one instruction repeated is its value times the number of
/// repetitions.
pub proof fn lemma_net_repeated(i: ExtendedInstruction, n: nat)
    ensures
        net(repeated(i, n)) == n * step_value(i),
    decreases n,
{
    if n > 0 {
        assert(repeated(i, n).drop_last() =~= repeated(i, (n - 1) as nat));
        lemma_net_repeated(i, (n - 1) as nat);
        assert(n * step_value(i) == (n - 1) * step_value(i) + step_value(i)) by (nonlinear_arith);
    } else {
        assert(n * step_value(i) == 0) by (nonlinear_arith)
            requires
                n == 0,
        ;
    }
}

/// A sequence that is one run from end to end is coalesced into what its
/// count calls for.
pub proof fn lemma_coalesced_single_run(s: Seq<ExtendedInstruction>)
    requires
        s.len() > 0,
        forall|k: int| 1 <= k < s.len() ==> same_run(s[0], #[trigger] s[k]),
    ensures
        coalesced(s) == flushed(Some(s[0]), net(s)),
{
    let n = s.len() as int;
    lemma_run_length_is(s, n);
    assert(s.take(n) =~= s);
    assert(s.skip(n) =~= Seq::<ExtendedInstruction>::empty());
    assert(coalesced(s.skip(n)) =~= Seq::<ExtendedInstruction>::empty());
    assert(coalesced(s) =~= flushed(Some(s[0]), net(s)));
}

/// As many increments as decrements behind them cancel: coalescing leaves
/// nothing of them.
pub proof fn lemma_increments_decrements_cancel(n: nat)
    ensures
        coalesced(
            repeated(ExtendedInstruction::Regular(Instruction::Increment), n) + repeated(
                ExtendedInstruction::Regular(Instruction::Decrement),
                n,
            ),
        ) == Seq::<ExtendedInstruction>::empty(),
{
    let up = ExtendedInstruction::Regular(Instruction::Increment);
    let down = ExtendedInstruction::Regular(Instruction::Decrement);
    let s = repeated(up, n) + repeated(down, n);
    if n > 0 {
        lemma_net_concat(repeated(up, n), repeated(down, n));
        lemma_net_repeated(up, n);
        lemma_net_repeated(down, n);
        assert(n * 1 + n * (-1) == 0) by (nonlinear_arith);
        lemma_coalesced_single_run(s);
    } else {
        assert(s =~= Seq::<ExtendedInstruction>::empty());
    }
}

/// The same for moves: as many moves right as moves left behind them
/// leave nothing.
pub proof fn lemma_moves_cancel(n: nat)
    ensures
        coalesced(
            repeated(ExtendedInstruction::Regular(Instruction::MoveRight), n) + repeated(
                ExtendedInstruction::Regular(Instruction::MoveLeft),
                n,
            ),
        ) == Seq::<ExtendedInstruction>::empty(),
{
    let right = ExtendedInstruction::Regular(Instruction::MoveRight);
    let left = ExtendedInstruction::Regular(Instruction::MoveLeft);
    let s = repeated(right, n) + repeated(left, n);
    if n > 0 {
        lemma_net_concat(repeated(right, n), repeated(left, n));
        lemma_net_repeated(right, n);
        lemma_net_repeated(left, n);
        assert(n * 1 + n * (-1) == 0) by (nonlinear_arith);
        lemma_coalesced_single_run(s);
    } else {
        assert(s =~= Seq::<ExtendedInstruction>::empty());
    }
}

/// The count-down loop is fused wherever it stands: whatever comes before
/// it and behind it, it becomes one `SetZero`, and both sides are fused as
/// they would be alone.
pub proof fn lemma_set_zero_in_context(
    before: Seq<ExtendedInstruction>,
    after: Seq<ExtendedInstruction>,
)
    ensures
        pattern_fused(before + set_zero_pattern() + after) == pattern_fused(before)
            + seq![ExtendedInstruction::SetZero] + pattern_fused(after),
    decreases before.len(),
{
    let p = set_zero_pattern();
    let r = ExtendedInstruction::SetZero;
    let whole = before + p + after;
    let tail = p + after;
    assert(whole =~= before + tail);
    lemma_match_length_bounds(before, p);
    let m = match_length(before, p) as int;
    if before.len() == 0 {
        assert(whole =~= tail);
        assert forall|j: int| 0 <= j < 3 implies tail[j] == p[j] by {}
        lemma_match_length_is(tail, p, 3);
        assert(tail.skip(3) =~= after);
        assert(pattern_fused(before) =~= Seq::<ExtendedInstruction>::empty());
        assert(pattern_fused(whole) =~= pattern_fused(before) + seq![r] + pattern_fused(after));
    } else {
        lemma_match_length_prefix(before, p);
        // the scan of the whole agrees with the scan of `before` on its first piece
        if m == 3 {
            assert forall|j: int| 0 <= j < 3 implies whole[j] == p[j] by {
                assert(whole[j] == before[j]);
            }
            lemma_match_length_is(whole, p, 3);
            assert(whole.skip(3) =~= before.skip(3) + p + after);
            lemma_set_zero_in_context(before.skip(3), after);
            assert(pattern_fused(whole) =~= seq![r] + (pattern_fused(before.skip(3)) + seq![r]
                + pattern_fused(after)));
            assert(pattern_fused(whole) =~= pattern_fused(before) + seq![r] + pattern_fused(
                after,
            ));
        } else if m == 0 {
            assert(whole[0] == before[0]);
            lemma_match_length_is(whole, p, 0);
            assert(whole.skip(1) =~= before.skip(1) + p + after);
            lemma_set_zero_in_context(before.skip(1), after);
            assert(pattern_fused(whole) =~= seq![before[0]] + (pattern_fused(before.skip(1))
                + seq![r] + pattern_fused(after)));
            assert(pattern_fused(whole) =~= pattern_fused(before) + seq![r] + pattern_fused(
                after,
            ));
        } else {
            assert forall|j: int| 0 <= j < m implies whole[j] == p[j] by {
                assert(whole[j] == before[j]);
            }
            if m < before.len() {
                assert(whole[m] == before[m]);
            } else {
                assert(whole[m] == p[0]);
            }
            lemma_match_length_is(whole, p, m);
            assert(whole.take(m) =~= before.take(m));
            assert(whole.skip(m) =~= before.skip(m) + p + after);
            lemma_set_zero_in_context(before.skip(m), after);
            assert(pattern_fused(whole) =~= before.take(m) + (pattern_fused(before.skip(m))
                + seq![r] + pattern_fused(after)));
            assert(pattern_fused(whole) =~= pattern_fused(before) + seq![r] + pattern_fused(
                after,
            ));
        }
    }
}

/// The common prefix really is common, and ends where the two differ or
/// one of them ends.
pub proof fn lemma_match_length_prefix(
    s: Seq<ExtendedInstruction>,
    pattern: Seq<ExtendedInstruction>,
)
    ensures
        forall|j: int| 0 <= j < match_length(s, pattern) ==> s[j] == pattern[j],
        match_length(s, pattern) == s.len() || match_length(s, pattern) == pattern.len() || s[match_length(
            s,
            pattern,
        ) as int] != pattern[match_length(s, pattern) as int],
    decreases pattern.len(),
{
    lemma_match_length_bounds(s, pattern);
    if !(s.len() == 0 || pattern.len() == 0 || s[0] != pattern[0]) {
        let s1 = s.skip(1);
        let p1 = pattern.skip(1);
        lemma_match_length_prefix(s1, p1);
        lemma_match_length_bounds(s1, p1);
        let m1 = match_length(s1, p1) as int;
        assert forall|j: int| 0 <= j < m1 + 1 implies s[j] == pattern[j] by {
            if j > 0 {
                assert(s1[j - 1] == p1[j - 1]);
            }
        }
        if m1 < s1.len() && m1 < p1.len() {
            assert(s1[m1] == s[m1 + 1]);
            assert(p1[m1] == pattern[m1 + 1]);
        }
    }
}

/// No two neighbours of the sequence can stand in one run.
pub open spec fn settled(t: Seq<ExtendedInstruction>) -> bool {
    forall|k: int| 0 <= k < t.len() - 1 ==> !same_run(#[trigger] t[k], t[k + 1])
}

/// A run of one instruction is flushed as that instruction.
pub proof fn lemma_flushed_single(i: ExtendedInstruction)
    ensures
        flushed(Some(i), step_value(i)) == seq![i],
{
}

/// Coalescing changes nothing in a settled sequence.
pub proof fn lemma_settled_is_fixed(t: Seq<ExtendedInstruction>)
    requires
        settled(t),
    ensures
        coalesced(t) == t,
    decreases t.len(),
{
    if t.len() > 0 {
        let rest = t.skip(1);
        assert forall|k: int| 0 <= k < rest.len() - 1 implies !same_run(
            #[trigger] rest[k],
            rest[k + 1],
        ) by {
            assert(rest[k] == t[k + 1]);
            assert(!same_run(t[k + 1], t[k + 1 + 1]));
        }
        lemma_settled_is_fixed(rest);
        if t.len() > 1 {
            assert(!same_run(t[0], t[0int + 1]));
        }
        assert(run_length(t) == 1);
        assert(t.take(1).drop_last() =~= Seq::<ExtendedInstruction>::empty());
        assert(net(t.take(1).drop_last()) == 0);
        assert(net(t.take(1)) == step_value(t[0]));
        lemma_flushed_single(t[0]);
        assert(coalesced(t) =~= t);
    }
}

/// Coalescing shortens every sequence that is not settled.
pub proof fn lemma_unsettled_shrinks(t: Seq<ExtendedInstruction>)
    requires
        !settled(t),
    ensures
        coalesced(t).len() < t.len(),
    decreases t.len(),
{
    let k = choose|k: int| 0 <= k < t.len() - 1 && same_run(#[trigger] t[k], t[k + 1]);
    let n = run_length(t) as int;
    lemma_run_length_bounds(t);
    lemma_coalesced_len(t.skip(n));
    if n == 1 {
        let rest = t.skip(1);
        assert(!same_run(t[0], t[1]));
        assert(k >= 1);
        assert(rest[k - 1] == t[k]);
        assert(rest[k - 1 + 1] == t[k + 1]);
        assert(same_run(rest[k - 1], rest[k - 1 + 1]));
        lemma_unsettled_shrinks(rest);
    }
}

/// Coalescing a second time changes nothing, if and only if the first
/// pass left a settled sequence. It leaves one unless a run that cancels
/// out stood between two single steps of one kind.
pub proof fn lemma_coalescing_idempotent_iff_settled(s: Seq<ExtendedInstruction>)
    ensures
        coalesced(coalesced(s)) == coalesced(s) <==> settled(coalesced(s)),
{
    if settled(coalesced(s)) {
        lemma_settled_is_fixed(coalesced(s));
    } else {
        lemma_unsettled_shrinks(coalesced(s));
    }
}

/// Run-length coalescing is idempotent on every sequence whose coalesced
/// form is settled: applied to its own output, it gives that output again.
pub proof fn lemma_coalescing_idempotent(s: Seq<ExtendedInstruction>)
    requires
        settled(coalesced(s)),
    ensures
        coalesced(coalesced(s)) == coalesced(s),
{
    lemma_settled_is_fixed(coalesced(s));
}

/// No maximal run of steps in the sequence cancels out.
pub open spec fn no_cancelled_run(s: Seq<ExtendedInstruction>) -> bool
    decreases s.len(),
    via no_cancelled_run_decreases
{
    if s.len() == 0 {
        true
    } else {
        let n = run_length(s) as int;
        &&& (is_cell_step(s[0]) || is_pointer_step(s[0])) ==> net(s.take(n)) != 0
        &&& no_cancelled_run(s.skip(n))
    }
}

#[via_fn]
proof fn no_cancelled_run_decreases(s: Seq<ExtendedInstruction>) {
    if s.len() != 0 {
        lemma_run_length_bounds(s);
    }
}

/// What is left of a run that does not cancel out is one instruction, and
/// if that is a step, it is a step of the kind of the run.
pub proof fn lemma_flushed_kind(first: ExtendedInstruction, count: int)
    requires
        (is_cell_step(first) || is_pointer_step(first)) ==> count != 0,
    ensures
        flushed(Some(first), count).len() == 1,
        is_cell_step(flushed(Some(first), count)[0]) ==> is_cell_step(first),
        is_pointer_step(flushed(Some(first), count)[0]) ==> is_pointer_step(first),
{
}

/// Where no run cancels out, coalescing leaves a settled sequence, which
/// starts, if it starts with a step, with a step of the kind that the
/// sequence started with.
pub proof fn lemma_coalesced_settled(s: Seq<ExtendedInstruction>)
    requires
        no_cancelled_run(s),
    ensures
        settled(coalesced(s)),
        s.len() > 0 ==> coalesced(s).len() > 0,
        s.len() > 0 && is_cell_step(coalesced(s)[0]) ==> is_cell_step(s[0]),
        s.len() > 0 && is_pointer_step(coalesced(s)[0]) ==> is_pointer_step(s[0]),
    decreases s.len(),
{
    if s.len() > 0 {
        let n = run_length(s) as int;
        lemma_run_length_bounds(s);
        lemma_run_length_maximal(s);
        let rest = s.skip(n);
        let head = flushed(Some(s[0]), net(s.take(n)));
        lemma_flushed_kind(s[0], net(s.take(n)));
        lemma_coalesced_settled(rest);
        let t = coalesced(s);
        let tail = coalesced(rest);
        assert(t =~= head + tail);
        assert(t[0] == head[0]);
        assert forall|k: int| 0 <= k < t.len() - 1 implies !same_run(#[trigger] t[k], t[k + 1]) by {
            if k == 0 {
                assert(t[1] == tail[0]);
                assert(rest[0] == s[n]);
                assert(!same_run(s[0], s[n]));
            } else {
                assert(t[k] == tail[k - 1]);
                assert(t[k + 1] == tail[k - 1 + 1]);
                assert(!same_run(tail[k - 1], tail[k - 1 + 1]));
            }
        }
    }
}

/// What follows the first run does not stand in one run with it.
pub proof fn lemma_run_length_maximal(s: Seq<ExtendedInstruction>)
    requires
        s.len() > 0,
    ensures
        run_length(s) < s.len() ==> !same_run(s[0], s[run_length(s) as int]),
    decreases s.len(),
{
    lemma_run_length_bounds(s);
    if s.len() > 1 && same_run(s[0], s[1]) {
        let t = s.skip(1);
        lemma_run_length_maximal(t);
        lemma_run_length_bounds(t);
        if run_length(t) < t.len() {
            assert(t[run_length(t) as int] == s[run_length(s) as int]);
        }
    }
}

/// Run-length coalescing is idempotent on every sequence in which no run
/// cancels out.
pub proof fn lemma_coalescing_idempotent_without_cancelling(s: Seq<ExtendedInstruction>)
    requires
        no_cancelled_run(s),
    ensures
        coalesced(coalesced(s)) == coalesced(s),
{
    lemma_coalesced_settled(s);
    lemma_settled_is_fixed(coalesced(s));
}

/// Some prefix of `s` takes the depth below zero, when counting starts at
/// `base`.
pub open spec fn dips_below(s: Seq<ExtendedInstruction>, base: int) -> bool {
    exists|k: int| 0 <= k <= s.len() && base + #[trigger] depth(s, k) < 0
}

/// The depth of a prefix does not see what follows it, and behind a first
/// part the depth goes on from where that part ended.
pub proof fn lemma_depth_concat(a: Seq<ExtendedInstruction>, b: Seq<ExtendedInstruction>, k: int)
    requires
        0 <= k <= a.len() + b.len(),
    ensures
        k <= a.len() ==> depth(a + b, k) == depth(a, k),
        k >= a.len() ==> depth(a + b, k) == depth(a, a.len() as int) + depth(b, k - a.len()),
    decreases k,
{
    if k > 0 {
        lemma_depth_concat(a, b, k - 1);
        if k <= a.len() {
            assert((a + b)[k - 1] == a[k - 1]);
        } else {
            assert((a + b)[k - 1] == b[k - 1 - a.len()]);
        }
    }
}

/// Two parts joined dip where the first dips, or where the second dips
/// from the depth that the first ends on.
pub proof fn lemma_dips_concat(
    a: Seq<ExtendedInstruction>,
    b: Seq<ExtendedInstruction>,
    base: int,
)
    ensures
        dips_below(a + b, base) <==> dips_below(a, base) || dips_below(
            b,
            base + depth(a, a.len() as int),
        ),
{
    let d = depth(a, a.len() as int);
    if dips_below(a + b, base) {
        let k = choose|k: int| 0 <= k <= (a + b).len() && base + #[trigger] depth(a + b, k) < 0;
        lemma_depth_concat(a, b, k);
        if k <= a.len() {
            assert(base + depth(a, k) < 0);
        } else {
            assert(base + d + depth(b, k - a.len()) < 0);
        }
    }
    if dips_below(a, base) {
        let k = choose|k: int| 0 <= k <= a.len() && base + #[trigger] depth(a, k) < 0;
        lemma_depth_concat(a, b, k);
        assert(base + depth(a + b, k) < 0);
    }
    if dips_below(b, base + d) {
        let k = choose|k: int| 0 <= k <= b.len() && base + d + #[trigger] depth(b, k) < 0;
        lemma_depth_concat(a, b, k + a.len());
        assert(base + depth(a + b, k + a.len()) < 0);
    }
}

/// Neither an opening nor a closing bracket stands in the sequence.
pub open spec fn bracket_free(s: Seq<ExtendedInstruction>) -> bool {
    forall|k: int| 0 <= k < s.len() ==> !is_open(#[trigger] s[k]) && !is_close(s[k])
}

/// Without brackets the depth stays at zero.
pub proof fn lemma_bracket_free_depth(s: Seq<ExtendedInstruction>, k: int)
    requires
        bracket_free(s),
        0 <= k <= s.len(),
    ensures
        depth(s, k) == 0,
    decreases k,
{
    if k > 0 {
        lemma_bracket_free_depth(s, k - 1);
        assert(!is_open(s[k - 1]) && !is_close(s[k - 1]));
    }
}

/// A piece that neither ends above or below the depth it starts on nor
/// ever goes below it.
pub open spec fn neutral(s: Seq<ExtendedInstruction>) -> bool {
    &&& depth(s, s.len() as int) == 0
    &&& forall|k: int| 0 <= k <= s.len() ==> #[trigger] depth(s, k) >= 0
}

/// A neutral piece dips only if counting starts below zero.
pub proof fn lemma_neutral_dips(s: Seq<ExtendedInstruction>, base: int)
    requires
        neutral(s),
    ensures
        dips_below(s, base) <==> base < 0,
{
    if base < 0 {
        assert(base + depth(s, 0) < 0);
    }
}

/// A sequence without brackets is neutral.
pub proof fn lemma_bracket_free_neutral(s: Seq<ExtendedInstruction>)
    requires
        bracket_free(s),
    ensures
        neutral(s),
{
    assert forall|k: int| 0 <= k <= s.len() implies #[trigger] depth(s, k) >= 0 by {
        lemma_bracket_free_depth(s, k);
    }
    lemma_bracket_free_depth(s, s.len() as int);
}

/// Replacing a neutral piece at the front by another neutral piece
/// changes neither where the whole ends nor whether it dips.
pub proof fn lemma_swap_neutral(
    old_piece: Seq<ExtendedInstruction>,
    new_piece: Seq<ExtendedInstruction>,
    old_rest: Seq<ExtendedInstruction>,
    new_rest: Seq<ExtendedInstruction>,
    base: int,
)
    requires
        neutral(old_piece),
        neutral(new_piece),
        depth(new_rest, new_rest.len() as int) == depth(old_rest, old_rest.len() as int),
        dips_below(new_rest, base) <==> dips_below(old_rest, base),
    ensures
        depth(new_piece + new_rest, (new_piece + new_rest).len() as int) == depth(
            old_piece + old_rest,
            (old_piece + old_rest).len() as int,
        ),
        dips_below(new_piece + new_rest, base) <==> dips_below(old_piece + old_rest, base),
{
    lemma_depth_concat(old_piece, old_rest, (old_piece + old_rest).len() as int);
    lemma_depth_concat(new_piece, new_rest, (new_piece + new_rest).len() as int);
    lemma_dips_concat(old_piece, old_rest, base);
    lemma_dips_concat(new_piece, new_rest, base);
    lemma_neutral_dips(old_piece, base);
    lemma_neutral_dips(new_piece, base);
}

/// Keeping the first instruction and replacing the rest by a sequence of
/// the same final depth and the same dips changes neither.
pub proof fn lemma_keep_front(
    front: Seq<ExtendedInstruction>,
    old_rest: Seq<ExtendedInstruction>,
    new_rest: Seq<ExtendedInstruction>,
    base: int,
)
    requires
        depth(new_rest, new_rest.len() as int) == depth(old_rest, old_rest.len() as int),
        dips_below(new_rest, base + depth(front, front.len() as int)) <==> dips_below(
            old_rest,
            base + depth(front, front.len() as int),
        ),
    ensures
        depth(front + new_rest, (front + new_rest).len() as int) == depth(
            front + old_rest,
            (front + old_rest).len() as int,
        ),
        dips_below(front + new_rest, base) <==> dips_below(front + old_rest, base),
{
    lemma_depth_concat(front, old_rest, (front + old_rest).len() as int);
    lemma_depth_concat(front, new_rest, (front + new_rest).len() as int);
    lemma_dips_concat(front, old_rest, base);
    lemma_dips_concat(front, new_rest, base);
}

/// All of the first run stands in one run with its first instruction.
pub proof fn lemma_run_elements(s: Seq<ExtendedInstruction>)
    requires
        s.len() > 0,
    ensures
        forall|k: int| 1 <= k < run_length(s) ==> same_run(s[0], #[trigger] s[k]),
    decreases s.len(),
{
    lemma_run_length_bounds(s);
    if s.len() > 1 && same_run(s[0], s[1]) {
        let t = s.skip(1);
        lemma_run_elements(t);
        lemma_run_length_bounds(t);
        assert forall|k: int| 1 <= k < run_length(s) implies same_run(s[0], #[trigger] s[k]) by {
            if k > 1 {
                assert(t[k - 1] == s[k]);
                assert(same_run(t[0], t[k - 1]));
            }
        }
    }
}

/// Coalescing leaves the final depth of a sequence and its dips as they
/// are: it rewrites only between the brackets.
pub proof fn lemma_coalesced_brackets(s: Seq<ExtendedInstruction>, base: int)
    ensures
        depth(coalesced(s), coalesced(s).len() as int) == depth(s, s.len() as int),
        dips_below(coalesced(s), base) <==> dips_below(s, base),
    decreases s.len(),
{
    if s.len() > 0 {
        let n = run_length(s) as int;
        lemma_run_length_bounds(s);
        lemma_run_elements(s);
        let piece = s.take(n);
        let rest = s.skip(n);
        let new_piece = flushed(Some(s[0]), net(piece));
        assert(s =~= piece + rest);
        if is_cell_step(s[0]) || is_pointer_step(s[0]) {
            assert forall|k: int| 0 <= k < piece.len() implies !is_open(#[trigger] piece[k])
                && !is_close(piece[k]) by {
                assert(piece[k] == s[k]);
                if k > 0 {
                    assert(same_run(s[0], s[k]));
                }
            }
            lemma_bracket_free_neutral(piece);
            lemma_bracket_free_neutral(new_piece);
            lemma_coalesced_brackets(rest, base);
            lemma_swap_neutral(piece, new_piece, rest, coalesced(rest), base);
        } else {
            assert(n == 1);
            assert(new_piece =~= piece);
            lemma_coalesced_brackets(rest, base + depth(piece, piece.len() as int));
            lemma_keep_front(piece, rest, coalesced(rest), base);
        }
    }
}

/// The count-down loop is neutral, and so is `SetZero`.
pub proof fn lemma_set_zero_neutral()
    ensures
        neutral(set_zero_pattern()),
        neutral(seq![ExtendedInstruction::SetZero]),
{
    let p = set_zero_pattern();
    assert(depth(p, 0) == 0);
    assert(depth(p, 1) == 1);
    assert(depth(p, 2) == 1);
    assert(depth(p, 3) == 0);
    let z = seq![ExtendedInstruction::SetZero];
    assert(depth(z, 0) == 0);
    assert(depth(z, 1) == 0);
}

/// Fusing the count-down loop leaves the final depth of a sequence and
/// its dips as they are: the two brackets that go are partners.
pub proof fn lemma_fused_brackets(s: Seq<ExtendedInstruction>, base: int)
    ensures
        depth(pattern_fused(s), pattern_fused(s).len() as int) == depth(s, s.len() as int),
        dips_below(pattern_fused(s), base) <==> dips_below(s, base),
    decreases s.len(),
{
    let p = set_zero_pattern();
    let r = ExtendedInstruction::SetZero;
    if s.len() > 0 {
        lemma_match_length_bounds(s, p);
        lemma_match_length_prefix(s, p);
        let m = match_length(s, p) as int;
        if m == 3 {
            let rest = s.skip(3);
            assert(s.take(3) =~= p);
            assert(s =~= p + rest);
            lemma_set_zero_neutral();
            lemma_fused_brackets(rest, base);
            lemma_swap_neutral(p, seq![r], rest, pattern_fused(rest), base);
        } else {
            let cut = if m == 0 {
                1int
            } else {
                m
            };
            let piece = s.take(cut);
            let rest = s.skip(cut);
            assert(s =~= piece + rest);
            assert(seq![s[0]] =~= s.take(1));
            lemma_fused_brackets(rest, base + depth(piece, piece.len() as int));
            lemma_keep_front(piece, rest, pattern_fused(rest), base);
        }
    }
}

/// The optimizer keeps the verdict on the brackets: the optimized program
/// has an unmatched closing bracket, an unmatched opening bracket, or all
/// brackets paired, exactly as the program itself.
pub proof fn lemma_optimized_brackets(program: Seq<Instruction>)
    ensures
        has_unmatched_close(optimized(program)) <==> has_unmatched_close(extended(program)),
        has_unmatched_open(optimized(program)) <==> has_unmatched_open(extended(program)),
        balanced(optimized(program)) <==> balanced(extended(program)),
{
    let a = extended(program);
    let b = coalesced(a);
    let c = pattern_fused(b);
    lemma_coalesced_brackets(a, 0);
    lemma_fused_brackets(b, 0);
    lemma_dips_is_unmatched_close(a);
    lemma_dips_is_unmatched_close(c);
}

/// To dip from zero is to have an unmatched closing bracket.
pub proof fn lemma_dips_is_unmatched_close(s: Seq<ExtendedInstruction>)
    ensures
        dips_below(s, 0) <==> has_unmatched_close(s),
{
    if dips_below(s, 0) {
        let k = choose|k: int| 0 <= k <= s.len() && 0 + #[trigger] depth(s, k) < 0;
        assert(depth(s, k) < 0);
    }
    if has_unmatched_close(s) {
        let k = choose|k: int| 0 <= k <= s.len() && #[trigger] depth(s, k) < 0;
        assert(0 + depth(s, k) < 0);
    }
}

} // verus!
