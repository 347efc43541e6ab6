//! The optimizer preserves what a program writes: the pieces into which
//! each pass cuts a program, and the resulting statement about the
//! optimized program.

use vstd::prelude::*;
use crate::alignment::{aligned, kept, lemma_start_ends, loop_piece, run_piece};
use crate::instructions::{ExtendedInstruction, Instruction};
use crate::jumps::balanced;
use crate::layout::{flat, lemma_flat_concat, lemma_flat_one};
use crate::machine::{output, run, status, State, Status, TAPE_LENGTH};
use crate::optimizer::{
    coalesced, extended, flushed, fused, is_cell_step, is_pointer_step,
    lemma_match_length_bounds, lemma_run_length_bounds, match_length, net, optimized,
    pattern_fused, run_length, same_run, set_zero_pattern,
};
use crate::rewrites::{
    lemma_coalesced_brackets, lemma_dips_is_unmatched_close, lemma_match_length_prefix,
    lemma_run_elements,
};
use crate::equivalence::{lemma_run_split, lemma_stopped};
use crate::simulation::{lemma_simulation, lemma_simulation_back, related};

verus! {

/// The maximal runs of a sequence, in order.
pub open spec fn runs(s: Seq<ExtendedInstruction>) -> Seq<Seq<ExtendedInstruction>>
    decreases s.len(),
    via runs_decreases
{
    if s.len() == 0 {
        Seq::empty()
    } else {
        let n = run_length(s) as int;
        seq![s.take(n)] + runs(s.skip(n))
    }
}

#[via_fn]
proof fn runs_decreases(s: Seq<ExtendedInstruction>) {
    if s.len() != 0 {
        lemma_run_length_bounds(s);
    }
}

/// What each of the maximal runs is flushed to, in order.
pub open spec fn flushed_runs(s: Seq<ExtendedInstruction>) -> Seq<Seq<ExtendedInstruction>>
    decreases s.len(),
    via flushed_runs_decreases
{
    if s.len() == 0 {
        Seq::empty()
    } else {
        let n = run_length(s) as int;
        seq![flushed(Some(s[0]), net(s.take(n)))] + flushed_runs(s.skip(n))
    }
}

#[via_fn]
proof fn flushed_runs_decreases(s: Seq<ExtendedInstruction>) {
    if s.len() != 0 {
        lemma_run_length_bounds(s);
    }
}

/// The runs of a sequence are the sequence, what they are flushed to is
/// the coalesced sequence, and the two lists correspond piece by piece.
pub proof fn lemma_runs_aligned(s: Seq<ExtendedInstruction>)
    ensures
        flat(runs(s)) == s,
        flat(flushed_runs(s)) == coalesced(s),
        aligned(runs(s), flushed_runs(s)),
    decreases s.len(),
{
    if s.len() == 0 {
        assert(flat(runs(s)) =~= s);
        assert(flat(flushed_runs(s)) =~= coalesced(s));
    } else {
        let n = run_length(s) as int;
        lemma_run_length_bounds(s);
        lemma_run_elements(s);
        let rest = s.skip(n);
        let from = s.take(n);
        let to = flushed(Some(s[0]), net(from));
        lemma_runs_aligned(rest);
        lemma_flat_concat(seq![from], runs(rest));
        lemma_flat_concat(seq![to], flushed_runs(rest));
        lemma_flat_one(from);
        lemma_flat_one(to);
        assert(from + rest =~= s);
        let froms = runs(s);
        let tos = flushed_runs(s);
        assert(froms.len() == tos.len());
        assert forall|i: int| 0 <= i < froms.len() implies kept(#[trigger] froms[i], tos[i])
            || run_piece(froms[i], tos[i]) || loop_piece(froms[i], tos[i]) by {
            if i == 0 {
                assert(froms[0] == from);
                assert(tos[0] == to);
                if is_cell_step(s[0]) || is_pointer_step(s[0]) {
                    assert forall|k: int| 0 <= k < from.len() implies same_run(
                        from[0],
                        #[trigger] from[k],
                    ) by {
                        if k > 0 {
                            assert(same_run(s[0], s[k]));
                        }
                    }
                    assert(run_piece(from, to));
                } else {
                    assert(n == 1);
                    assert(to =~= from);
                    assert(kept(from, to));
                }
            } else {
                assert(froms[i] == runs(rest)[i - 1]);
                assert(tos[i] == flushed_runs(rest)[i - 1]);
            }
        }
    }
}

/// Each instruction of a sequence as a piece of its own.
pub open spec fn singles(x: Seq<ExtendedInstruction>) -> Seq<Seq<ExtendedInstruction>> {
    Seq::new(x.len(), |k: int| seq![x[k]])
}

/// The single instructions of a sequence, laid end to end, are the
/// sequence.
pub proof fn lemma_flat_singles(x: Seq<ExtendedInstruction>)
    ensures
        flat(singles(x)) == x,
    decreases x.len(),
{
    if x.len() == 0 {
        assert(flat(singles(x)) =~= x);
    } else {
        lemma_flat_singles(x.drop_last());
        assert(singles(x).drop_last() =~= singles(x.drop_last()));
        assert(flat(singles(x)) =~= x);
    }
}

/// The pieces that the fusion pass cuts a sequence into: each count-down
/// loop that it finds, and every other instruction by itself.
pub open spec fn fusion_pieces(s: Seq<ExtendedInstruction>) -> Seq<Seq<ExtendedInstruction>>
    decreases s.len(),
    via fusion_pieces_decreases
{
    if s.len() == 0 {
        Seq::empty()
    } else {
        let m = match_length(s, set_zero_pattern()) as int;
        if m == 3 {
            seq![set_zero_pattern()] + fusion_pieces(s.skip(3))
        } else if m == 0 {
            seq![seq![s[0]]] + fusion_pieces(s.skip(1))
        } else {
            singles(s.take(m)) + fusion_pieces(s.skip(m))
        }
    }
}

#[via_fn]
proof fn fusion_pieces_decreases(s: Seq<ExtendedInstruction>) {
    lemma_match_length_bounds(s, set_zero_pattern());
}

/// What stands for each of those pieces in the fused sequence.
pub open spec fn fused_pieces(s: Seq<ExtendedInstruction>) -> Seq<Seq<ExtendedInstruction>>
    decreases s.len(),
    via fused_pieces_decreases
{
    if s.len() == 0 {
        Seq::empty()
    } else {
        let m = match_length(s, set_zero_pattern()) as int;
        if m == 3 {
            seq![seq![ExtendedInstruction::SetZero]] + fused_pieces(s.skip(3))
        } else if m == 0 {
            seq![seq![s[0]]] + fused_pieces(s.skip(1))
        } else {
            singles(s.take(m)) + fused_pieces(s.skip(m))
        }
    }
}

#[via_fn]
proof fn fused_pieces_decreases(s: Seq<ExtendedInstruction>) {
    lemma_match_length_bounds(s, set_zero_pattern());
}

/// The pieces of the fusion pass are the sequence, what stands for them
/// is the fused sequence, and the two lists correspond piece by piece.
pub proof fn lemma_fusion_aligned(s: Seq<ExtendedInstruction>)
    ensures
        flat(fusion_pieces(s)) == s,
        flat(fused_pieces(s)) == pattern_fused(s),
        aligned(fusion_pieces(s), fused_pieces(s)),
    decreases s.len(),
{
    let p = set_zero_pattern();
    let r = ExtendedInstruction::SetZero;
    if s.len() == 0 {
        assert(flat(fusion_pieces(s)) =~= s);
        assert(flat(fused_pieces(s)) =~= pattern_fused(s));
    } else {
        lemma_match_length_bounds(s, p);
        lemma_match_length_prefix(s, p);
        let m = match_length(s, p) as int;
        let froms = fusion_pieces(s);
        let tos = fused_pieces(s);
        if m == 3 {
            let rest = s.skip(3);
            lemma_fusion_aligned(rest);
            assert(s.take(3) =~= p);
            assert(p + rest =~= s);
            lemma_flat_concat(seq![p], fusion_pieces(rest));
            lemma_flat_concat(seq![seq![r]], fused_pieces(rest));
            lemma_flat_one(p);
            lemma_flat_one(seq![r]);
            assert forall|i: int| 0 <= i < froms.len() implies kept(#[trigger] froms[i], tos[i])
                || run_piece(froms[i], tos[i]) || loop_piece(froms[i], tos[i]) by {
                if i == 0 {
                    assert(froms[0] == p);
                    assert(tos[0] == seq![r]);
                } else {
                    assert(froms[i] == fusion_pieces(rest)[i - 1]);
                    assert(tos[i] == fused_pieces(rest)[i - 1]);
                }
            }
        } else {
            let cut = if m == 0 {
                1int
            } else {
                m
            };
            let rest = s.skip(cut);
            let front = s.take(cut);
            lemma_fusion_aligned(rest);
            assert(front + rest =~= s);
            assert(singles(s.take(1)) =~= seq![seq![s[0]]]);
            assert(seq![s[0]] =~= s.take(1));
            lemma_flat_singles(front);
            lemma_flat_concat(singles(front), fusion_pieces(rest));
            lemma_flat_concat(singles(front), fused_pieces(rest));
            assert(froms == singles(front) + fusion_pieces(rest));
            assert(tos == singles(front) + fused_pieces(rest));
            assert(pattern_fused(s) =~= front + pattern_fused(rest));
            assert forall|i: int| 0 <= i < froms.len() implies kept(#[trigger] froms[i], tos[i])
                || run_piece(froms[i], tos[i]) || loop_piece(froms[i], tos[i]) by {
                if i < cut {
                    assert(froms[i] == singles(front)[i]);
                    assert(tos[i] == singles(front)[i]);
                } else {
                    assert(froms[i] == fusion_pieces(rest)[i - cut]);
                    assert(tos[i] == fused_pieces(rest)[i - cut]);
                }
            }
        }
    }
}

/// A rewriting pass keeps up with its input, given the pieces that it
/// cuts the input into: see `lemma_optimized_keeps_up`.
proof fn lemma_pass_keeps_up(
    froms: Seq<Seq<ExtendedInstruction>>,
    tos: Seq<Seq<ExtendedInstruction>>,
    pointer: int,
    tape: Seq<u8>,
    n: nat,
) -> (m: nat)
    requires
        aligned(froms, tos),
        balanced(flat(froms)),
        0 <= pointer < TAPE_LENGTH,
        tape.len() == TAPE_LENGTH,
    ensures
        m <= n,
        ({
            let start = State { ip: 0, pointer, tape };
            let plain = flat(froms);
            let rewritten = flat(tos);
            &&& output(rewritten, start, m) == output(plain, start, n)
            &&& status(plain, run(plain, start, n)) == Status::Finished ==> {
                &&& status(rewritten, run(rewritten, start, m)) == Status::Finished
                &&& run(rewritten, start, m).pointer == run(plain, start, n).pointer
                &&& run(rewritten, start, m).tape == run(plain, start, n).tape
            }
        }),
{
    let start = State { ip: 0, pointer, tape };
    lemma_start_ends(froms);
    lemma_start_ends(tos);
    assert(related(froms, tos, 0, start, start));
    lemma_simulation(froms, tos, 0, start, start, n)
}

/// Coalescing preserves what a sequence of instructions writes. Whatever
/// the sequence has written after `n` steps, the coalesced sequence has
/// written after some `m <= n` steps; and if the sequence has then run to
/// its end, so has the coalesced one, with the same data pointer and tape.
pub proof fn lemma_coalesced_keeps_up(
    s: Seq<ExtendedInstruction>,
    pointer: int,
    tape: Seq<u8>,
    n: nat,
) -> (m: nat)
    requires
        balanced(s),
        0 <= pointer < TAPE_LENGTH,
        tape.len() == TAPE_LENGTH,
    ensures
        m <= n,
        ({
            let start = State { ip: 0, pointer, tape };
            &&& output(coalesced(s), start, m) == output(s, start, n)
            &&& status(s, run(s, start, n)) == Status::Finished ==> {
                &&& status(coalesced(s), run(coalesced(s), start, m)) == Status::Finished
                &&& run(coalesced(s), start, m).pointer == run(s, start, n).pointer
                &&& run(coalesced(s), start, m).tape == run(s, start, n).tape
            }
        }),
{
    lemma_runs_aligned(s);
    lemma_pass_keeps_up(runs(s), flushed_runs(s), pointer, tape, n)
}

/// Pattern fusion preserves what a sequence of instructions writes, in
/// the same sense.
pub proof fn lemma_fused_keeps_up(
    s: Seq<ExtendedInstruction>,
    pointer: int,
    tape: Seq<u8>,
    n: nat,
) -> (m: nat)
    requires
        balanced(s),
        0 <= pointer < TAPE_LENGTH,
        tape.len() == TAPE_LENGTH,
    ensures
        m <= n,
        ({
            let start = State { ip: 0, pointer, tape };
            &&& output(pattern_fused(s), start, m) == output(s, start, n)
            &&& status(s, run(s, start, n)) == Status::Finished ==> {
                &&& status(pattern_fused(s), run(pattern_fused(s), start, m)) == Status::Finished
                &&& run(pattern_fused(s), start, m).pointer == run(s, start, n).pointer
                &&& run(pattern_fused(s), start, m).tape == run(s, start, n).tape
            }
        }),
{
    lemma_fusion_aligned(s);
    lemma_pass_keeps_up(fusion_pieces(s), fused_pieces(s), pointer, tape, n)
}

/// Optimization preserves what a program writes. Take a program whose
/// brackets are paired, and any tape and data pointer to start from.
/// Whatever the program has written after `n` steps, the optimized
/// program has written after some `m <= n` steps. And if the program has
/// run to its end after `n` steps, the optimized program has run to its
/// end after `m` steps, with the same data pointer and the same tape, so
/// that the two have written the same from start to end.
pub proof fn lemma_optimized_keeps_up(
    program: Seq<Instruction>,
    pointer: int,
    tape: Seq<u8>,
    n: nat,
) -> (m: nat)
    requires
        balanced(extended(program)),
        0 <= pointer < TAPE_LENGTH,
        tape.len() == TAPE_LENGTH,
    ensures
        m <= n,
        ({
            let start = State { ip: 0, pointer, tape };
            let plain = extended(program);
            let fast = optimized(program);
            &&& output(fast, start, m) == output(plain, start, n)
            &&& status(plain, run(plain, start, n)) == Status::Finished ==> {
                &&& status(fast, run(fast, start, m)) == Status::Finished
                &&& run(fast, start, m).pointer == run(plain, start, n).pointer
                &&& run(fast, start, m).tape == run(plain, start, n).tape
            }
        }),
{
    let plain = extended(program);
    let middle = coalesced(plain);
    lemma_coalesced_brackets(plain, 0);
    lemma_dips_is_unmatched_close(plain);
    lemma_dips_is_unmatched_close(middle);
    let m1 = lemma_coalesced_keeps_up(plain, pointer, tape, n);
    lemma_fused_keeps_up(middle, pointer, tape, m1)
}

/// The input of a rewriting pass keeps up with its output, given the
/// pieces that the pass cuts the input into: see
/// `lemma_optimized_writes_nothing_else`.
proof fn lemma_pass_back(
    froms: Seq<Seq<ExtendedInstruction>>,
    tos: Seq<Seq<ExtendedInstruction>>,
    pointer: int,
    tape: Seq<u8>,
    m: nat,
) -> (n: nat)
    requires
        aligned(froms, tos),
        balanced(flat(froms)),
        0 <= pointer < TAPE_LENGTH,
        tape.len() == TAPE_LENGTH,
    ensures
        n >= m,
        ({
            let start = State { ip: 0, pointer, tape };
            let plain = flat(froms);
            let rewritten = flat(tos);
            status(plain, run(plain, start, n)) == Status::PointerOutOfBounds || {
                &&& output(plain, start, n) == output(rewritten, start, m)
                &&& status(rewritten, run(rewritten, start, m)) != Status::PointerOutOfBounds
                &&& status(rewritten, run(rewritten, start, m)) == Status::Finished ==> {
                    &&& status(plain, run(plain, start, n)) == Status::Finished
                    &&& run(plain, start, n).pointer == run(rewritten, start, m).pointer
                    &&& run(plain, start, n).tape == run(rewritten, start, m).tape
                }
            }
        }),
{
    let start = State { ip: 0, pointer, tape };
    lemma_start_ends(froms);
    lemma_start_ends(tos);
    assert(related(froms, tos, 0, start, start));
    lemma_simulation_back(froms, tos, 0, start, start, m)
}

/// The optimized program writes nothing that the program does not write.
/// Take a program whose brackets are paired, and any tape and data
/// pointer to start from. Whatever the optimized program has written
/// after `m` steps, the program has written after some `n >= m` steps,
/// unless it has stopped by then because the data pointer would leave
/// the tape. And if the optimized program has run to its end after `m`
/// steps, the program has run to its end after `n` steps, with the same
/// data pointer and the same tape. The optimized program stops for the
/// data pointer only where the program does.
pub proof fn lemma_optimized_writes_nothing_else(
    program: Seq<Instruction>,
    pointer: int,
    tape: Seq<u8>,
    m: nat,
) -> (n: nat)
    requires
        balanced(extended(program)),
        0 <= pointer < TAPE_LENGTH,
        tape.len() == TAPE_LENGTH,
    ensures
        n >= m,
        ({
            let start = State { ip: 0, pointer, tape };
            let plain = extended(program);
            let fast = optimized(program);
            status(plain, run(plain, start, n)) == Status::PointerOutOfBounds || {
                &&& output(plain, start, n) == output(fast, start, m)
                &&& status(fast, run(fast, start, m)) != Status::PointerOutOfBounds
                &&& status(fast, run(fast, start, m)) == Status::Finished ==> {
                    &&& status(plain, run(plain, start, n)) == Status::Finished
                    &&& run(plain, start, n).pointer == run(fast, start, m).pointer
                    &&& run(plain, start, n).tape == run(fast, start, m).tape
                }
            }
        }),
{
    let plain = extended(program);
    let middle = coalesced(plain);
    lemma_coalesced_brackets(plain, 0);
    lemma_dips_is_unmatched_close(plain);
    lemma_dips_is_unmatched_close(middle);
    lemma_runs_aligned(plain);
    lemma_fusion_aligned(middle);
    let n1 = lemma_pass_back(fusion_pieces(middle), fused_pieces(middle), pointer, tape, m);
    lemma_pass_back(runs(plain), flushed_runs(plain), pointer, tape, n1)
}

/// A budget that lets the program run to its end lets the optimized
/// program run to its end. If the program, with its brackets paired, has
/// run to its end after `n` steps, then after any `budget >= n` of steps
/// the optimized program has run to its end as well, has written exactly
/// what the program has written, and has the same data pointer and tape.
pub proof fn lemma_optimized_finishes_alike(
    program: Seq<Instruction>,
    pointer: int,
    tape: Seq<u8>,
    n: nat,
    budget: nat,
)
    requires
        balanced(extended(program)),
        0 <= pointer < TAPE_LENGTH,
        tape.len() == TAPE_LENGTH,
        n <= budget,
        status(
            extended(program),
            run(extended(program), State { ip: 0, pointer, tape }, n),
        ) == Status::Finished,
    ensures
        ({
            let start = State { ip: 0, pointer, tape };
            let plain = extended(program);
            let fast = optimized(program);
            &&& status(fast, run(fast, start, budget)) == Status::Finished
            &&& output(fast, start, budget) == output(plain, start, n)
            &&& run(fast, start, budget).pointer == run(plain, start, n).pointer
            &&& run(fast, start, budget).tape == run(plain, start, n).tape
        }),
{
    let start = State { ip: 0, pointer, tape };
    let fast = optimized(program);
    let m = lemma_optimized_keeps_up(program, pointer, tape, n);
    let rest = (budget - m) as nat;
    lemma_run_split(fast, start, m, rest);
    assert(m + rest == budget);
    lemma_stopped(fast, run(fast, start, m), rest);
    assert(output(fast, start, budget) =~= output(fast, start, m));
}

} // verus!
