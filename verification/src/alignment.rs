//! A program and its rewritten form, cut into pieces that correspond: each
//! piece of the one is kept in the other, or is a run replaced by what it
//! is flushed to, or is the count-down loop replaced by `SetZero`. The
//! brackets of the two programs then correspond as well.

use vstd::prelude::*;
use crate::instructions::{ExtendedInstruction, Instruction};
use crate::jumps::{
    depth, is_close, is_match, is_open, lemma_close_unique, lemma_open_unique,
};
use crate::layout::{
    flat, lemma_flat_index, lemma_flat_locate, lemma_flat_take_monotone, lemma_flat_take_next,
};
use crate::optimizer::{
    flushed, is_cell_step, is_pointer_step, net, same_run, set_zero_pattern,
};
use crate::rewrites::{bracket_free, lemma_bracket_free_depth, lemma_set_zero_neutral};

verus! {

/// A piece that stands in the rewritten program as it is: one instruction.
pub open spec fn kept(from: Seq<ExtendedInstruction>, to: Seq<ExtendedInstruction>) -> bool {
    from.len() == 1 && to == from
}

/// A piece that is one run of steps, with what it is flushed to.
pub open spec fn run_piece(from: Seq<ExtendedInstruction>, to: Seq<ExtendedInstruction>) -> bool {
    &&& from.len() >= 1
    &&& is_cell_step(from[0]) || is_pointer_step(from[0])
    &&& forall|k: int| 0 <= k < from.len() ==> same_run(from[0], #[trigger] from[k])
    &&& to == flushed(Some(from[0]), net(from))
}

/// The count-down loop, with the `SetZero` that it is fused to.
pub open spec fn loop_piece(from: Seq<ExtendedInstruction>, to: Seq<ExtendedInstruction>) -> bool {
    from == set_zero_pattern() && to == seq![ExtendedInstruction::SetZero]
}

/// Two lists of pieces that correspond one to one.
pub open spec fn aligned(
    froms: Seq<Seq<ExtendedInstruction>>,
    tos: Seq<Seq<ExtendedInstruction>>,
) -> bool {
    &&& froms.len() == tos.len()
    &&& forall|i: int|
        0 <= i < froms.len() ==> kept(#[trigger] froms[i], tos[i]) || run_piece(froms[i], tos[i])
            || loop_piece(froms[i], tos[i])
}

/// Where piece `i` starts when the pieces are laid end to end.
pub open spec fn start_of(pieces: Seq<Seq<ExtendedInstruction>>, i: int) -> int {
    flat(pieces.take(i)).len() as int
}

/// The next piece starts where this one ends.
pub proof fn lemma_start_next(pieces: Seq<Seq<ExtendedInstruction>>, i: int)
    requires
        0 <= i < pieces.len(),
    ensures
        start_of(pieces, i + 1) == start_of(pieces, i) + pieces[i].len(),
{
    lemma_flat_take_next(pieces, i);
}

/// Later pieces do not start earlier.
pub proof fn lemma_start_monotone(pieces: Seq<Seq<ExtendedInstruction>>, a: int, b: int)
    requires
        0 <= a <= b <= pieces.len(),
    ensures
        start_of(pieces, a) <= start_of(pieces, b),
{
    lemma_flat_take_monotone(pieces, a, b);
}

/// The first piece starts at zero, and behind the last piece the whole
/// ends.
pub proof fn lemma_start_ends(pieces: Seq<Seq<ExtendedInstruction>>)
    ensures
        start_of(pieces, 0) == 0,
        start_of(pieces, pieces.len() as int) == flat(pieces).len(),
{
    assert(pieces.take(0) =~= Seq::<Seq<ExtendedInstruction>>::empty());
    assert(pieces.take(pieces.len() as int) =~= pieces);
}

/// The instruction `k` of piece `i` stands at `start_of(pieces, i) + k`.
pub proof fn lemma_fetch(pieces: Seq<Seq<ExtendedInstruction>>, i: int, k: int)
    requires
        0 <= i < pieces.len(),
        0 <= k < pieces[i].len(),
    ensures
        0 <= start_of(pieces, i) + k < flat(pieces).len(),
        flat(pieces)[start_of(pieces, i) + k] == pieces[i][k],
{
    lemma_flat_index(pieces, i, k);
}

/// A piece of the program has at least one instruction, and at most one
/// stands for it in the rewritten program.
pub proof fn lemma_piece_sizes(
    froms: Seq<Seq<ExtendedInstruction>>,
    tos: Seq<Seq<ExtendedInstruction>>,
    i: int,
)
    requires
        aligned(froms, tos),
        0 <= i < froms.len(),
    ensures
        froms[i].len() >= 1,
        tos[i].len() <= 1,
        start_of(froms, i + 1) == start_of(froms, i) + froms[i].len(),
        start_of(tos, i + 1) == start_of(tos, i) + tos[i].len(),
        start_of(froms, i + 1) <= flat(froms).len(),
        start_of(tos, i + 1) <= flat(tos).len(),
        0 <= start_of(froms, i),
        0 <= start_of(tos, i),
{
    lemma_start_next(froms, i);
    lemma_start_next(tos, i);
    lemma_start_monotone(froms, i + 1, froms.len() as int);
    lemma_start_monotone(tos, i + 1, tos.len() as int);
    lemma_start_ends(froms);
    lemma_start_ends(tos);
}

/// Pieces of the program start strictly one behind the other.
pub proof fn lemma_source_strict(
    froms: Seq<Seq<ExtendedInstruction>>,
    tos: Seq<Seq<ExtendedInstruction>>,
    a: int,
    b: int,
)
    requires
        aligned(froms, tos),
        0 <= a < b <= froms.len(),
    ensures
        start_of(froms, a) + froms[a].len() <= start_of(froms, b),
        start_of(froms, a) < start_of(froms, b),
{
    lemma_piece_sizes(froms, tos, a);
    lemma_start_monotone(froms, a + 1, b);
}

/// The depth within a stretch of code is the depth in front of it plus the
/// depth within the stretch taken alone.
pub proof fn lemma_depth_segment(
    code: Seq<ExtendedInstruction>,
    at: int,
    piece: Seq<ExtendedInstruction>,
    k: int,
)
    requires
        0 <= at,
        at + piece.len() <= code.len(),
        forall|j: int| 0 <= j < piece.len() ==> code[at + j] == #[trigger] piece[j],
        0 <= k <= piece.len(),
    ensures
        depth(code, at + k) == depth(code, at) + depth(piece, k),
    decreases k,
{
    if k > 0 {
        lemma_depth_segment(code, at, piece, k - 1);
        assert(code[at + (k - 1)] == piece[k - 1]);
    }
}

/// What a run is flushed to holds no bracket.
pub proof fn lemma_run_piece_bracket_free(
    from: Seq<ExtendedInstruction>,
    to: Seq<ExtendedInstruction>,
)
    requires
        run_piece(from, to),
    ensures
        bracket_free(from),
        bracket_free(to),
        to.len() <= 1,
{
    assert forall|k: int| 0 <= k < from.len() implies !is_open(#[trigger] from[k]) && !is_close(
        from[k],
    ) by {
        assert(same_run(from[0], from[k]));
    }
}

/// A piece and what stands for it end on the same depth.
pub proof fn lemma_piece_depth(from: Seq<ExtendedInstruction>, to: Seq<ExtendedInstruction>)
    requires
        kept(from, to) || run_piece(from, to) || loop_piece(from, to),
    ensures
        depth(from, from.len() as int) == depth(to, to.len() as int),
{
    if kept(from, to) {
    } else if run_piece(from, to) {
        lemma_run_piece_bracket_free(from, to);
        lemma_bracket_free_depth(from, from.len() as int);
        lemma_bracket_free_depth(to, to.len() as int);
    } else {
        lemma_set_zero_neutral();
    }
}

/// The stretch of the whole at which piece `i` stands is that piece.
pub proof fn lemma_piece_in_place(pieces: Seq<Seq<ExtendedInstruction>>, i: int)
    requires
        0 <= i < pieces.len(),
    ensures
        0 <= start_of(pieces, i),
        start_of(pieces, i) + pieces[i].len() <= flat(pieces).len(),
        forall|j: int|
            0 <= j < pieces[i].len() ==> flat(pieces)[start_of(pieces, i) + j]
                == #[trigger] pieces[i][j],
{
    lemma_start_next(pieces, i);
    lemma_start_monotone(pieces, i + 1, pieces.len() as int);
    lemma_start_ends(pieces);
    assert forall|j: int| 0 <= j < pieces[i].len() implies flat(pieces)[start_of(pieces, i) + j]
        == #[trigger] pieces[i][j] by {
        lemma_fetch(pieces, i, j);
    }
}

/// Where corresponding pieces start, the two programs have the same
/// depth.
pub proof fn lemma_depth_aligned(
    froms: Seq<Seq<ExtendedInstruction>>,
    tos: Seq<Seq<ExtendedInstruction>>,
    i: int,
)
    requires
        aligned(froms, tos),
        0 <= i <= froms.len(),
    ensures
        depth(flat(froms), start_of(froms, i)) == depth(flat(tos), start_of(tos, i)),
    decreases i,
{
    if i == 0 {
        lemma_start_ends(froms);
        lemma_start_ends(tos);
    } else {
        lemma_depth_aligned(froms, tos, i - 1);
        lemma_piece_in_place(froms, i - 1);
        lemma_piece_in_place(tos, i - 1);
        lemma_depth_segment(
            flat(froms),
            start_of(froms, i - 1),
            froms[i - 1],
            froms[i - 1].len() as int,
        );
        lemma_depth_segment(flat(tos), start_of(tos, i - 1), tos[i - 1], tos[i - 1].len() as int);
        lemma_piece_depth(froms[i - 1], tos[i - 1]);
        lemma_start_next(froms, i - 1);
        lemma_start_next(tos, i - 1);
    }
}

/// In the program, the two brackets of a count-down loop are partners.
pub proof fn lemma_loop_in_place(code: Seq<ExtendedInstruction>, at: int)
    requires
        0 <= at,
        at + 3 <= code.len(),
        forall|j: int| 0 <= j < 3 ==> code[at + j] == #[trigger] set_zero_pattern()[j],
    ensures
        is_match(code, at, at + 2),
        code[at + 1] == ExtendedInstruction::Regular(Instruction::Decrement),
{
    let p = set_zero_pattern();
    lemma_set_zero_neutral();
    assert(depth(p, 0) == 0);
    assert(depth(p, 1) == 1);
    assert(depth(p, 2) == 1);
    assert(depth(p, 3) == 0);
    lemma_depth_segment(code, at, p, 1);
    lemma_depth_segment(code, at, p, 2);
    lemma_depth_segment(code, at, p, 3);
    assert(code[at + 0] == p[0]);
    assert(code[at + 1] == p[1]);
    assert(code[at + 2] == p[2]);
    assert forall|k: int| at < k <= at + 2 implies #[trigger] depth(code, k) > depth(code, at) by {
        if k == at + 1 {
        } else {
            assert(k == at + 2);
        }
    }
}

/// The piece in which the instruction at `index` of the program stands,
/// and how far into it.
pub proof fn lemma_locate(
    froms: Seq<Seq<ExtendedInstruction>>,
    tos: Seq<Seq<ExtendedInstruction>>,
    index: int,
) -> (r: (int, int))
    requires
        aligned(froms, tos),
        0 <= index < flat(froms).len(),
    ensures
        0 <= r.0 < froms.len(),
        0 <= r.1 < froms[r.0].len(),
        start_of(froms, r.0) + r.1 == index,
        flat(froms)[index] == froms[r.0][r.1],
{
    let (i, k) = lemma_flat_locate(froms, index);
    lemma_fetch(froms, i, k);
    (i, k)
}

/// A bracket of a count-down loop piece has its partner in that piece: a
/// piece whose first instruction is that partner can only be the loop
/// piece itself.
proof fn lemma_partner_in_loop(
    froms: Seq<Seq<ExtendedInstruction>>,
    tos: Seq<Seq<ExtendedInstruction>>,
    i: int,
    j: int,
    k: int,
)
    requires
        aligned(froms, tos),
        0 <= i < froms.len(),
        0 <= j < froms.len(),
        loop_piece(froms[j], tos[j]),
        0 <= k < 3,
        is_match(flat(froms), start_of(froms, i), start_of(froms, j) + k) || is_match(
            flat(froms),
            start_of(froms, j) + k,
            start_of(froms, i),
        ),
    ensures
        i == j,
{
    let code = flat(froms);
    let own = start_of(froms, i);
    let at = start_of(froms, j);
    let index = at + k;
    lemma_piece_in_place(froms, j);
    lemma_loop_in_place(code, at);
    assert(code[at + k] == froms[j][k]);
    if k == 0 {
        assert(is_open(code[index]));
        assert(is_match(code, index, own));
        lemma_close_unique(code, index, at + 2, own);
        assert(own == at + 2);
    } else if k == 2 {
        assert(is_close(code[index]));
        assert(is_match(code, own, index));
        lemma_open_unique(code, at, own, index);
        assert(own == at);
    } else {
        assert(!is_open(code[index]) && !is_close(code[index]));
    }
    // no other piece starts within the loop piece
    if i < j {
        lemma_source_strict(froms, tos, i, j);
    } else if j < i {
        lemma_source_strict(froms, tos, j, i);
    }
}

/// The partner of a bracket that starts a kept piece starts a kept piece
/// itself.
pub proof fn lemma_partner_is_kept(
    froms: Seq<Seq<ExtendedInstruction>>,
    tos: Seq<Seq<ExtendedInstruction>>,
    i: int,
    index: int,
) -> (j: int)
    requires
        aligned(froms, tos),
        0 <= i < froms.len(),
        kept(froms[i], tos[i]),
        is_match(flat(froms), start_of(froms, i), index) || is_match(
            flat(froms),
            index,
            start_of(froms, i),
        ),
    ensures
        0 <= j < froms.len(),
        kept(froms[j], tos[j]),
        start_of(froms, j) == index,
{
    let code = flat(froms);
    let (j, k) = lemma_locate(froms, tos, index);
    if run_piece(froms[j], tos[j]) {
        lemma_run_piece_bracket_free(froms[j], tos[j]);
        assert(!is_open(froms[j][k]) && !is_close(froms[j][k]));
        assert(is_open(code[index]) || is_close(code[index]));
        assert(false);
    } else if loop_piece(froms[j], tos[j]) {
        lemma_partner_in_loop(froms, tos, i, j, k);
    }
    assert(kept(froms[j], tos[j]));
    j
}

/// Every length of a prefix of the rewritten program is the start of a
/// piece.
pub proof fn lemma_target_start(
    froms: Seq<Seq<ExtendedInstruction>>,
    tos: Seq<Seq<ExtendedInstruction>>,
    t: int,
) -> (x: int)
    requires
        aligned(froms, tos),
        0 < t <= flat(tos).len(),
    ensures
        0 < x <= tos.len(),
        start_of(tos, x) == t,
        start_of(tos, x - 1) == t - 1,
{
    let (x, k) = lemma_flat_locate(tos, t - 1);
    lemma_piece_sizes(froms, tos, x);
    x + 1
}

/// Partners among the kept brackets of the program are partners in the
/// rewritten program.
pub proof fn lemma_match_aligned(
    froms: Seq<Seq<ExtendedInstruction>>,
    tos: Seq<Seq<ExtendedInstruction>>,
    i: int,
    j: int,
)
    requires
        aligned(froms, tos),
        0 <= i < froms.len(),
        0 <= j < froms.len(),
        kept(froms[i], tos[i]),
        kept(froms[j], tos[j]),
        is_match(flat(froms), start_of(froms, i), start_of(froms, j)),
    ensures
        i < j,
        is_match(flat(tos), start_of(tos, i), start_of(tos, j)),
{
    let a = flat(froms);
    let b = flat(tos);
    if j <= i {
        lemma_start_monotone(froms, j, i);
    }
    lemma_piece_sizes(froms, tos, i);
    lemma_piece_sizes(froms, tos, j);
    lemma_fetch(froms, i, 0);
    lemma_fetch(froms, j, 0);
    lemma_fetch(tos, i, 0);
    lemma_fetch(tos, j, 0);
    lemma_depth_aligned(froms, tos, i);
    lemma_depth_aligned(froms, tos, j + 1);
    lemma_start_monotone(tos, i + 1, j);
    assert forall|t: int| start_of(tos, i) < t <= start_of(tos, j) implies #[trigger] depth(b, t)
        > depth(b, start_of(tos, i)) by {
        let x = lemma_target_start(froms, tos, t);
        if x <= i {
            lemma_start_monotone(tos, x, i);
        }
        if x > j {
            lemma_start_monotone(tos, j, x - 1);
        }
        lemma_depth_aligned(froms, tos, x);
        lemma_source_strict(froms, tos, i, x);
        lemma_start_monotone(froms, x, j);
        assert(depth(a, start_of(froms, x)) > depth(a, start_of(froms, i)));
    }
}

} // verus!
