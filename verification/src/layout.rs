//! Sequences laid end to end, and where each of them comes to stand.

use vstd::prelude::*;

verus! {

/// Pieces laid end to end.
pub open spec fn flat<T>(pieces: Seq<Seq<T>>) -> Seq<T>
    decreases pieces.len(),
{
    if pieces.len() == 0 {
        Seq::empty()
    } else {
        flat(pieces.drop_last()) + pieces.last()
    }
}

/// Taking one more piece adds its length.
pub proof fn lemma_flat_take_next<T>(pieces: Seq<Seq<T>>, k: int)
    requires
        0 <= k < pieces.len(),
    ensures
        flat(pieces.take(k + 1)) == flat(pieces.take(k)) + pieces[k],
{
    assert(pieces.take(k + 1).drop_last() =~= pieces.take(k));
}

/// More pieces are not shorter.
pub proof fn lemma_flat_take_monotone<T>(pieces: Seq<Seq<T>>, a: int, b: int)
    requires
        0 <= a <= b <= pieces.len(),
    ensures
        flat(pieces.take(a)).len() <= flat(pieces.take(b)).len(),
    decreases b - a,
{
    if a < b {
        lemma_flat_take_monotone(pieces, a, b - 1);
        lemma_flat_take_next(pieces, b - 1);
    }
}

/// The item `t` of piece `k` stands behind all the pieces before it.
pub proof fn lemma_flat_index<T>(pieces: Seq<Seq<T>>, k: int, t: int)
    requires
        0 <= k < pieces.len(),
        0 <= t < pieces[k].len(),
    ensures
        flat(pieces.take(k)).len() + t < flat(pieces).len(),
        flat(pieces)[flat(pieces.take(k)).len() + t] == pieces[k][t],
    decreases pieces.len(),
{
    let n = pieces.len() as int;
    assert(pieces.take(n) =~= pieces);
    if k == n - 1 {
        assert(pieces.take(k) =~= pieces.drop_last());
    } else {
        let shorter = pieces.drop_last();
        assert(shorter.take(k) =~= pieces.take(k));
        lemma_flat_index(shorter, k, t);
    }
}

/// A sequence that holds, piece by piece, the items of `pieces` is
/// their concatenation.
pub proof fn lemma_flat_is<T>(bytes: Seq<T>, pieces: Seq<Seq<T>>)
    requires
        bytes.len() == flat(pieces).len(),
        forall|k: int, t: int|
            0 <= k < pieces.len() && 0 <= t < pieces[k].len() ==> bytes[flat(pieces.take(k)).len()
                + t] == #[trigger] pieces[k][t],
    ensures
        bytes == flat(pieces),
{
    assert forall|j: int| 0 <= j < bytes.len() implies bytes[j] == flat(pieces)[j] by {
        let (k, t) = lemma_flat_locate(pieces, j);
        lemma_flat_index(pieces, k, t);
        assert(bytes[flat(pieces.take(k)).len() + t] == pieces[k][t]);
    }
    assert(bytes =~= flat(pieces));
}

/// Every item of a concatenation belongs to one of its pieces.
pub proof fn lemma_flat_locate<T>(pieces: Seq<Seq<T>>, j: int) -> (r: (int, int))
    requires
        0 <= j < flat(pieces).len(),
    ensures
        0 <= r.0 < pieces.len(),
        0 <= r.1 < pieces[r.0].len(),
        flat(pieces.take(r.0)).len() + r.1 == j,
    decreases pieces.len(),
{
    let n = pieces.len() as int;
    let shorter = pieces.drop_last();
    if j >= flat(shorter).len() {
        assert(pieces.take(n - 1) =~= shorter);
        (n - 1, j - flat(shorter).len())
    } else {
        let (k, t) = lemma_flat_locate(shorter, j);
        assert(shorter.take(k) =~= pieces.take(k));
        (k, t)
    }
}

/// Laying out two lists of pieces one behind the other lays their
/// concatenations one behind the other.
pub proof fn lemma_flat_concat<T>(a: Seq<Seq<T>>, b: Seq<Seq<T>>)
    ensures
        flat(a + b) == flat(a) + flat(b),
    decreases b.len(),
{
    if b.len() == 0 {
        assert(a + b =~= a);
        assert(flat(a) + flat(b) =~= flat(a));
    } else {
        assert((a + b).drop_last() =~= a + b.drop_last());
        lemma_flat_concat(a, b.drop_last());
        assert(flat(a + b) =~= flat(a) + flat(b));
    }
}

/// One piece laid out is that piece.
pub proof fn lemma_flat_one<T>(piece: Seq<T>)
    ensures
        flat(seq![piece]) == piece,
{
    assert(seq![piece].drop_last() =~= Seq::<Seq<T>>::empty());
    assert(flat(Seq::<Seq<T>>::empty()) =~= Seq::<T>::empty());
    assert(flat(seq![piece]) =~= piece);
}

} // verus!
