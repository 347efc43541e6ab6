//! The jump resolver: one forward scan with a stack of pending opening
//! brackets, which pairs every opening bracket with its closing bracket or
//! reports the first bracket that has no partner.

use std::collections::HashMap;
use vstd::prelude::*;
use crate::instructions::{ExtendedInstruction, Instruction};

verus! {

broadcast use vstd::std_specs::hash::group_hash_axioms;

/// A bracket without a partner.
#[derive(Debug, Clone, Copy, PartialEq, Eq, Structural)]
pub enum BracketMismatch {
    /// An opening bracket that is never closed.
    UnmatchedOpen,
    /// A closing bracket with no opening bracket pending.
    UnmatchedClose,
}

/// Whether the instruction is an opening bracket.
pub open spec fn is_open(i: ExtendedInstruction) -> bool {
    i == ExtendedInstruction::Regular(Instruction::JumpForward)
}

/// Whether the instruction is a closing bracket.
pub open spec fn is_close(i: ExtendedInstruction) -> bool {
    i == ExtendedInstruction::Regular(Instruction::JumpBackwards)
}

/// The nesting depth after the first `k` instructions: opening brackets
/// minus closing brackets among them.
pub open spec fn depth(s: Seq<ExtendedInstruction>, k: int) -> int
    decreases k,
{
    if k <= 0 {
        0
    } else if is_open(s[k - 1]) {
        depth(s, k - 1) + 1
    } else if is_close(s[k - 1]) {
        depth(s, k - 1) - 1
    } else {
        depth(s, k - 1)
    }
}

/// Some closing bracket comes with no opening bracket pending.
pub open spec fn has_unmatched_close(s: Seq<ExtendedInstruction>) -> bool {
    exists|k: int| 0 <= k <= s.len() && #[trigger] depth(s, k) < 0
}

/// Every closing bracket has its partner, but some opening bracket is left
/// open at the end.
pub open spec fn has_unmatched_open(s: Seq<ExtendedInstruction>) -> bool {
    !has_unmatched_close(s) && depth(s, s.len() as int) > 0
}

/// Every bracket has its partner.
pub open spec fn balanced(s: Seq<ExtendedInstruction>) -> bool {
    !has_unmatched_close(s) && depth(s, s.len() as int) == 0
}

/// The bracket at `open` and the bracket at `close` are partners: the depth
/// stays above that of `open` from just behind it up to `close`, and comes
/// back to it with `close`.
pub open spec fn is_match(s: Seq<ExtendedInstruction>, open: int, close: int) -> bool {
    &&& 0 <= open < close < s.len()
    &&& is_open(s[open])
    &&& is_close(s[close])
    &&& depth(s, close + 1) == depth(s, open)
    &&& forall|k: int| open < k <= close ==> #[trigger] depth(s, k) > depth(s, open)
}

/// The closing partner of the opening bracket at `open`.
pub open spec fn matching_close(s: Seq<ExtendedInstruction>, open: int) -> int {
    choose|close: int| is_match(s, open, close)
}

/// The opening partner of the closing bracket at `close`.
pub open spec fn matching_open(s: Seq<ExtendedInstruction>, close: int) -> int {
    choose|open: int| is_match(s, open, close)
}

/// An opening bracket has one closing partner at most.
pub proof fn lemma_close_unique(s: Seq<ExtendedInstruction>, open: int, c1: int, c2: int)
    requires
        is_match(s, open, c1),
        is_match(s, open, c2),
    ensures
        c1 == c2,
{
    if c1 < c2 {
        assert(depth(s, c1 + 1) > depth(s, open));
    } else if c2 < c1 {
        assert(depth(s, c2 + 1) > depth(s, open));
    }
}

/// A closing bracket has one opening partner at most.
pub proof fn lemma_open_unique(s: Seq<ExtendedInstruction>, o1: int, o2: int, close: int)
    requires
        is_match(s, o1, close),
        is_match(s, o2, close),
    ensures
        o1 == o2,
{
    if o1 < o2 {
        assert(depth(s, o2) > depth(s, o1));
        assert(depth(s, o2 + 1) > depth(s, o2));
    } else if o2 < o1 {
        assert(depth(s, o1) > depth(s, o2));
        assert(depth(s, o1 + 1) > depth(s, o1));
    }
}

proof fn lemma_find_close(s: Seq<ExtendedInstruction>, open: int, k: int) -> (close: int)
    requires
        balanced(s),
        0 <= open < k <= s.len(),
        is_open(s[open]),
        forall|j: int| open < j <= k ==> #[trigger] depth(s, j) > depth(s, open),
    ensures
        is_match(s, open, close),
    decreases s.len() - k,
{
    assert(depth(s, open) >= 0);
    if k == s.len() {
        assert(depth(s, k) > depth(s, open));
        arbitrary()
    } else if depth(s, k + 1) > depth(s, open) {
        assert forall|j: int| open < j <= k + 1 implies #[trigger] depth(s, j) > depth(
            s,
            open,
        ) by {
            if j <= k {
                assert(depth(s, j) > depth(s, open));
            }
        }
        lemma_find_close(s, open, k + 1)
    } else {
        assert(depth(s, k) > depth(s, open));
        k
    }
}

proof fn lemma_find_open(s: Seq<ExtendedInstruction>, close: int, k: int) -> (open: int)
    requires
        balanced(s),
        0 <= k <= close < s.len(),
        is_close(s[close]),
        forall|j: int| k < j <= close ==> #[trigger] depth(s, j) > depth(s, close + 1),
    ensures
        is_match(s, open, close),
    decreases k,
{
    assert(depth(s, close + 1) >= 0);
    assert(depth(s, close) > depth(s, close + 1));
    if depth(s, k) > depth(s, close + 1) {
        assert(k > 0);
        assert forall|j: int| k - 1 < j <= close implies #[trigger] depth(s, j) > depth(
            s,
            close + 1,
        ) by {
            if j > k {
                assert(depth(s, j) > depth(s, close + 1));
            }
        }
        lemma_find_open(s, close, k - 1)
    } else {
        assert(k < close);
        assert(depth(s, k + 1) > depth(s, close + 1));
        k
    }
}

/// In a balanced sequence every opening bracket has its closing partner.
pub proof fn lemma_open_has_match(s: Seq<ExtendedInstruction>, open: int)
    requires
        balanced(s),
        0 <= open < s.len(),
        is_open(s[open]),
    ensures
        is_match(s, open, matching_close(s, open)),
{
    assert(depth(s, open + 1) > depth(s, open));
    let c = lemma_find_close(s, open, open + 1);
}

/// In a balanced sequence every closing bracket has its opening partner.
pub proof fn lemma_close_has_match(s: Seq<ExtendedInstruction>, close: int)
    requires
        balanced(s),
        0 <= close < s.len(),
        is_close(s[close]),
    ensures
        is_match(s, matching_open(s, close), close),
{
    let o = lemma_find_open(s, close, close);
}

/// The resolved jumps: for each opening bracket the position of its closing
/// partner, and for each closing bracket the position of its opening partner.
/// A position is whatever unit the caller counts in: an instruction index,
/// or an offset into generated code.
pub struct JumpMap {
    forward: HashMap<usize, usize>,
    backward: HashMap<usize, usize>,
}

/// Positions that grow from each instruction to the next, one for each
/// instruction.
pub open spec fn positions_ordered(s: Seq<ExtendedInstruction>, positions: Seq<usize>) -> bool {
    &&& positions.len() == s.len()
    &&& forall|i: int, j: int| 0 <= i < j < positions.len() ==> positions[i] < positions[j]
}

impl JumpMap {
    /// From the position of each opening bracket to that of its partner.
    pub closed spec fn forward(&self) -> Map<usize, usize> {
        self.forward@
    }

    /// From the position of each closing bracket to that of its partner.
    pub closed spec fn backward(&self) -> Map<usize, usize> {
        self.backward@
    }

    /// The map holds the partners among the first `upto` instructions of
    /// `s`, each bracket under its position, and nothing else.
    pub open spec fn resolves_prefix(
        &self,
        s: Seq<ExtendedInstruction>,
        positions: Seq<usize>,
        upto: int,
    ) -> bool {
        &&& forall|o: int, c: int|
            #[trigger] is_match(s, o, c) && c < upto ==> {
                &&& self.forward().contains_key(positions[o])
                &&& self.forward()[positions[o]] == positions[c]
                &&& self.backward().contains_key(positions[c])
                &&& self.backward()[positions[c]] == positions[o]
            }
        &&& forall|key: usize| #[trigger]
            self.forward().contains_key(key) ==> exists|o: int, c: int|
                #[trigger] is_match(s, o, c) && c < upto && positions[o] == key
        &&& forall|key: usize| #[trigger]
            self.backward().contains_key(key) ==> exists|o: int, c: int|
                #[trigger] is_match(s, o, c) && c < upto && positions[c] == key
    }

    /// The map holds exactly the partners of `s`, each bracket under its
    /// position.
    pub open spec fn resolves(&self, s: Seq<ExtendedInstruction>, positions: Seq<usize>) -> bool {
        self.resolves_prefix(s, positions, s.len() as int)
    }

    /// A map without any jump.
    pub fn new() -> (jumps: JumpMap)
        ensures
            jumps.forward() == Map::<usize, usize>::empty(),
            jumps.backward() == Map::<usize, usize>::empty(),
    {
        JumpMap { forward: HashMap::new(), backward: HashMap::new() }
    }

    /// The position of the closing partner of the opening bracket at `open`.
    pub fn close_of(&self, open: usize) -> (r: Option<usize>)
        ensures
            r == (if self.forward().contains_key(open) {
                Some(self.forward()[open])
            } else {
                None
            }),
    {
        match self.forward.get(&open) {
            Some(close) => Some(*close),
            None => None,
        }
    }

    /// The position of the opening partner of the closing bracket at `close`.
    pub fn open_of(&self, close: usize) -> (r: Option<usize>)
        ensures
            r == (if self.backward().contains_key(close) {
                Some(self.backward()[close])
            } else {
                None
            }),
    {
        match self.backward.get(&close) {
            Some(open) => Some(*open),
            None => None,
        }
    }

    /// Forgets every jump.
    pub fn clear(&mut self)
        ensures
            final(self).forward() == Map::<usize, usize>::empty(),
            final(self).backward() == Map::<usize, usize>::empty(),
    {
        self.forward.clear();
        self.backward.clear();
    }
}

/// The three verdicts on a sequence exclude each other, and one of them
/// holds.
pub proof fn lemma_bracket_verdicts(s: Seq<ExtendedInstruction>)
    ensures
        balanced(s) || has_unmatched_open(s) || has_unmatched_close(s),
        !(balanced(s) && has_unmatched_open(s)),
        !(balanced(s) && has_unmatched_close(s)),
        !(has_unmatched_open(s) && has_unmatched_close(s)),
{
    if !has_unmatched_close(s) {
        assert(depth(s, s.len() as int) >= 0);
    }
}

/// Pairs the brackets of `instructions`, each named by its position. The
/// scan keeps the positions of the pending opening brackets on a stack; a
/// closing bracket takes the last of them as its partner.
///
/// A closing bracket that finds the stack empty ends the scan with
/// `UnmatchedClose`; opening brackets left on the stack at the end give
/// `UnmatchedOpen`.
pub fn resolve_jumps_at(instructions: &[ExtendedInstruction], positions: &[usize]) -> (r: Result<
    JumpMap,
    BracketMismatch,
>)
    requires
        positions_ordered(instructions@, positions@),
    ensures
        match r {
            Ok(jumps) => balanced(instructions@) && jumps.resolves(instructions@, positions@),
            Err(BracketMismatch::UnmatchedClose) => has_unmatched_close(instructions@),
            Err(BracketMismatch::UnmatchedOpen) => has_unmatched_open(instructions@),
        },
{
    let ghost s = instructions@;
    let ghost pos = positions@;
    let mut jumps = JumpMap::new();
    let mut pending: Vec<usize> = Vec::new();
    let ghost mut opens: Seq<int> = Seq::empty();
    let mut index: usize = 0;
    while index < instructions.len()
        invariant
            s == instructions@,
            pos == positions@,
            positions_ordered(s, pos),
            index <= s.len(),
            forall|k: int| 0 <= k <= index ==> #[trigger] depth(s, k) >= 0,
            opens.len() == pending@.len(),
            opens.len() == depth(s, index as int),
            forall|d: int|
                #![trigger opens[d]]
                0 <= d < opens.len() ==> {
                    &&& 0 <= opens[d] < index
                    &&& is_open(s[opens[d]])
                    &&& depth(s, opens[d]) == d
                    &&& pending@[d] == pos[opens[d]]
                    &&& forall|k: int| opens[d] < k <= index ==> #[trigger] depth(s, k) > d
                },
            jumps.resolves_prefix(s, pos, index as int),
        decreases s.len() - index,
    {
        let ghost i = index as int;
        match instructions[index] {
            ExtendedInstruction::Regular(Instruction::JumpForward) => {
                pending.push(positions[index]);
                proof {
                    let old_opens = opens;
                    opens = opens.push(i);
                    assert forall|d: int| #![trigger opens[d]] 0 <= d < opens.len() implies {
                        &&& 0 <= opens[d] < i + 1
                        &&& is_open(s[opens[d]])
                        &&& depth(s, opens[d]) == d
                        &&& pending@[d] == pos[opens[d]]
                        &&& forall|k: int| opens[d] < k <= i + 1 ==> #[trigger] depth(s, k) > d
                    } by {
                        if d < old_opens.len() {
                            assert(opens[d] == old_opens[d]);
                        }
                    }
                    assert forall|o: int, c: int| #[trigger] is_match(s, o, c) && c < i + 1 implies c
                        < i by {}
                }
            },
            ExtendedInstruction::Regular(Instruction::JumpBackwards) => {
                match pending.pop() {
                    None => {
                        assert(depth(s, i + 1) < 0);
                        return Err(BracketMismatch::UnmatchedClose);
                    },
                    Some(open_position) => {
                        let ghost before = jumps;
                        let ghost o = opens.last();
                        let close_position = positions[index];
                        jumps.forward.insert(open_position, close_position);
                        jumps.backward.insert(close_position, open_position);
                        proof {
                            let old_opens = opens;
                            opens = opens.drop_last();
                            assert(old_opens[old_opens.len() - 1] == o);
                            assert(is_match(s, o, i));
                            assert forall|d: int| #![trigger opens[d]] 0 <= d < opens.len() implies {
                                &&& 0 <= opens[d] < i + 1
                                &&& is_open(s[opens[d]])
                                &&& depth(s, opens[d]) == d
                                &&& pending@[d] == pos[opens[d]]
                                &&& forall|k: int|
                                    opens[d] < k <= i + 1 ==> #[trigger] depth(s, k) > d
                            } by {
                                assert(opens[d] == old_opens[d]);
                            }
                            assert forall|o2: int, c2: int| #[trigger]
                                is_match(s, o2, c2) && c2 < i + 1 implies {
                                &&& jumps.forward().contains_key(pos[o2])
                                &&& jumps.forward()[pos[o2]] == pos[c2]
                                &&& jumps.backward().contains_key(pos[c2])
                                &&& jumps.backward()[pos[c2]] == pos[o2]
                            } by {
                                if c2 == i {
                                    lemma_open_unique(s, o, o2, i);
                                } else {
                                    if o2 == o {
                                        lemma_close_unique(s, o, i, c2);
                                    }
                                    assert(before.forward().contains_key(pos[o2]));
                                    assert(o2 < o ==> pos[o2] < pos[o]);
                                    assert(o < o2 ==> pos[o] < pos[o2]);
                                    assert(pos[c2] < pos[i]);
                                }
                            }
                            assert forall|key: usize| #[trigger]
                                jumps.forward().contains_key(key) implies exists|o2: int, c2: int|
                                #[trigger] is_match(s, o2, c2) && c2 < i + 1 && pos[o2] == key by {
                                if key == pos[o] {
                                    assert(is_match(s, o, i) && i < i + 1 && pos[o] == key);
                                } else {
                                    assert(before.forward().contains_key(key));
                                    let (o2, c2) = choose|o2: int, c2: int|
                                        #[trigger] is_match(s, o2, c2) && c2 < i && pos[o2] == key;
                                    assert(is_match(s, o2, c2) && c2 < i + 1 && pos[o2] == key);
                                }
                            }
                            assert forall|key: usize| #[trigger]
                                jumps.backward().contains_key(key) implies exists|o2: int, c2: int|
                                #[trigger] is_match(s, o2, c2) && c2 < i + 1 && pos[c2] == key by {
                                if key == pos[i] {
                                    assert(is_match(s, o, i) && i < i + 1 && pos[i] == key);
                                } else {
                                    assert(before.backward().contains_key(key));
                                    let (o2, c2) = choose|o2: int, c2: int|
                                        #[trigger] is_match(s, o2, c2) && c2 < i && pos[c2] == key;
                                    assert(is_match(s, o2, c2) && c2 < i + 1 && pos[c2] == key);
                                }
                            }
                        }
                    },
                }
            },
            _ => {
                proof {
                    assert forall|o: int, c: int| #[trigger] is_match(s, o, c) && c < i + 1 implies c
                        < i by {}
                }
            },
        }
        index += 1;
    }
    if pending.len() > 0 {
        Err(BracketMismatch::UnmatchedOpen)
    } else {
        Ok(jumps)
    }
}

/// Pairs the brackets of `instructions`, each named by its index.
pub fn resolve_jumps(instructions: &[ExtendedInstruction]) -> (r: Result<JumpMap, BracketMismatch>)
    ensures
        match r {
            Ok(jumps) => balanced(instructions@) && jumps.resolves(
                instructions@,
                index_positions(instructions@.len()),
            ),
            Err(BracketMismatch::UnmatchedClose) => has_unmatched_close(instructions@),
            Err(BracketMismatch::UnmatchedOpen) => has_unmatched_open(instructions@),
        },
{
    let mut positions: Vec<usize> = Vec::new();
    let mut index: usize = 0;
    while index < instructions.len()
        invariant
            index <= instructions.len(),
            positions@ == index_positions(index as nat),
        decreases instructions.len() - index,
    {
        positions.push(index);
        index += 1;
        assert(positions@ =~= index_positions(index as nat));
    }
    resolve_jumps_at(instructions, positions.as_slice())
}

/// The positions that count in instructions: each index stands for itself.
pub open spec fn index_positions(len: nat) -> Seq<usize> {
    Seq::new(len, |i: int| i as usize)
}

} // verus!
