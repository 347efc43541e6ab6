//! The rewritten program against the program: piece by piece, the two go
//! through the same states and write the same bytes.

use vstd::prelude::*;
use crate::alignment::{
    aligned, kept, lemma_loop_in_place, lemma_match_aligned, lemma_partner_is_kept,
    lemma_piece_in_place, lemma_piece_sizes, lemma_start_ends, loop_piece, run_piece, start_of,
};
use crate::equivalence::{lemma_count_down, lemma_run_one, lemma_run_split, lemma_stopped};
use crate::instructions::{ExtendedInstruction, Instruction};
use crate::jumps::{
    balanced, is_close, is_match, is_open, lemma_close_has_match, lemma_close_unique,
    lemma_open_has_match, lemma_open_unique, matching_close, matching_open,
};
use crate::layout::flat;
use crate::machine::{
    cell_after, output, pointer_after, run, status, step, valid_state, written, State, Status,
    TAPE_LENGTH,
};
use crate::optimizer::{
    flushed, is_cell_step, is_pointer_step, net, same_run, step_value,
};

verus! {

/// The state behind the first `k` instructions of a run of steps, if the
/// data pointer stayed on the tape.
pub open spec fn after_run(a: State, f: Seq<ExtendedInstruction>, k: int) -> State {
    let d = net(f.take(k));
    State {
        ip: a.ip + k,
        pointer: if is_pointer_step(f[0]) {
            a.pointer + d
        } else {
            a.pointer
        },
        tape: if is_cell_step(f[0]) {
            a.tape.update(a.pointer, ((a.tape[a.pointer] + d) % 256) as u8)
        } else {
            a.tape
        },
    }
}

/// A machine that enters a run of steps writes nothing in it, and either
/// stops within it because the data pointer would leave the tape, or has,
/// after `k` of its instructions, moved the pointer or changed the cell by
/// the count of those instructions.
pub proof fn lemma_straight_run(
    code: Seq<ExtendedInstruction>,
    a: State,
    f: Seq<ExtendedInstruction>,
    k: nat,
)
    requires
        valid_state(code, a),
        a.ip + f.len() <= code.len(),
        forall|j: int| 0 <= j < f.len() ==> code[a.ip + j] == #[trigger] f[j],
        f.len() >= 1,
        is_cell_step(f[0]) || is_pointer_step(f[0]),
        forall|j: int| 0 <= j < f.len() ==> same_run(f[0], #[trigger] f[j]),
        k <= f.len(),
    ensures
        output(code, a, k) == Seq::<u8>::empty(),
        status(code, run(code, a, k)) == Status::PointerOutOfBounds || (run(code, a, k)
            == after_run(a, f, k as int) && valid_state(code, after_run(a, f, k as int))),
    decreases k,
{
    if k == 0 {
        assert(f.take(0) =~= Seq::<ExtendedInstruction>::empty());
        assert(after_run(a, f, 0).tape =~= a.tape);
    } else {
        let before = (k - 1) as nat;
        lemma_straight_run(code, a, f, before);
        lemma_run_split(code, a, before, 1);
        let e = run(code, a, before);
        if status(code, e) == Status::PointerOutOfBounds {
            lemma_stopped(code, e, 1);
        } else {
            let x = f[before as int];
            assert(code[a.ip + before] == x);
            assert(same_run(f[0], x));
            assert(f.take(k as int).drop_last() =~= f.take(before as int));
            assert(net(f.take(k as int)) == net(f.take(before as int)) + step_value(x));
            if status(code, e) == Status::Running {
                lemma_run_one(code, e, 1);
                let next = step(code, e);
                assert(written(code, e).is_none());
                assert(next.tape =~= after_run(a, f, k as int).tape);
                assert(next == after_run(a, f, k as int));
            } else {
                lemma_stopped(code, e, 1);
            }
        }
        assert(output(code, a, k) =~= Seq::<u8>::empty());
    }
}

/// The machine of the program at the start of piece `i`, the machine of
/// the rewritten program at the start of what stands for that piece, and
/// the same data pointer and tape in both.
pub open spec fn related(
    froms: Seq<Seq<ExtendedInstruction>>,
    tos: Seq<Seq<ExtendedInstruction>>,
    i: int,
    a: State,
    b: State,
) -> bool {
    &&& 0 <= i <= froms.len()
    &&& a.ip == start_of(froms, i)
    &&& b.ip == start_of(tos, i)
    &&& a.pointer == b.pointer
    &&& a.tape == b.tape
    &&& valid_state(flat(froms), a)
}

/// The one instruction that a run of cell steps is flushed to changes the
/// current cell by the count of the run, modulo 256.
pub proof fn lemma_flushed_cell(first: ExtendedInstruction, d: int, cell: u8)
    requires
        is_cell_step(first),
        flushed(Some(first), d).len() == 1,
    ensures
        ({
            let x = flushed(Some(first), d)[0];
            &&& !is_open(x)
            &&& !is_close(x)
            &&& x != ExtendedInstruction::Regular(Instruction::Output)
            &&& forall|pointer: int| pointer_after(x, pointer) == pointer
            &&& cell_after(x, cell) == ((cell + d) % 256) as u8
        }),
{
    if d > 1 {
        let count = (d % 256) as u8;
        assert(count == d % 256);
        vstd::arithmetic::div_mod::lemma_add_mod_noop_right(cell as int, d, 256);
        assert(flushed(Some(first), d)[0] == ExtendedInstruction::Add(count));
    } else if d < -1 {
        let count = ((-d) % 256) as u8;
        assert(count == (-d) % 256);
        vstd::arithmetic::div_mod::lemma_sub_mod_noop_right(cell as int, -d, 256);
        assert(cell - (-d) == cell + d);
        assert(flushed(Some(first), d)[0] == ExtendedInstruction::Sub(count));
    } else if d == 1 {
        assert(flushed(Some(first), d)[0] == ExtendedInstruction::Regular(Instruction::Increment));
    } else {
        assert(d == -1);
        assert(flushed(Some(first), d)[0] == ExtendedInstruction::Regular(Instruction::Decrement));
    }
}

/// The one instruction that a run of steps is flushed to is no bracket and
/// writes nothing, whatever the count.
pub proof fn lemma_flushed_silent(first: ExtendedInstruction, d: int)
    requires
        is_cell_step(first) || is_pointer_step(first),
        flushed(Some(first), d).len() == 1,
    ensures
        ({
            let x = flushed(Some(first), d)[0];
            &&& !is_open(x)
            &&& !is_close(x)
            &&& x != ExtendedInstruction::Regular(Instruction::Output)
        }),
{
}

/// The one instruction that a run of pointer steps is flushed to moves
/// the data pointer by the count of the run, where that count fits the 32
/// bits of a shift. A run that keeps the data pointer on the tape has
/// such a count: the tape has 30,000 cells.
pub proof fn lemma_flushed_pointer(first: ExtendedInstruction, d: int, pointer: int)
    requires
        is_pointer_step(first),
        -0x1_0000_0000 < d < 0x1_0000_0000,
        flushed(Some(first), d).len() == 1,
    ensures
        ({
            let x = flushed(Some(first), d)[0];
            &&& !is_open(x)
            &&& !is_close(x)
            &&& x != ExtendedInstruction::Regular(Instruction::Output)
            &&& pointer_after(x, pointer) == pointer + d
            &&& forall|cell: u8| cell_after(x, cell) == cell
        }),
{
    if d > 1 {
        let count = (d % 0x1_0000_0000) as u32;
        assert(count == d);
        assert(flushed(Some(first), d)[0] == ExtendedInstruction::JumpRight(count));
    } else if d < -1 {
        let count = ((-d) % 0x1_0000_0000) as u32;
        assert(count == -d);
        assert(flushed(Some(first), d)[0] == ExtendedInstruction::JumpLeft(count));
    } else if d == 1 {
        assert(flushed(Some(first), d)[0] == ExtendedInstruction::Regular(Instruction::MoveRight));
    } else {
        assert(d == -1);
        assert(flushed(Some(first), d)[0] == ExtendedInstruction::Regular(Instruction::MoveLeft));
    }
}

/// A run of steps against what it is flushed to. Neither writes anything.
/// The run stops because the data pointer would leave the tape, or both
/// arrive behind the piece with the same pointer and tape.
pub proof fn lemma_run_piece(
    froms: Seq<Seq<ExtendedInstruction>>,
    tos: Seq<Seq<ExtendedInstruction>>,
    i: int,
    a: State,
    b: State,
)
    requires
        aligned(froms, tos),
        0 <= i < froms.len(),
        related(froms, tos, i, a, b),
        run_piece(froms[i], tos[i]),
    ensures
        output(flat(froms), a, froms[i].len()) == Seq::<u8>::empty(),
        output(flat(tos), b, tos[i].len()) == Seq::<u8>::empty(),
        status(flat(froms), run(flat(froms), a, froms[i].len())) == Status::PointerOutOfBounds
            || related(
            froms,
            tos,
            i + 1,
            run(flat(froms), a, froms[i].len()),
            run(flat(tos), b, tos[i].len()),
        ),
{
    let code_a = flat(froms);
    let code_b = flat(tos);
    let f = froms[i];
    let t = tos[i];
    let len = f.len();
    lemma_piece_in_place(froms, i);
    lemma_piece_in_place(tos, i);
    lemma_piece_sizes(froms, tos, i);
    lemma_straight_run(code_a, a, f, len);
    let a2 = run(code_a, a, len);
    assert(f.take(len as int) =~= f);
    let d = net(f);
    if t.len() == 0 {
        if status(code_a, a2) != Status::PointerOutOfBounds {
            assert(d == 0);
            assert(a2.tape =~= a.tape);
        }
    } else {
        let x = t[0];
        assert(code_b[b.ip + 0] == x);
        lemma_flushed_silent(f[0], d);
        if status(code_a, a2) != Status::PointerOutOfBounds {
            assert(a2 == after_run(a, f, len as int));
            assert(valid_state(code_a, a2));
            if is_cell_step(f[0]) {
                lemma_flushed_cell(f[0], d, b.tape[b.pointer]);
            } else {
                // the pointer started on the tape and is on it again
                assert(-TAPE_LENGTH < d < TAPE_LENGTH);
                lemma_flushed_pointer(f[0], d, b.pointer);
            }
            assert(pointer_after(x, b.pointer) == a2.pointer);
            assert(status(code_b, b) == Status::Running);
            lemma_run_one(code_b, b, 1);
            let b2 = step(code_b, b);
            assert(cell_after(x, b.tape[b.pointer]) == a2.tape[a.pointer]);
            assert(b2.tape =~= a2.tape);
            assert(run(code_b, b, 1) == b2);
        } else {
            // the rewritten program may not run here, but then it writes nothing either
            if status(code_b, b) == Status::Running {
                lemma_run_one(code_b, b, 1);
            } else {
                lemma_stopped(code_b, b, 1);
            }
        }
        assert(written(code_b, b).is_none());
        assert(output(code_b, b, 1) =~= Seq::<u8>::empty());
    }
}

/// The count-down loop against `SetZero`: neither writes anything, and
/// both arrive behind the piece with the current cell at zero.
pub proof fn lemma_loop_piece(
    froms: Seq<Seq<ExtendedInstruction>>,
    tos: Seq<Seq<ExtendedInstruction>>,
    i: int,
    a: State,
    b: State,
)
    requires
        aligned(froms, tos),
        0 <= i < froms.len(),
        related(froms, tos, i, a, b),
        loop_piece(froms[i], tos[i]),
    ensures
        output(flat(froms), a, (1 + 2 * a.tape[a.pointer]) as nat) == Seq::<u8>::empty(),
        output(flat(tos), b, 1) == Seq::<u8>::empty(),
        related(
            froms,
            tos,
            i + 1,
            run(flat(froms), a, (1 + 2 * a.tape[a.pointer]) as nat),
            run(flat(tos), b, 1),
        ),
{
    let code_a = flat(froms);
    let code_b = flat(tos);
    lemma_piece_in_place(froms, i);
    lemma_piece_in_place(tos, i);
    lemma_piece_sizes(froms, tos, i);
    lemma_loop_in_place(code_a, a.ip);
    lemma_count_down(code_a, a, a.ip);
    assert(code_b[b.ip + 0] == tos[i][0]);
    assert(status(code_b, b) == Status::Running);
    lemma_run_one(code_b, b, 1);
    assert(written(code_b, b).is_none());
    assert(output(code_b, b, 1) =~= Seq::<u8>::empty());
}

/// A rewritten piece against what stands for it. The program takes `cost`
/// steps through the piece, the rewritten program one step at most, and
/// neither writes anything.
pub proof fn lemma_rewritten_piece(
    froms: Seq<Seq<ExtendedInstruction>>,
    tos: Seq<Seq<ExtendedInstruction>>,
    i: int,
    a: State,
    b: State,
) -> (cost: nat)
    requires
        aligned(froms, tos),
        0 <= i < froms.len(),
        related(froms, tos, i, a, b),
        !kept(froms[i], tos[i]),
    ensures
        cost >= 1,
        tos[i].len() <= 1,
        output(flat(froms), a, cost) == Seq::<u8>::empty(),
        output(flat(tos), b, tos[i].len()) == Seq::<u8>::empty(),
        status(flat(froms), run(flat(froms), a, cost)) == Status::PointerOutOfBounds || related(
            froms,
            tos,
            i + 1,
            run(flat(froms), a, cost),
            run(flat(tos), b, tos[i].len()),
        ),
{
    lemma_piece_sizes(froms, tos, i);
    if run_piece(froms[i], tos[i]) {
        lemma_run_piece(froms, tos, i, a, b);
        froms[i].len()
    } else {
        lemma_loop_piece(froms, tos, i, a, b);
        (1 + 2 * a.tape[a.pointer]) as nat
    }
}

/// A kept instruction does the same in both programs: both can run or both
/// cannot, and a step takes both to the start of corresponding pieces,
/// with the same byte written if any.
pub proof fn lemma_kept_piece(
    froms: Seq<Seq<ExtendedInstruction>>,
    tos: Seq<Seq<ExtendedInstruction>>,
    i: int,
    a: State,
    b: State,
) -> (next: int)
    requires
        aligned(froms, tos),
        balanced(flat(froms)),
        0 <= i < froms.len(),
        related(froms, tos, i, a, b),
        kept(froms[i], tos[i]),
    ensures
        status(flat(froms), a) != Status::Finished,
        status(flat(tos), b) == status(flat(froms), a),
        status(flat(froms), a) == Status::Running ==> {
            &&& related(froms, tos, next, step(flat(froms), a), step(flat(tos), b))
            &&& written(flat(tos), b) == written(flat(froms), a)
        },
{
    let code_a = flat(froms);
    let code_b = flat(tos);
    let x = froms[i][0];
    lemma_piece_in_place(froms, i);
    lemma_piece_in_place(tos, i);
    lemma_piece_sizes(froms, tos, i);
    assert(code_a[a.ip + 0] == x);
    assert(code_b[b.ip + 0] == x);
    let cell = a.tape[a.pointer];
    if status(code_a, a) != Status::Running {
        i
    } else if is_open(x) && cell == 0 {
        lemma_open_has_match(code_a, a.ip);
        let c = matching_close(code_a, a.ip);
        let j = lemma_partner_is_kept(froms, tos, i, c);
        lemma_match_aligned(froms, tos, i, j);
        lemma_piece_sizes(froms, tos, j);
        let partner = matching_close(code_b, b.ip);
        assert(is_match(code_b, b.ip, start_of(tos, j)));
        assert(is_match(code_b, b.ip, partner));
        lemma_close_unique(code_b, b.ip, start_of(tos, j), partner);
        j + 1
    } else if is_close(x) && cell != 0 {
        lemma_close_has_match(code_a, a.ip);
        let o = matching_open(code_a, a.ip);
        let j = lemma_partner_is_kept(froms, tos, i, o);
        lemma_match_aligned(froms, tos, j, i);
        lemma_piece_sizes(froms, tos, j);
        let partner = matching_open(code_b, b.ip);
        assert(is_match(code_b, start_of(tos, j), b.ip));
        assert(is_match(code_b, partner, b.ip));
        lemma_open_unique(code_b, start_of(tos, j), partner, b.ip);
        j + 1
    } else {
        i + 1
    }
}

/// The rewritten program keeps up with the program. Whatever the program
/// has written after `n` steps, the rewritten program has written after
/// `m` steps, for some `m` that is at most `n`; and if the program has
/// then come to its end, so has the rewritten program, with the same data
/// pointer and the same tape.
pub proof fn lemma_simulation(
    froms: Seq<Seq<ExtendedInstruction>>,
    tos: Seq<Seq<ExtendedInstruction>>,
    i: int,
    a: State,
    b: State,
    n: nat,
) -> (m: nat)
    requires
        aligned(froms, tos),
        balanced(flat(froms)),
        related(froms, tos, i, a, b),
    ensures
        m <= n,
        output(flat(tos), b, m) == output(flat(froms), a, n),
        status(flat(froms), run(flat(froms), a, n)) == Status::Finished ==> {
            &&& status(flat(tos), run(flat(tos), b, m)) == Status::Finished
            &&& run(flat(tos), b, m).pointer == run(flat(froms), a, n).pointer
            &&& run(flat(tos), b, m).tape == run(flat(froms), a, n).tape
        },
    decreases n,
{
    let code_a = flat(froms);
    let code_b = flat(tos);
    lemma_start_ends(froms);
    lemma_start_ends(tos);
    if i == froms.len() {
        lemma_stopped(code_a, a, n);
        return 0;
    }
    lemma_piece_sizes(froms, tos, i);
    if n == 0 {
        return 0;
    }
    if kept(froms[i], tos[i]) {
        let next = lemma_kept_piece(froms, tos, i, a, b);
        if status(code_a, a) != Status::Running {
            lemma_stopped(code_a, a, n);
            return 0;
        }
        let a1 = step(code_a, a);
        let b1 = step(code_b, b);
        let rest = lemma_simulation(froms, tos, next, a1, b1, (n - 1) as nat);
        let m = rest + 1;
        lemma_run_one(code_a, a, n);
        lemma_run_one(code_b, b, m);
        return m;
    }
    let cost = lemma_rewritten_piece(froms, tos, i, a, b);
    let quick = tos[i].len();
    let a2 = run(code_a, a, cost);
    let b2 = run(code_b, b, quick);
    if n < cost {
        let here = run(code_a, a, n);
        lemma_run_split(code_a, a, n, (cost - n) as nat);
        assert(n + (cost - n) as nat == cost);
        let front = output(code_a, a, n);
        let back = output(code_a, here, (cost - n) as nat);
        assert(front + back == Seq::<u8>::empty());
        assert((front + back).len() == front.len() + back.len());
        assert(output(code_a, a, n).len() == 0);
        assert(output(code_a, a, n) =~= Seq::<u8>::empty());
        if status(code_a, here) == Status::Finished {
            lemma_stopped(code_a, here, (cost - n) as nat);
            assert(a2 == here);
            if i + 1 < froms.len() {
                lemma_piece_sizes(froms, tos, i + 1);
            }
            return quick;
        }
        return 0;
    }
    lemma_run_split(code_a, a, cost, (n - cost) as nat);
    assert(cost + (n - cost) as nat == n);
    assert(output(code_a, a, n) =~= output(code_a, a2, (n - cost) as nat));
    if status(code_a, a2) == Status::PointerOutOfBounds {
        lemma_stopped(code_a, a2, (n - cost) as nat);
        return 0;
    }
    let rest = lemma_simulation(froms, tos, i + 1, a2, b2, (n - cost) as nat);
    lemma_run_split(code_b, b, quick, rest);
    assert(output(code_b, b, quick + rest) =~= output(code_b, b2, rest));
    quick + rest
}

/// The program keeps up with the rewritten program, unless it stops for
/// the data pointer. Whatever the rewritten program has written after `m`
/// steps, the program has written after `n` steps, or it has stopped by
/// then because the data pointer would leave the tape. If the rewritten
/// program has come to its end, so has the program, with the same data
/// pointer and tape; and where the rewritten program stops for the data
/// pointer, the program does.
pub proof fn lemma_simulation_back(
    froms: Seq<Seq<ExtendedInstruction>>,
    tos: Seq<Seq<ExtendedInstruction>>,
    i: int,
    a: State,
    b: State,
    m: nat,
) -> (n: nat)
    requires
        aligned(froms, tos),
        balanced(flat(froms)),
        related(froms, tos, i, a, b),
    ensures
        n >= m,
        status(flat(froms), run(flat(froms), a, n)) == Status::PointerOutOfBounds || {
            &&& output(flat(froms), a, n) == output(flat(tos), b, m)
            &&& status(flat(tos), run(flat(tos), b, m)) != Status::PointerOutOfBounds
            &&& status(flat(tos), run(flat(tos), b, m)) == Status::Finished ==> {
                &&& status(flat(froms), run(flat(froms), a, n)) == Status::Finished
                &&& run(flat(froms), a, n).pointer == run(flat(tos), b, m).pointer
                &&& run(flat(froms), a, n).tape == run(flat(tos), b, m).tape
            }
        },
    decreases m, froms.len() - i,
{
    let code_a = flat(froms);
    let code_b = flat(tos);
    lemma_start_ends(froms);
    lemma_start_ends(tos);
    if i == froms.len() {
        lemma_stopped(code_b, b, m);
        lemma_stopped(code_a, a, m);
        return m;
    }
    lemma_piece_sizes(froms, tos, i);
    if kept(froms[i], tos[i]) {
        let next = lemma_kept_piece(froms, tos, i, a, b);
        if status(code_a, a) != Status::Running {
            lemma_stopped(code_a, a, m);
            return m;
        }
        if m == 0 {
            return 0;
        }
        let a1 = step(code_a, a);
        let b1 = step(code_b, b);
        let rest = lemma_simulation_back(froms, tos, next, a1, b1, (m - 1) as nat);
        let n = rest + 1;
        lemma_run_one(code_a, a, n);
        lemma_run_one(code_b, b, m);
        return n;
    }
    let cost = lemma_rewritten_piece(froms, tos, i, a, b);
    let quick = tos[i].len();
    let a2 = run(code_a, a, cost);
    let b2 = run(code_b, b, quick);
    if status(code_a, a2) == Status::PointerOutOfBounds {
        let n = if m > cost {
            m
        } else {
            cost
        };
        lemma_run_split(code_a, a, cost, (n - cost) as nat);
        assert(cost + (n - cost) as nat == n);
        lemma_stopped(code_a, a2, (n - cost) as nat);
        return n;
    }
    if m < quick {
        // the rewritten program has not taken its one step yet
        if status(code_b, b) != Status::Running {
            lemma_stopped(code_b, b, 1);
            assert(false);
        }
        return 0;
    }
    let rest = lemma_simulation_back(froms, tos, i + 1, a2, b2, (m - quick) as nat);
    let n = cost + rest;
    lemma_run_split(code_a, a, cost, rest);
    lemma_run_split(code_b, b, quick, (m - quick) as nat);
    assert(quick + (m - quick) as nat == m);
    assert(output(code_a, a, n) =~= output(code_a, a2, rest));
    assert(output(code_b, b, m) =~= output(code_b, b2, (m - quick) as nat));
    n
}

} // verus!
