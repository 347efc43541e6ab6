//! What the rewritten programs do: runs taken apart into shorter runs, and
//! the count-down loop against `SetZero`.

use vstd::prelude::*;
use crate::instructions::{ExtendedInstruction, Instruction};
use crate::jumps::{
    depth, is_match, lemma_close_unique, lemma_open_unique, matching_close, matching_open,
};
use crate::machine::{
    output, run, status, step, valid_state, written, State, Status, TAPE_LENGTH,
};
use crate::optimizer::set_zero_pattern;

verus! {

/// A run of `a + b` steps is a run of `a` steps and then one of `b` steps,
/// and it writes what the two write.
pub proof fn lemma_run_split(code: Seq<ExtendedInstruction>, st: State, a: nat, b: nat)
    ensures
        run(code, st, a + b) == run(code, run(code, st, a), b),
        output(code, st, a + b) == output(code, st, a) + output(code, run(code, st, a), b),
    decreases a,
{
    if a == 0 {
        assert(output(code, st, a) + output(code, st, b) =~= output(code, st, b));
    } else if status(code, st) != Status::Running {
        lemma_stopped(code, st, b);
        lemma_stopped(code, st, a + b);
        assert(output(code, st, a) + output(code, st, b) =~= output(code, st, a + b));
    } else {
        let next = step(code, st);
        lemma_run_split(code, next, (a - 1) as nat, b);
        assert((a + b - 1) as nat == (a - 1) as nat + b);
        match written(code, st) {
            Some(byte) => {
                assert(output(code, st, a + b) =~= seq![byte] + output(
                    code,
                    next,
                    (a + b - 1) as nat,
                ));
                assert(output(code, st, a + b) =~= output(code, st, a) + output(
                    code,
                    run(code, st, a),
                    b,
                ));
            },
            None => {},
        }
    }
}

/// A machine that is not running stays where it is and writes nothing.
pub proof fn lemma_stopped(code: Seq<ExtendedInstruction>, st: State, n: nat)
    requires
        status(code, st) != Status::Running,
    ensures
        run(code, st, n) == st,
        output(code, st, n) == Seq::<u8>::empty(),
{
}

/// One step of a running machine, written out.
pub proof fn lemma_run_one(code: Seq<ExtendedInstruction>, st: State, n: nat)
    requires
        n > 0,
        status(code, st) == Status::Running,
    ensures
        run(code, st, n) == run(code, step(code, st), (n - 1) as nat),
        written(code, st).is_none() ==> output(code, st, n) == output(
            code,
            step(code, st),
            (n - 1) as nat,
        ),
{
}

/// Inside the count-down loop, on a cell that holds `v >= 1`, the machine
/// takes `2 * v` steps to leave the loop, with the cell at zero and
/// nothing written.
pub proof fn lemma_count_down_body(code: Seq<ExtendedInstruction>, st: State, at: int)
    requires
        is_match(code, at, at + 2),
        code[at + 1] == ExtendedInstruction::Regular(Instruction::Decrement),
        valid_state(code, st),
        st.ip == at + 1,
        st.tape[st.pointer] >= 1,
    ensures
        run(code, st, (2 * st.tape[st.pointer]) as nat) == (State {
            ip: at + 3,
            pointer: st.pointer,
            tape: st.tape.update(st.pointer, 0),
        }),
        output(code, st, (2 * st.tape[st.pointer]) as nat) == Seq::<u8>::empty(),
    decreases st.tape[st.pointer],
{
    let v = st.tape[st.pointer];
    let n = (2 * v) as nat;
    let s1 = step(code, st);
    lemma_run_one(code, st, n);
    assert(s1.ip == at + 2);
    assert(s1.tape[s1.pointer] == v - 1);
    assert(status(code, s1) == Status::Running);
    let s2 = step(code, s1);
    lemma_run_one(code, s1, (n - 1) as nat);
    assert(s2.tape =~= st.tape.update(st.pointer, (v - 1) as u8));
    if v == 1 {
        assert(s2.ip == at + 3);
        assert(s2.tape =~= st.tape.update(st.pointer, 0));
    } else {
        assert(is_match(code, matching_open(code, at + 2), at + 2));
        lemma_open_unique(code, at, matching_open(code, at + 2), at + 2);
        assert(s2.ip == at + 1);
        lemma_count_down_body(code, s2, at);
        assert(s2.tape.update(s2.pointer, 0) =~= st.tape.update(st.pointer, 0));
    }
}

/// The count-down loop, entered on a cell that holds `v`, takes
/// `1 + 2 * v` steps, leaves the cell at zero and everything else as it
/// was, and writes nothing.
pub proof fn lemma_count_down(code: Seq<ExtendedInstruction>, st: State, at: int)
    requires
        is_match(code, at, at + 2),
        code[at + 1] == ExtendedInstruction::Regular(Instruction::Decrement),
        valid_state(code, st),
        st.ip == at,
    ensures
        run(code, st, (1 + 2 * st.tape[st.pointer]) as nat) == (State {
            ip: at + 3,
            pointer: st.pointer,
            tape: st.tape.update(st.pointer, 0),
        }),
        output(code, st, (1 + 2 * st.tape[st.pointer]) as nat) == Seq::<u8>::empty(),
{
    let v = st.tape[st.pointer];
    let n = (1 + 2 * v) as nat;
    let s1 = step(code, st);
    lemma_run_one(code, st, n);
    assert(s1.tape =~= st.tape);
    if v == 0 {
        assert(is_match(code, at, matching_close(code, at)));
        lemma_close_unique(code, at, at + 2, matching_close(code, at));
        assert(s1.ip == at + 3);
        assert(st.tape.update(st.pointer, 0) =~= st.tape);
    } else {
        lemma_count_down_body(code, s1, at);
    }
}

/// The two brackets of the count-down loop are partners.
pub proof fn lemma_pattern_is_match()
    ensures
        is_match(set_zero_pattern(), 0, 2),
{
    let p = set_zero_pattern();
    assert(depth(p, 0) == 0);
    assert(depth(p, 1) == 1);
    assert(depth(p, 2) == 1);
    assert(depth(p, 3) == 0);
}

/// The count-down loop and `SetZero` do the same: from any state, each
/// runs to its end, leaves the current cell at zero and every other cell
/// and the data pointer as they were, and writes nothing.
pub proof fn lemma_set_zero_equivalent(pointer: int, tape: Seq<u8>)
    requires
        0 <= pointer < TAPE_LENGTH,
        tape.len() == TAPE_LENGTH,
    ensures
        ({
            let start = State { ip: 0, pointer, tape };
            let steps = (1 + 2 * tape[pointer]) as nat;
            let looped = run(set_zero_pattern(), start, steps);
            let direct = run(seq![ExtendedInstruction::SetZero], start, 1);
            &&& status(set_zero_pattern(), looped) == Status::Finished
            &&& status(seq![ExtendedInstruction::SetZero], direct) == Status::Finished
            &&& looped.tape == tape.update(pointer, 0)
            &&& direct.tape == looped.tape
            &&& direct.pointer == pointer
            &&& looped.pointer == pointer
            &&& output(set_zero_pattern(), start, steps) == Seq::<u8>::empty()
            &&& output(seq![ExtendedInstruction::SetZero], start, 1) == Seq::<u8>::empty()
        }),
{
    let start = State { ip: 0, pointer, tape };
    lemma_pattern_is_match();
    lemma_count_down(set_zero_pattern(), start, 0);
    let z = seq![ExtendedInstruction::SetZero];
    lemma_run_one(z, start, 1);
}

} // verus!
