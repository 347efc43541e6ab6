//! The peephole optimizer: run-length coalescing of cell and pointer steps,
//! and fusion of fixed instruction patterns.

use vstd::prelude::*;
use crate::instructions::{ExtendedInstruction, Instruction};

verus! {

/// Basic instructions, each wrapped as an extended instruction.
pub open spec fn extended(instructions: Seq<Instruction>) -> Seq<ExtendedInstruction> {
    Seq::new(instructions.len(), |i: int| ExtendedInstruction::Regular(instructions[i]))
}

/// Whether the instruction changes the current cell by one.
pub open spec fn is_cell_step(i: ExtendedInstruction) -> bool {
    i == ExtendedInstruction::Regular(Instruction::Increment) || i == ExtendedInstruction::Regular(
        Instruction::Decrement,
    )
}

/// Whether the instruction moves the data pointer by one.
pub open spec fn is_pointer_step(i: ExtendedInstruction) -> bool {
    i == ExtendedInstruction::Regular(Instruction::MoveRight) || i == ExtendedInstruction::Regular(
        Instruction::MoveLeft,
    )
}

/// Whether two instructions can stand in one run: both cell steps, or both
/// pointer steps.
pub open spec fn same_run(a: ExtendedInstruction, b: ExtendedInstruction) -> bool {
    (is_cell_step(a) && is_cell_step(b)) || (is_pointer_step(a) && is_pointer_step(b))
}

/// What one instruction adds to the count of its run: plus one for an
/// increment or a move right, minus one for a decrement or a move left.
pub open spec fn step_value(i: ExtendedInstruction) -> int {
    if i == ExtendedInstruction::Regular(Instruction::Increment) || i
        == ExtendedInstruction::Regular(Instruction::MoveRight) {
        1
    } else if i == ExtendedInstruction::Regular(Instruction::Decrement) || i
        == ExtendedInstruction::Regular(Instruction::MoveLeft) {
        -1
    } else {
        0
    }
}

/// The signed count of a stretch of instructions.
pub open spec fn net(s: Seq<ExtendedInstruction>) -> int
    decreases s.len(),
{
    if s.len() == 0 {
        0
    } else {
        net(s.drop_last()) + step_value(s.last())
    }
}

/// The length of the maximal run that a non-empty sequence starts with. An
/// instruction that is no step is a run of its own.
pub open spec fn run_length(s: Seq<ExtendedInstruction>) -> nat
    decreases s.len(),
{
    if s.len() <= 1 {
        s.len()
    } else if same_run(s[0], s[1]) {
        1 + run_length(s.skip(1))
    } else {
        1
    }
}

/// What a finished run leaves in the output. `last` is any instruction of
/// the run and `count` its signed count: a count above one gives `Add` or
/// `JumpRight`, one below minus one gives `Sub` or `JumpLeft` with the
/// magnitude, plus or minus one gives the single step of that sign, and
/// zero gives nothing. An instruction that is no step is left as it is.
///
/// A fused instruction holds the magnitude in its field: that of a cell
/// run modulo 256, which is all that a cell can tell, and that of a
/// pointer run modulo 2^32.
pub open spec fn flushed(last: Option<ExtendedInstruction>, count: int) -> Seq<
    ExtendedInstruction,
> {
    match last {
        None => Seq::empty(),
        Some(i) => if is_cell_step(i) {
            if count > 1 {
                seq![ExtendedInstruction::Add((count % 256) as u8)]
            } else if count < -1 {
                seq![ExtendedInstruction::Sub(((-count) % 256) as u8)]
            } else if count == 1 {
                seq![ExtendedInstruction::Regular(Instruction::Increment)]
            } else if count == -1 {
                seq![ExtendedInstruction::Regular(Instruction::Decrement)]
            } else {
                Seq::empty()
            }
        } else if is_pointer_step(i) {
            if count > 1 {
                seq![ExtendedInstruction::JumpRight((count % 0x1_0000_0000) as u32)]
            } else if count < -1 {
                seq![ExtendedInstruction::JumpLeft(((-count) % 0x1_0000_0000) as u32)]
            } else if count == 1 {
                seq![ExtendedInstruction::Regular(Instruction::MoveRight)]
            } else if count == -1 {
                seq![ExtendedInstruction::Regular(Instruction::MoveLeft)]
            } else {
                Seq::empty()
            }
        } else {
            seq![i]
        },
    }
}

/// Run-length coalescing: the sequence is cut into its maximal runs, and
/// each run is replaced by what `flushed` gives for its count.
pub open spec fn coalesced(s: Seq<ExtendedInstruction>) -> Seq<ExtendedInstruction>
    decreases s.len(),
    via coalesced_decreases
{
    if s.len() == 0 {
        Seq::empty()
    } else {
        let n = run_length(s) as int;
        flushed(Some(s[0]), net(s.take(n))) + coalesced(s.skip(n))
    }
}

#[via_fn]
proof fn coalesced_decreases(s: Seq<ExtendedInstruction>) {
    if s.len() != 0 {
        lemma_run_length_bounds(s);
    }
}

/// A run has at least one instruction and ends within the sequence.
pub proof fn lemma_run_length_bounds(s: Seq<ExtendedInstruction>)
    requires
        s.len() > 0,
    ensures
        1 <= run_length(s) <= s.len(),
    decreases s.len(),
{
    if s.len() > 1 && same_run(s[0], s[1]) {
        lemma_run_length_bounds(s.skip(1));
    }
}

/// A stretch at the start of `s` is its first run where all of it stands in
/// one run with `s[0]` and what follows it, if anything, does not.
pub proof fn lemma_run_length_is(s: Seq<ExtendedInstruction>, n: int)
    requires
        1 <= n <= s.len(),
        forall|k: int| 1 <= k < n ==> same_run(s[0], #[trigger] s[k]),
        n == s.len() || !same_run(s[0], s[n]),
    ensures
        run_length(s) == n,
    decreases s.len(),
{
    if s.len() <= 1 {
    } else if n == 1 {
    } else {
        let t = s.skip(1);
        assert(same_run(s[0], s[1]));
        assert forall|k: int| 1 <= k < n - 1 implies same_run(t[0], #[trigger] t[k]) by {
            assert(t[k] == s[k + 1]);
            assert(same_run(s[0], s[k + 1]));
        }
        if n - 1 != t.len() {
            assert(t[n - 1] == s[n]);
        }
        lemma_run_length_is(t, n - 1);
    }
}

/// How far a sequence and a pattern agree from their starts: the length of
/// their longest common prefix.
pub open spec fn match_length(s: Seq<ExtendedInstruction>, pattern: Seq<ExtendedInstruction>) -> nat
    decreases pattern.len(),
{
    if s.len() == 0 || pattern.len() == 0 || s[0] != pattern[0] {
        0
    } else {
        1 + match_length(s.skip(1), pattern.skip(1))
    }
}

/// One left-to-right pass that replaces a pattern. Where the sequence
/// starts with the whole pattern, the replacement stands for it. Where it
/// starts with a part of the pattern only, that part is kept as it is, and
/// the scan goes on with the instruction that broke the match. An
/// instruction that does not start the pattern is kept.
pub open spec fn fused(
    s: Seq<ExtendedInstruction>,
    pattern: Seq<ExtendedInstruction>,
    replacement: ExtendedInstruction,
) -> Seq<ExtendedInstruction>
    decreases s.len(),
    via fused_decreases
{
    if s.len() == 0 || pattern.len() == 0 {
        s
    } else {
        let m = match_length(s, pattern) as int;
        if m == pattern.len() {
            seq![replacement] + fused(s.skip(m), pattern, replacement)
        } else if m == 0 {
            seq![s[0]] + fused(s.skip(1), pattern, replacement)
        } else {
            s.take(m) + fused(s.skip(m), pattern, replacement)
        }
    }
}

#[via_fn]
proof fn fused_decreases(
    s: Seq<ExtendedInstruction>,
    pattern: Seq<ExtendedInstruction>,
    replacement: ExtendedInstruction,
) {
    lemma_match_length_bounds(s, pattern);
}

/// The pattern of the loop that counts the current cell down to zero.
pub open spec fn set_zero_pattern() -> Seq<ExtendedInstruction> {
    seq![
        ExtendedInstruction::Regular(Instruction::JumpForward),
        ExtendedInstruction::Regular(Instruction::Decrement),
        ExtendedInstruction::Regular(Instruction::JumpBackwards),
    ]
}

/// Pattern fusion: every pattern of the list applied in turn, each to the
/// output of the one before it. The list holds one pattern, the count-down
/// loop, which becomes `SetZero`.
pub open spec fn pattern_fused(s: Seq<ExtendedInstruction>) -> Seq<ExtendedInstruction> {
    fused(s, set_zero_pattern(), ExtendedInstruction::SetZero)
}

/// The whole optimizer on a basic program: coalescing, then fusion.
pub open spec fn optimized(program: Seq<Instruction>) -> Seq<ExtendedInstruction> {
    pattern_fused(coalesced(extended(program)))
}

/// The common prefix is no longer than either sequence.
pub proof fn lemma_match_length_bounds(
    s: Seq<ExtendedInstruction>,
    pattern: Seq<ExtendedInstruction>,
)
    ensures
        match_length(s, pattern) <= s.len(),
        match_length(s, pattern) <= pattern.len(),
    decreases pattern.len(),
{
    if !(s.len() == 0 || pattern.len() == 0 || s[0] != pattern[0]) {
        lemma_match_length_bounds(s.skip(1), pattern.skip(1));
    }
}

/// The common prefix has length `k` where the two agree on their first `k`
/// instructions and then one of them ends or they differ.
pub proof fn lemma_match_length_is(
    s: Seq<ExtendedInstruction>,
    pattern: Seq<ExtendedInstruction>,
    k: int,
)
    requires
        0 <= k <= s.len(),
        k <= pattern.len(),
        forall|j: int| 0 <= j < k ==> s[j] == pattern[j],
        k == s.len() || k == pattern.len() || s[k] != pattern[k],
    ensures
        match_length(s, pattern) == k,
    decreases pattern.len(),
{
    if k > 0 {
        let s1 = s.skip(1);
        let p1 = pattern.skip(1);
        assert(s[0] == pattern[0]);
        assert forall|j: int| 0 <= j < k - 1 implies s1[j] == p1[j] by {
            assert(s[j + 1] == pattern[j + 1]);
        }
        lemma_match_length_is(s1, p1, k - 1);
    }
}


/// Wraps each basic instruction as an extended one.
pub fn instructions_to_extended(instructions: &[Instruction]) -> (out: Vec<ExtendedInstruction>)
    ensures
        out@ == extended(instructions@),
{
    let mut out: Vec<ExtendedInstruction> = Vec::new();
    let mut i: usize = 0;
    while i < instructions.len()
        invariant
            i <= instructions.len(),
            out@ == extended(instructions@.take(i as int)),
        decreases instructions.len() - i,
    {
        out.push(ExtendedInstruction::Regular(instructions[i]));
        i += 1;
        assert(out@ =~= extended(instructions@.take(i as int)));
    }
    assert(instructions@.take(i as int) =~= instructions@);
    out
}

fn cell_step(i: &ExtendedInstruction) -> (r: bool)
    ensures
        r == is_cell_step(*i),
{
    match i {
        ExtendedInstruction::Regular(Instruction::Increment) => true,
        ExtendedInstruction::Regular(Instruction::Decrement) => true,
        _ => false,
    }
}

fn pointer_step(i: &ExtendedInstruction) -> (r: bool)
    ensures
        r == is_pointer_step(*i),
{
    match i {
        ExtendedInstruction::Regular(Instruction::MoveRight) => true,
        ExtendedInstruction::Regular(Instruction::MoveLeft) => true,
        _ => false,
    }
}

/// Pushes what the finished run leaves: see `flushed`.
pub fn push_optimized_repeat_instruction(
    buffer: &mut Vec<ExtendedInstruction>,
    instruction: &Option<ExtendedInstruction>,
    instruction_count: i32,
)
    ensures
        final(buffer)@ == old(buffer)@ + flushed(*instruction, instruction_count as int),
{
    flush_run(buffer, instruction, instruction_count as i128);
}

/// Pushes what the finished run leaves, for a count of any size.
fn flush_run(
    buffer: &mut Vec<ExtendedInstruction>,
    instruction: &Option<ExtendedInstruction>,
    count: i128,
)
    requires
        i128::MIN < count,
    ensures
        final(buffer)@ == old(buffer)@ + flushed(*instruction, count as int),
{
    match instruction {
        None => {},
        Some(i) => {
            if cell_step(i) {
                if count > 1 {
                    buffer.push(ExtendedInstruction::Add((count % 256) as u8));
                } else if count < -1 {
                    buffer.push(ExtendedInstruction::Sub(((-count) % 256) as u8));
                } else if count == 1 {
                    buffer.push(ExtendedInstruction::Regular(Instruction::Increment));
                } else if count == -1 {
                    buffer.push(ExtendedInstruction::Regular(Instruction::Decrement));
                }
            } else if pointer_step(i) {
                if count > 1 {
                    buffer.push(ExtendedInstruction::JumpRight((count % 0x1_0000_0000) as u32));
                } else if count < -1 {
                    buffer.push(ExtendedInstruction::JumpLeft(((-count) % 0x1_0000_0000) as u32));
                } else if count == 1 {
                    buffer.push(ExtendedInstruction::Regular(Instruction::MoveRight));
                } else if count == -1 {
                    buffer.push(ExtendedInstruction::Regular(Instruction::MoveLeft));
                }
            } else {
                buffer.push(*i);
            }
        },
    }
    assert(final(buffer)@ =~= old(buffer)@ + flushed(*instruction, count as int));
}

/// Coalesces every maximal run of cell steps, and every maximal run of
/// pointer steps, into what its signed count calls for.
pub fn optimize_instruction_repetitions(instructions: &[ExtendedInstruction]) -> (out: Vec<
    ExtendedInstruction,
>)
    ensures
        out@ == coalesced(instructions@),
{
    let ghost s = instructions@;
    let mut output: Vec<ExtendedInstruction> = Vec::new();
    let mut current_instruction: Option<ExtendedInstruction> = None;
    let mut instruction_count: i128 = 0;
    let ghost mut start: int = 0;
    let mut i: usize = 0;
    assert(s.skip(0) =~= s);
    while i < instructions.len()
        invariant
            s == instructions@,
            0 <= start <= i <= s.len(),
            i == 0 ==> current_instruction.is_none() && instruction_count == 0,
            i > 0 ==> start < i && current_instruction == Some(s[i - 1]),
            forall|k: int| start < k < i ==> same_run(s[start], #[trigger] s[k]),
            i > 0 && (is_cell_step(s[start]) || is_pointer_step(s[start])) ==> instruction_count
                == net(s.subrange(start, i as int)),
            -(i - start) <= instruction_count <= i - start,
            output@ + coalesced(s.skip(start)) == coalesced(s),
        decreases instructions.len() - i,
    {
        let instruction = instructions[i];
        let extends = match current_instruction {
            Some(c) => (cell_step(&c) && cell_step(&instruction)) || (pointer_step(&c)
                && pointer_step(&instruction)),
            None => false,
        };
        proof {
            assert(s.subrange(start, i + 1).drop_last() =~= s.subrange(start, i as int));
            if i > 0 {
                assert(extends == same_run(s[start], s[i as int])) by {
                    if start < i - 1 {
                        assert(same_run(s[start], s[i - 1]));
                    }
                }
            }
        }
        if extends {
            match instruction {
                ExtendedInstruction::Regular(Instruction::Decrement) => instruction_count -= 1,
                ExtendedInstruction::Regular(Instruction::MoveLeft) => instruction_count -= 1,
                _ => instruction_count += 1,
            }
        } else {
            let ghost before = output@;
            flush_run(&mut output, &current_instruction, instruction_count);
            proof {
                if i > 0 {
                    let t = s.skip(start);
                    let n = i - start;
                    assert forall|k: int| 1 <= k < n implies same_run(t[0], #[trigger] t[k]) by {
                        assert(t[k] == s[start + k]);
                        assert(same_run(s[start], s[start + k]));
                    }
                    assert(t[n] == s[i as int]);
                    lemma_run_length_is(t, n);
                    assert(t.take(n) =~= s.subrange(start, i as int));
                    assert(t.skip(n) =~= s.skip(i as int));
                    assert(flushed(Some(s[start]), instruction_count as int) == flushed(
                        current_instruction,
                        instruction_count as int,
                    )) by {
                        if start < i - 1 {
                            assert(same_run(s[start], s[i - 1]));
                        }
                    }
                    assert(output@ + coalesced(s.skip(i as int)) =~= before + (flushed(
                        Some(s[start]),
                        instruction_count as int,
                    ) + coalesced(s.skip(i as int))));
                } else {
                    assert(output@ =~= before);
                }
                start = i as int;
                assert(s.subrange(i as int, i + 1).drop_last() =~= Seq::<
                    ExtendedInstruction,
                >::empty());
                assert(net(Seq::<ExtendedInstruction>::empty()) == 0);
                assert(s.subrange(i as int, i + 1).last() == s[i as int]);
                assert(net(s.subrange(i as int, i + 1)) == step_value(s[i as int]));
            }
            match instruction {
                ExtendedInstruction::Regular(Instruction::Decrement) => instruction_count = -1,
                ExtendedInstruction::Regular(Instruction::MoveLeft) => instruction_count = -1,
                _ => instruction_count = 1,
            }
        }
        current_instruction = Some(instruction);
        i += 1;
    }
    let ghost before = output@;
    flush_run(&mut output, &current_instruction, instruction_count);
    proof {
        if i > 0 {
            let t = s.skip(start);
            let n = i - start;
            assert forall|k: int| 1 <= k < n implies same_run(t[0], #[trigger] t[k]) by {
                assert(t[k] == s[start + k]);
                assert(same_run(s[start], s[start + k]));
            }
            lemma_run_length_is(t, n);
            assert(t.take(n) =~= s.subrange(start, i as int));
            assert(t.skip(n) =~= Seq::<ExtendedInstruction>::empty());
            assert(flushed(Some(s[start]), instruction_count as int) == flushed(
                current_instruction,
                instruction_count as int,
            )) by {
                if start < i - 1 {
                    assert(same_run(s[start], s[i - 1]));
                }
            }
            assert(coalesced(t.skip(n)) =~= Seq::<ExtendedInstruction>::empty());
            assert(t[0] == s[start]);
            assert(coalesced(t) =~= flushed(Some(s[start]), instruction_count as int));
            assert(output@ =~= before + coalesced(t));
        } else {
            assert(s.skip(0) =~= s);
            assert(output@ =~= before + coalesced(s));
        }
    }
    output
}

/// Appends `source[from..to]` to the buffer.
fn push_range(
    buffer: &mut Vec<ExtendedInstruction>,
    source: &[ExtendedInstruction],
    from: usize,
    to: usize,
)
    requires
        from <= to <= source.len(),
    ensures
        final(buffer)@ == old(buffer)@ + source@.subrange(from as int, to as int),
{
    let mut k: usize = from;
    while k < to
        invariant
            from <= k <= to <= source.len(),
            buffer@ == old(buffer)@ + source@.subrange(from as int, k as int),
        decreases to - k,
    {
        buffer.push(source[k]);
        k += 1;
        assert(buffer@ =~= old(buffer)@ + source@.subrange(from as int, k as int));
    }
}

/// One pass over the instructions that replaces the pattern: see `fused`.
pub fn replace_pattern(
    instructions: &[ExtendedInstruction],
    pattern: &[ExtendedInstruction],
    replacement: ExtendedInstruction,
) -> (out: Vec<ExtendedInstruction>)
    requires
        pattern.len() > 0,
    ensures
        out@ == fused(instructions@, pattern@, replacement),
{
    let ghost s = instructions@;
    let ghost p = pattern@;
    let mut output: Vec<ExtendedInstruction> = Vec::new();
    let mut matching_size: usize = 0;
    let mut index: usize = 0;
    assert(s.skip(0) =~= s);
    while index < instructions.len()
        invariant
            s == instructions@,
            p == pattern@,
            p.len() > 0,
            matching_size < p.len(),
            matching_size <= index <= s.len(),
            forall|j: int| 0 <= j < matching_size ==> s[index - matching_size + j] == p[j],
            output@ + fused(s.skip(index - matching_size), p, replacement) == fused(
                s,
                p,
                replacement,
            ),
        decreases s.len() - index, matching_size,
    {
        let ghost start = index - matching_size;
        let ghost t = s.skip(start);
        let ghost before = output@;
        if instructions[index] == pattern[matching_size] {
            matching_size += 1;
            index += 1;
            if matching_size == pattern.len() {
                output.push(replacement);
                proof {
                    assert forall|j: int| 0 <= j < matching_size implies t[j] == p[j] by {
                        assert(t[j] == s[start + j]);
                    }
                    lemma_match_length_is(t, p, matching_size as int);
                    assert(t.skip(matching_size as int) =~= s.skip(index as int));
                    assert(output@ + fused(s.skip(index as int), p, replacement) =~= before + (
                    seq![replacement] + fused(s.skip(index as int), p, replacement)));
                }
                matching_size = 0;
            }
        } else if matching_size > 0 {
            push_range(&mut output, instructions, index - matching_size, index);
            proof {
                assert forall|j: int| 0 <= j < matching_size implies t[j] == p[j] by {
                    assert(t[j] == s[start + j]);
                }
                assert(t[matching_size as int] == s[index as int]);
                lemma_match_length_is(t, p, matching_size as int);
                assert(t.take(matching_size as int) =~= s.subrange(start, index as int));
                assert(t.skip(matching_size as int) =~= s.skip(index as int));
                assert(output@ + fused(s.skip(index as int), p, replacement) =~= before + (
                t.take(matching_size as int) + fused(s.skip(index as int), p, replacement)));
            }
            matching_size = 0;
        } else {
            output.push(instructions[index]);
            proof {
                assert(t[0] == s[index as int]);
                lemma_match_length_is(t, p, 0);
                assert(t.skip(1) =~= s.skip(index + 1));
                assert(output@ + fused(s.skip(index + 1), p, replacement) =~= before + (seq![
                    t[0],
                ] + fused(s.skip(index + 1), p, replacement)));
            }
            index += 1;
        }
    }
    let ghost before = output@;
    push_range(&mut output, instructions, index - matching_size, index);
    proof {
        let start = index - matching_size;
        let t = s.skip(start);
        assert forall|j: int| 0 <= j < matching_size implies t[j] == p[j] by {
            assert(t[j] == s[start + j]);
        }
        lemma_match_length_is(t, p, matching_size as int);
        assert(t.take(matching_size as int) =~= t);
        assert(t.skip(matching_size as int) =~= Seq::<ExtendedInstruction>::empty());
        assert(fused(Seq::<ExtendedInstruction>::empty(), p, replacement) =~= Seq::<
            ExtendedInstruction,
        >::empty());
        assert(fused(t, p, replacement) =~= t);
        assert(t =~= s.subrange(start, index as int));
    }
    output
}

/// Replaces each fixed pattern by its fused instruction, the patterns taken
/// in order of priority: the count-down loop becomes `SetZero`.
pub fn optimize_pattern_based(instructions: &[ExtendedInstruction]) -> (out: Vec<
    ExtendedInstruction,
>)
    ensures
        out@ == pattern_fused(instructions@),
{
    let mut pattern: Vec<ExtendedInstruction> = Vec::new();
    pattern.push(ExtendedInstruction::Regular(Instruction::JumpForward));
    pattern.push(ExtendedInstruction::Regular(Instruction::Decrement));
    pattern.push(ExtendedInstruction::Regular(Instruction::JumpBackwards));
    assert(pattern@ =~= set_zero_pattern());
    replace_pattern(instructions, pattern.as_slice(), ExtendedInstruction::SetZero)
}

/// Flushing a run leaves one instruction at most.
pub proof fn lemma_flushed_len(last: Option<ExtendedInstruction>, count: int)
    ensures
        flushed(last, count).len() <= 1,
{
}

/// Coalescing never lengthens a sequence.
pub proof fn lemma_coalesced_len(s: Seq<ExtendedInstruction>)
    ensures
        coalesced(s).len() <= s.len(),
    decreases s.len(),
{
    if s.len() > 0 {
        let n = run_length(s) as int;
        lemma_run_length_bounds(s);
        lemma_flushed_len(Some(s[0]), net(s.take(n)));
        lemma_coalesced_len(s.skip(n));
    }
}

/// Replacing a pattern never lengthens a sequence.
pub proof fn lemma_fused_len(
    s: Seq<ExtendedInstruction>,
    pattern: Seq<ExtendedInstruction>,
    replacement: ExtendedInstruction,
)
    ensures
        fused(s, pattern, replacement).len() <= s.len(),
    decreases s.len(),
{
    if s.len() > 0 && pattern.len() > 0 {
        lemma_match_length_bounds(s, pattern);
        let m = match_length(s, pattern) as int;
        if m == 0 {
            lemma_fused_len(s.skip(1), pattern, replacement);
        } else {
            lemma_fused_len(s.skip(m), pattern, replacement);
        }
    }
}

/// The optimized program is no longer than the program.
pub proof fn lemma_optimized_len(program: Seq<Instruction>)
    ensures
        optimized(program).len() <= program.len(),
{
    lemma_coalesced_len(extended(program));
    lemma_fused_len(
        coalesced(extended(program)),
        set_zero_pattern(),
        ExtendedInstruction::SetZero,
    );
}

} // verus!
