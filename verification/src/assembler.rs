//! The assembler: lays the encodings of a program out in one buffer, behind
//! a prologue that loads the tape's address and in front of a return, and
//! then fills in the displacement of every bracket.

use vstd::prelude::*;
use crate::instructions::{ExtendedInstruction, Instruction};
use crate::jumps::{
    balanced, has_unmatched_close, has_unmatched_open, is_close, is_match, is_open,
    lemma_bracket_verdicts, lemma_close_has_match, lemma_close_unique, lemma_open_has_match,
    lemma_open_unique, matching_close, matching_open, positions_ordered, resolve_jumps,
    resolve_jumps_at, BracketMismatch, JumpMap,
};
use crate::layout::{
    flat, lemma_flat_index, lemma_flat_is, lemma_flat_take_monotone, lemma_flat_take_next,
};
use crate::x86_64::{encode, encoding, jump_head, lemma_encoding_len, DISPLACEMENT_FIELD};

verus! {

/// The length of the prologue.
pub const PROLOGUE_LENGTH: usize = 10;

/// The return instruction that ends the routine.
pub const RETURN: u8 = 0xc3;

/// The longest program that the assembler lays out: the displacement of a
/// jump is a 32-bit signed number, so the whole routine, at 26 bytes an
/// instruction at most, has to stay below 2 GiB. The brackets of a program
/// of any length are checked.
pub const MAX_ASSEMBLED_LEN: usize = 82_595_524;

/// The eight bytes of a 64-bit number, least significant first.
pub open spec fn le_bytes_u64(n: u64) -> Seq<u8> {
    seq![
        (n % 0x100) as u8,
        ((n / 0x100) % 0x100) as u8,
        ((n / 0x1_0000) % 0x100) as u8,
        ((n / 0x100_0000) % 0x100) as u8,
        ((n / 0x1_0000_0000) % 0x100) as u8,
        ((n / 0x100_0000_0000) % 0x100) as u8,
        ((n / 0x1_0000_0000_0000) % 0x100) as u8,
        ((n / 0x100_0000_0000_0000) % 0x100) as u8,
    ]
}

/// The four bytes of a 32-bit signed number in two's complement, least
/// significant first.
pub open spec fn le_bytes_i32(d: int) -> Seq<u8> {
    let u = if d < 0 {
        d + 0x1_0000_0000
    } else {
        d
    };
    seq![
        (u % 0x100) as u8,
        ((u / 0x100) % 0x100) as u8,
        ((u / 0x1_0000) % 0x100) as u8,
        ((u / 0x100_0000) % 0x100) as u8,
    ]
}

/// The prologue: `mov r13, address`.
pub open spec fn prologue(address: u64) -> Seq<u8> {
    seq![0x49u8, 0xbd] + le_bytes_u64(address)
}

/// The encodings of a program as the code generator gives them, with the
/// placeholders in the brackets.
pub open spec fn placeholder_pieces(code: Seq<ExtendedInstruction>) -> Seq<Seq<u8>> {
    Seq::new(code.len(), |k: int| encoding(code[k]))
}

/// Where the encoding of instruction `k` starts in the routine. For `k` at
/// the length of the program this is where the return instruction stands.
#[verifier::opaque]
pub open spec fn offset_of(code: Seq<ExtendedInstruction>, k: int) -> int {
    PROLOGUE_LENGTH + flat(placeholder_pieces(code).take(k)).len()
}

/// Where the displacement field of the bracket `k` starts in the routine.
pub open spec fn field_of(code: Seq<ExtendedInstruction>, k: int) -> int {
    offset_of(code, k) + DISPLACEMENT_FIELD
}

/// The displacement of the bracket `k`: how far its partner lies ahead.
/// It is positive in an opening bracket and negative in a closing one.
pub open spec fn displacement(code: Seq<ExtendedInstruction>, k: int) -> int {
    if is_open(code[k]) {
        offset_of(code, matching_close(code, k)) - offset_of(code, k)
    } else {
        offset_of(code, matching_open(code, k)) - offset_of(code, k)
    }
}

/// The bytes of instruction `k` in the finished routine: those of the code
/// generator, but in a bracket the displacement stands for the placeholder.
pub open spec fn linked_encoding(code: Seq<ExtendedInstruction>, k: int) -> Seq<u8> {
    if is_open(code[k]) {
        jump_head(0x84) + le_bytes_i32(displacement(code, k))
    } else if is_close(code[k]) {
        jump_head(0x85) + le_bytes_i32(displacement(code, k))
    } else {
        encoding(code[k])
    }
}

/// The encodings of a program in the finished routine.
pub open spec fn linked_pieces(code: Seq<ExtendedInstruction>) -> Seq<Seq<u8>> {
    Seq::new(code.len(), |k: int| linked_encoding(code, k))
}

/// The routine before its jumps are resolved.
pub open spec fn unlinked_image(address: u64, code: Seq<ExtendedInstruction>) -> Seq<u8> {
    prologue(address) + flat(placeholder_pieces(code)) + seq![RETURN]
}

/// The finished routine: prologue, the instructions with their jumps
/// resolved, return.
pub open spec fn image(address: u64, code: Seq<ExtendedInstruction>) -> Seq<u8> {
    prologue(address) + flat(linked_pieces(code)) + seq![RETURN]
}

/// The routine of a program of `n` instructions has at most
/// `11 + 26 * n` bytes, and every instruction takes at least three.
pub proof fn lemma_offset_bounds(code: Seq<ExtendedInstruction>, k: int)
    requires
        0 <= k <= code.len(),
    ensures
        PROLOGUE_LENGTH + 3 * k <= offset_of(code, k) <= PROLOGUE_LENGTH + 26 * k,
    decreases k,
{
    reveal(offset_of);
    if k > 0 {
        lemma_offset_bounds(code, k - 1);
        lemma_flat_take_next(placeholder_pieces(code), k - 1);
        lemma_encoding_len(code[k - 1]);
    } else {
        assert(placeholder_pieces(code).take(0) =~= Seq::<Seq<u8>>::empty());
    }
}

/// Later instructions start further on.
pub proof fn lemma_offset_increases(code: Seq<ExtendedInstruction>, a: int, b: int)
    requires
        0 <= a < b <= code.len(),
    ensures
        offset_of(code, a) + encoding(code[a]).len() <= offset_of(code, b),
{
    reveal(offset_of);
    lemma_flat_take_next(placeholder_pieces(code), a);
    lemma_flat_take_monotone(placeholder_pieces(code), a + 1, b);
}

/// Whether the displacement of bracket `k` stands in the buffer once the
/// relocation pass has dealt with the opening brackets before `done`.
pub open spec fn relocated(code: Seq<ExtendedInstruction>, k: int, done: int) -> bool {
    (is_open(code[k]) && k < done) || (is_close(code[k]) && matching_open(code, k) < done)
}

/// What a buffer holds in the middle of the relocation pass: the length
/// and the frame are those of the routine, and each instruction has its
/// final bytes if it is a bracket dealt with, its generated bytes if not.
pub open spec fn partly_linked(
    bytes: Seq<u8>,
    address: u64,
    code: Seq<ExtendedInstruction>,
    done: int,
) -> bool {
    &&& bytes.len() == offset_of(code, code.len() as int) + 1
    &&& bytes.subrange(0, PROLOGUE_LENGTH as int) == prologue(address)
    &&& bytes[bytes.len() - 1] == RETURN
    &&& forall|k: int, t: int|
        #![trigger bytes[offset_of(code, k) + t]]
        0 <= k < code.len() && 0 <= t < encoding(code[k]).len() ==> bytes[offset_of(code, k) + t]
            == (if relocated(code, k, done) {
            linked_encoding(code, k)[t]
        } else {
            encoding(code[k])[t]
        })
}

/// Appends the prologue.
fn push_prologue(buffer: &mut Vec<u8>, address: u64)
    ensures
        final(buffer)@ == old(buffer)@ + prologue(address),
{
    buffer.push(0x49);
    buffer.push(0xbd);
    buffer.push((address % 0x100) as u8);
    buffer.push(((address / 0x100) % 0x100) as u8);
    buffer.push(((address / 0x1_0000) % 0x100) as u8);
    buffer.push(((address / 0x100_0000) % 0x100) as u8);
    buffer.push(((address / 0x1_0000_0000) % 0x100) as u8);
    buffer.push(((address / 0x100_0000_0000) % 0x100) as u8);
    buffer.push(((address / 0x1_0000_0000_0000) % 0x100) as u8);
    buffer.push(((address / 0x100_0000_0000_0000) % 0x100) as u8);
    assert(final(buffer)@ =~= old(buffer)@ + prologue(address));
}

/// Writes the four bytes of `d` over the bytes at `at`, least significant
/// first.
fn write_displacement(buffer: &mut Vec<u8>, at: usize, d: i32)
    requires
        at + 4 <= old(buffer)@.len(),
    ensures
        final(buffer)@.len() == old(buffer)@.len(),
        forall|j: int|
            0 <= j < old(buffer)@.len() ==> final(buffer)@[j] == (if at <= j < at + 4 {
                le_bytes_i32(d as int)[j - at]
            } else {
                old(buffer)@[j]
            }),
{
    let u: i64 = if d < 0 {
        d as i64 + 0x1_0000_0000
    } else {
        d as i64
    };
    let length = buffer.len();
    assert(at + 4 <= length);
    buffer.set(at, (u % 0x100) as u8);
    buffer.set(at + 1, ((u / 0x100) % 0x100) as u8);
    buffer.set(at + 2, ((u / 0x1_0000) % 0x100) as u8);
    buffer.set(at + 3, ((u / 0x100_0000) % 0x100) as u8);
}

/// The emission pass: the prologue, the generated bytes of every
/// instruction in order, and the return. With the buffer comes, for every
/// instruction, the offset at which the displacement field of a bracket
/// stands in it.
pub fn emit(address: u64, instructions: &[ExtendedInstruction]) -> (r: (Vec<u8>, Vec<usize>))
    requires
        instructions.len() <= MAX_ASSEMBLED_LEN,
    ensures
        r.0@ == unlinked_image(address, instructions@),
        r.1@.len() == instructions@.len(),
        forall|k: int| 0 <= k < instructions@.len() ==> r.1@[k] == field_of(instructions@, k),
{
    let ghost code = instructions@;
    let ghost pieces = placeholder_pieces(code);
    let mut buffer: Vec<u8> = Vec::new();
    let mut fields: Vec<usize> = Vec::new();
    push_prologue(&mut buffer, address);
    let mut index: usize = 0;
    reveal(offset_of);
    assert(pieces.take(0) =~= Seq::<Seq<u8>>::empty());
    assert(buffer@ =~= prologue(address) + flat(pieces.take(0)));
    while index < instructions.len()
        invariant
            code == instructions@,
            pieces == placeholder_pieces(code),
            code.len() <= MAX_ASSEMBLED_LEN,
            index <= code.len(),
            buffer@ == prologue(address) + flat(pieces.take(index as int)),
            fields@.len() == index,
            forall|k: int| 0 <= k < index ==> fields@[k] == field_of(code, k),
        decreases code.len() - index,
    {
        proof {
            reveal(offset_of);
            lemma_offset_bounds(code, index as int);
            lemma_flat_take_next(pieces, index as int);
            lemma_encoding_len(code[index as int]);
        }
        fields.push(buffer.len() + DISPLACEMENT_FIELD);
        let mut bytes = encode(&instructions[index]);
        let ghost before = buffer@;
        buffer.append(&mut bytes);
        index += 1;
        assert(buffer@ =~= prologue(address) + flat(pieces.take(index as int)));
    }
    buffer.push(RETURN);
    proof {
        assert(pieces.take(index as int) =~= pieces);
    }
    (buffer, fields)
}

/// The relocation pass: for each pair of brackets, the distance from the
/// displacement field of the opening bracket to that of the closing one is
/// written into the first, and its negation into the second.
fn relocate(
    buffer: &mut Vec<u8>,
    instructions: &[ExtendedInstruction],
    fields: &[usize],
    jumps: &JumpMap,
    Ghost(address): Ghost<u64>,
)
    requires
        instructions.len() <= MAX_ASSEMBLED_LEN,
        old(buffer)@ == unlinked_image(address, instructions@),
        fields@.len() == instructions@.len(),
        forall|k: int| 0 <= k < instructions@.len() ==> fields@[k] == field_of(instructions@, k),
        balanced(instructions@),
        jumps.resolves(instructions@, fields@),
    ensures
        final(buffer)@ == image(address, instructions@),
{
    let ghost code = instructions@;
    let ghost n = code.len() as int;
    proof {
        lemma_unlinked_is_partly_linked(address, code);
        lemma_offset_bounds(code, n);
    }
    let mut index: usize = 0;
    while index < instructions.len()
        invariant
            code == instructions@,
            n == code.len(),
            n <= MAX_ASSEMBLED_LEN,
            index <= n,
            fields@.len() == n,
            forall|k: int| 0 <= k < n ==> fields@[k] == field_of(code, k),
            balanced(code),
            jumps.resolves(code, fields@),
            offset_of(code, n) <= PROLOGUE_LENGTH + 26 * n,
            partly_linked(buffer@, address, code, index as int),
        decreases n - index,
    {
        let ghost i = index as int;
        let ghost before = buffer@;
        match instructions[index] {
            ExtendedInstruction::Regular(Instruction::JumpForward) => {
                let ghost c = matching_close(code, i);
                proof {
                    lemma_pair_fields(code, i);
                }
                let open_field = fields[index];
                match jumps.close_of(open_field) {
                    None => {},
                    Some(close_field) => {
                        assert(close_field == field_of(code, c));
                        let forward = (close_field - open_field) as i32;
                        write_displacement(buffer, open_field, forward);
                        write_displacement(buffer, close_field, -forward);
                        proof {
                            lemma_relocation_step(before, buffer@, address, code, i, c);
                        }
                    },
                }
            },
            _ => {
                proof {
                    lemma_relocation_skip(buffer@, address, code, i);
                }
            },
        }
        index += 1;
    }
    proof {
        lemma_fully_linked(buffer@, address, code);
    }
}

/// The displacement fields of a pair of brackets lie apart, the opening
/// one first, and within the routine, whose length fits 31 bits.
proof fn lemma_pair_fields(code: Seq<ExtendedInstruction>, i: int)
    requires
        balanced(code),
        code.len() <= MAX_ASSEMBLED_LEN,
        0 <= i < code.len(),
        is_open(code[i]),
    ensures
        is_match(code, i, matching_close(code, i)),
        0 <= field_of(code, i),
        field_of(code, i) + 4 <= field_of(code, matching_close(code, i)),
        field_of(code, matching_close(code, i)) + 4 <= offset_of(code, code.len() as int),
        offset_of(code, code.len() as int) + 1 <= i32::MAX,
{
    let n = code.len() as int;
    let c = matching_close(code, i);
    lemma_open_has_match(code, i);
    lemma_offset_increases(code, i, c);
    lemma_offset_increases(code, c, n);
    lemma_offset_bounds(code, i);
    lemma_offset_bounds(code, n);
    lemma_encoding_len(code[i]);
    lemma_encoding_len(code[c]);
}

/// The displacement fields come in the order of their instructions.
proof fn lemma_fields_ordered(code: Seq<ExtendedInstruction>, fields: Seq<usize>)
    requires
        fields.len() == code.len(),
        forall|k: int| 0 <= k < code.len() ==> fields[k] == field_of(code, k),
    ensures
        positions_ordered(code, fields),
{
    assert forall|i: int, j: int| 0 <= i < j < fields.len() implies fields[i] < fields[j] by {
        lemma_offset_increases(code, i, j);
        lemma_encoding_len(code[i]);
    }
}

/// The generated buffer is the start of the relocation pass.
proof fn lemma_unlinked_is_partly_linked(address: u64, code: Seq<ExtendedInstruction>)
    requires
        balanced(code),
    ensures
        partly_linked(unlinked_image(address, code), address, code, 0),
{
    reveal(offset_of);
    let bytes = unlinked_image(address, code);
    let pieces = placeholder_pieces(code);
    let n = code.len() as int;
    assert(pieces.take(n) =~= pieces);
    assert(bytes.subrange(0, PROLOGUE_LENGTH as int) =~= prologue(address));
    assert forall|k: int, t: int|
        #![trigger bytes[offset_of(code, k) + t]]
        0 <= k < n && 0 <= t < encoding(code[k]).len() implies bytes[offset_of(code, k) + t]
        == (if relocated(code, k, 0) {
        linked_encoding(code, k)[t]
    } else {
        encoding(code[k])[t]
    }) by {
        lemma_flat_index(pieces, k, t);
        if is_close(code[k]) {
            lemma_close_has_match(code, k);
        }
        assert(!relocated(code, k, 0));
        assert(bytes[offset_of(code, k) + t] == flat(pieces)[flat(pieces.take(k)).len() + t]);
    }
}

/// An instruction that is no opening bracket leaves the pass where it is.
proof fn lemma_relocation_skip(
    bytes: Seq<u8>,
    address: u64,
    code: Seq<ExtendedInstruction>,
    i: int,
)
    requires
        0 <= i < code.len(),
        !is_open(code[i]),
        balanced(code),
        partly_linked(bytes, address, code, i),
    ensures
        partly_linked(bytes, address, code, i + 1),
{
    assert forall|k: int, t: int|
        #![trigger bytes[offset_of(code, k) + t]]
        0 <= k < code.len() && 0 <= t < encoding(code[k]).len() implies bytes[offset_of(code, k)
        + t] == (if relocated(code, k, i + 1) {
        linked_encoding(code, k)[t]
    } else {
        encoding(code[k])[t]
    }) by {
        if is_close(code[k]) {
            lemma_close_has_match(code, k);
            assert(matching_open(code, k) != i);
        }
        assert(relocated(code, k, i + 1) == relocated(code, k, i));
    }
}

/// Writing the two displacements of the pair `(i, c)` takes the pass one
/// instruction on.
proof fn lemma_relocation_step(
    before: Seq<u8>,
    after: Seq<u8>,
    address: u64,
    code: Seq<ExtendedInstruction>,
    i: int,
    c: int,
)
    requires
        balanced(code),
        is_match(code, i, c),
        partly_linked(before, address, code, i),
        after.len() == before.len(),
        field_of(code, c) - field_of(code, i) <= i32::MAX,
        forall|j: int|
            0 <= j < before.len() ==> after[j] == (if field_of(code, i) <= j < field_of(code, i)
                + 4 {
                le_bytes_i32(field_of(code, c) - field_of(code, i))[j - field_of(code, i)]
            } else if field_of(code, c) <= j < field_of(code, c) + 4 {
                le_bytes_i32(field_of(code, i) - field_of(code, c))[j - field_of(code, c)]
            } else {
                before[j]
            }),
    ensures
        partly_linked(after, address, code, i + 1),
{
    let n = code.len() as int;
    lemma_open_has_match(code, i);
    lemma_close_unique(code, i, c, matching_close(code, i));
    lemma_close_has_match(code, c);
    lemma_open_unique(code, i, matching_open(code, c), c);
    lemma_offset_increases(code, i, c);
    lemma_offset_increases(code, c, n);
    lemma_offset_bounds(code, 0);
    lemma_offset_bounds(code, i);
    lemma_encoding_len(code[i]);
    lemma_encoding_len(code[c]);
    assert(after.subrange(0, PROLOGUE_LENGTH as int) =~= before.subrange(
        0,
        PROLOGUE_LENGTH as int,
    ));
    assert forall|k: int, t: int|
        #![trigger after[offset_of(code, k) + t]]
        0 <= k < n && 0 <= t < encoding(code[k]).len() implies after[offset_of(code, k) + t] == (
    if relocated(code, k, i + 1) {
        linked_encoding(code, k)[t]
    } else {
        encoding(code[k])[t]
    }) by {
        let j = offset_of(code, k) + t;
        lemma_offset_bounds(code, k);
        lemma_offset_increases(code, k, n);
        assert(before[offset_of(code, k) + t] == (if relocated(code, k, i) {
            linked_encoding(code, k)[t]
        } else {
            encoding(code[k])[t]
        }));
        if k == i {
            assert(!relocated(code, k, i));
        } else if k == c {
            assert(!relocated(code, k, i));
        } else {
            if k < i {
                lemma_offset_increases(code, k, i);
            } else {
                lemma_offset_increases(code, i, k);
            }
            if k < c {
                lemma_offset_increases(code, k, c);
            } else {
                lemma_offset_increases(code, c, k);
            }
            if is_close(code[k]) {
                lemma_close_has_match(code, k);
                if matching_open(code, k) == i {
                    lemma_close_unique(code, i, c, k);
                }
            }
            assert(relocated(code, k, i + 1) == relocated(code, k, i));
            assert(after[j] == before[j]);
        }
    }
}

/// When the pass is through, the buffer holds the finished routine.
proof fn lemma_fully_linked(bytes: Seq<u8>, address: u64, code: Seq<ExtendedInstruction>)
    requires
        balanced(code),
        partly_linked(bytes, address, code, code.len() as int),
    ensures
        bytes == image(address, code),
{
    reveal(offset_of);
    let n = code.len() as int;
    let placed = placeholder_pieces(code);
    let linked = linked_pieces(code);
    let middle = bytes.subrange(PROLOGUE_LENGTH as int, bytes.len() - 1);
    assert(placed.take(n) =~= placed);
    lemma_same_layout(code, n);
    assert(linked.take(n) =~= linked);
    assert forall|k: int, t: int| 0 <= k < linked.len() && 0 <= t < linked[k].len() implies middle[flat(
        linked.take(k),
    ).len() + t] == #[trigger] linked[k][t] by {
        lemma_same_layout(code, k);
        lemma_encoding_len(code[k]);
        lemma_flat_index(placed, k, t);
        assert(bytes[offset_of(code, k) + t] == (if relocated(code, k, n) {
            linked_encoding(code, k)[t]
        } else {
            encoding(code[k])[t]
        }));
        if is_close(code[k]) {
            lemma_close_has_match(code, k);
        }
    }
    lemma_flat_is(middle, linked);
    assert(bytes =~= bytes.subrange(0, PROLOGUE_LENGTH as int) + middle + seq![RETURN]);
}

/// Resolving the jumps moves nothing: every instruction starts where it
/// started before.
proof fn lemma_same_layout(code: Seq<ExtendedInstruction>, k: int)
    requires
        0 <= k <= code.len(),
    ensures
        flat(linked_pieces(code).take(k)).len() == flat(placeholder_pieces(code).take(k)).len(),
    decreases k,
{
    if k > 0 {
        lemma_same_layout(code, k - 1);
        lemma_flat_take_next(linked_pieces(code), k - 1);
        lemma_flat_take_next(placeholder_pieces(code), k - 1);
        lemma_encoding_len(code[k - 1]);
    } else {
        assert(linked_pieces(code).take(0) =~= Seq::<Seq<u8>>::empty());
        assert(placeholder_pieces(code).take(0) =~= Seq::<Seq<u8>>::empty());
    }
}

/// Assembles a program into the routine that runs it on the tape at
/// `address`. The brackets are checked before anything is emitted: a
/// program with a bracket that has no partner gives no code, whatever its
/// length. Then come emission, the pairing of the displacement fields, and
/// relocation.
///
/// The bound on the length is asked of programs with paired brackets
/// only: those are the ones that are laid out.
pub fn assemble(address: u64, instructions: &[ExtendedInstruction]) -> (r: Result<
    Vec<u8>,
    BracketMismatch,
>)
    requires
        balanced(instructions@) ==> instructions.len() <= MAX_ASSEMBLED_LEN,
    ensures
        match r {
            Ok(code) => balanced(instructions@) && code@ == image(address, instructions@),
            Err(BracketMismatch::UnmatchedClose) => has_unmatched_close(instructions@),
            Err(BracketMismatch::UnmatchedOpen) => has_unmatched_open(instructions@),
        },
        has_unmatched_close(instructions@) ==> r == Err::<Vec<u8>, BracketMismatch>(
            BracketMismatch::UnmatchedClose,
        ),
        has_unmatched_open(instructions@) ==> r == Err::<Vec<u8>, BracketMismatch>(
            BracketMismatch::UnmatchedOpen,
        ),
        balanced(instructions@) ==> r.is_ok(),
{
    proof {
        lemma_bracket_verdicts(instructions@);
    }
    match resolve_jumps(instructions) {
        Err(e) => {
            return Err(e);
        },
        Ok(_) => {},
    }
    let (mut buffer, fields) = emit(address, instructions);
    proof {
        lemma_fields_ordered(instructions@, fields@);
    }
    match resolve_jumps_at(instructions, fields.as_slice()) {
        Err(e) => Err(e),
        Ok(jumps) => {
            relocate(&mut buffer, instructions, fields.as_slice(), &jumps, Ghost(address));
            Ok(buffer)
        },
    }
}

/// The routine is never empty: it holds at least the prologue and the
/// return.
pub proof fn lemma_image_len(address: u64, code: Seq<ExtendedInstruction>)
    ensures
        image(address, code).len() > PROLOGUE_LENGTH,
{
}

} // verus!
