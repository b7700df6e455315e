//! The compressed byte stream: its instructions and how it is read.

use vstd::prelude::*;

verus! {

/// One instruction of a compressed stream.
#[derive(Clone, Copy, Debug, PartialEq, Eq, Structural)]
pub enum Instruction {
    /// Emit this byte.
    Literal(u8),
    /// Emit `length` bytes again, starting `offset` bytes behind the end of
    /// what has been emitted so far.
    Reference { length: usize, offset: usize },
}

/// The profiles for which the codec is defined: a reference of two bytes
/// with up to 15 offset bits, or a reference of one byte with 1 to 8 length
/// bits.
pub open spec fn valid_profile(low_bits: usize, ref_bytes: usize) -> bool {
    (ref_bytes == 2 && low_bits <= 15) || (ref_bytes == 1 && 1 <= low_bits <= 8)
}

/// The shortest length a reference can carry: its length field is stored
/// less this bias.
pub open spec fn length_bias(ref_bytes: usize) -> int {
    if ref_bytes == 2 {
        3
    } else {
        2
    }
}

/// The longest length a reference can carry.
pub open spec fn max_count(low_bits: usize, ref_bytes: usize) -> int {
    if ref_bytes == 2 {
        (1u32 << ((16 - low_bits) as u32)) + 2
    } else {
        (1u32 << (low_bits as u32)) + 1
    }
}

/// The farthest offset a reference can carry.
pub open spec fn max_offset(low_bits: usize, ref_bytes: usize) -> int {
    if ref_bytes == 2 {
        (1u32 << (low_bits as u32)) as int
    } else {
        (1u32 << ((8 - low_bits) as u32)) as int
    }
}

/// A word with the lowest `bits` bits set.
pub open spec fn low_mask(bits: usize) -> u32 {
    ((1u32 << (bits as u32)) - 1) as u32
}

/// Whether instruction number `bit` of a block is a reference, by the
/// block's map byte.
pub open spec fn is_reference_bit(map: u8, bit: int) -> bool {
    (map >> (bit as u8)) & 1u8 == 1u8
}

/// The reference word at the head of `rest`: two bytes, big end first, or
/// one byte.
pub open spec fn reference_word(rest: Seq<u8>, ref_bytes: usize) -> u32 {
    if ref_bytes == 2 {
        ((rest[0] as u32) << 8u32) | (rest[1] as u32)
    } else {
        rest[0] as u32
    }
}

/// The length that a reference word carries.
pub open spec fn word_length(word: u32, low_bits: usize, ref_bytes: usize) -> int {
    if ref_bytes == 2 {
        (word >> (low_bits as u32)) + 3
    } else {
        (word & low_mask(low_bits)) + 2
    }
}

/// The offset that a reference word carries.
pub open spec fn word_offset(word: u32, low_bits: usize, ref_bytes: usize) -> int {
    if ref_bytes == 2 {
        (word & low_mask(low_bits)) + 1
    } else {
        (word >> (low_bits as u32)) + 1
    }
}

/// `out` followed by `length` bytes, each a copy of the byte `offset`
/// places behind the end at the time it is written. A copy may read bytes
/// that the same replay wrote.
pub open spec fn replay(out: Seq<u8>, offset: int, length: int) -> Seq<u8>
    decreases length,
{
    if length <= 0 {
        out
    } else {
        replay(out.push(out[out.len() - offset]), offset, length - 1)
    }
}

/// What the rest of a stream adds to `out`, when instruction number `bit`
/// of the block under `map` comes next (`bit == 8`: a map byte comes next).
/// Reading ends with the input, and at a reference that is cut short or
/// reaches behind the start of the output.
pub open spec fn decode_items(
    rest: Seq<u8>,
    map: u8,
    bit: int,
    out: Seq<u8>,
    low_bits: usize,
    ref_bytes: usize,
) -> Seq<u8>
    decreases rest.len(),
{
    if rest.len() == 0 {
        out
    } else if bit >= 8 || bit < 0 {
        decode_items(rest.skip(1), rest[0], 0, out, low_bits, ref_bytes)
    } else if !is_reference_bit(map, bit) {
        decode_items(rest.skip(1), map, bit + 1, out.push(rest[0]), low_bits, ref_bytes)
    } else if rest.len() < ref_bytes || ref_bytes == 0 {
        out
    } else {
        let word = reference_word(rest, ref_bytes);
        let offset = word_offset(word, low_bits, ref_bytes);
        let length = word_length(word, low_bits, ref_bytes);
        if offset > out.len() {
            out
        } else {
            decode_items(
                rest.skip(ref_bytes as int),
                map,
                bit + 1,
                replay(out, offset, length),
                low_bits,
                ref_bytes,
            )
        }
    }
}

/// The bytes that a compressed stream stands for.
pub open spec fn decode(input: Seq<u8>, low_bits: usize, ref_bytes: usize) -> Seq<u8> {
    decode_items(input, 0u8, 8, Seq::empty(), low_bits, ref_bytes)
}

/// One shifted left by up to sixteen places lies between one and 65536.
pub proof fn lemma_shift_bounds(k: u32)
    by (bit_vector)
    requires
        k <= 16,
    ensures
        1 <= (1u32 << k) <= 65536,
        k <= 15 ==> (1u32 << k) <= 32768,
        k <= 8 ==> (1u32 << k) <= 256,
        k >= 1 ==> (1u32 << k) >= 2,
{
}

/// The fields of a reference word are no larger than the word.
proof fn lemma_word_fields(word: u32, k: u32)
    by (bit_vector)
    requires
        k <= 15,
        word <= 0xffff,
    ensures
        (word >> k) <= 0xffff,
        (word & (((1u32 << k) - 1) as u32)) < (1u32 << k),
{
}

/// Decompresses a stream of the given profile.
///
/// Reading stops without error at the end of the input, at a reference
/// that the input cuts short, and at a reference that reaches behind the
/// start of the output; what was produced until then is returned.
pub fn decompress(input: &[u8], low_bits: usize, ref_bytes: usize) -> (out: Vec<u8>)
    requires
        valid_profile(low_bits, ref_bytes),
    ensures
        out@ == decode(input@, low_bits, ref_bytes),
{
    let n: usize = input.len();
    let shift: u32 = low_bits as u32;
    proof {
        lemma_shift_bounds(shift);
    }
    let mask: u32 = (1u32 << shift) - 1;
    let mut out: Vec<u8> = Vec::new();
    let mut pos: usize = 0;
    let mut map: u8 = 0;
    let mut bit: u8 = 8;
    assert(input@.skip(0) =~= input@);
    while pos < n
        invariant
            valid_profile(low_bits, ref_bytes),
            n == input@.len(),
            shift == low_bits,
            mask == low_mask(low_bits),
            pos <= n,
            bit <= 8,
            decode(input@, low_bits, ref_bytes) == decode_items(
                input@.skip(pos as int),
                map,
                bit as int,
                out@,
                low_bits,
                ref_bytes,
            ),
        decreases n - pos,
    {
        let ghost rest = input@.skip(pos as int);
        assert(rest.len() == n - pos);
        assert(rest[0] == input@[pos as int]);
        assert(rest.skip(1) =~= input@.skip(pos + 1));
        if bit >= 8 {
            map = input[pos];
            pos += 1;
            bit = 0;
        } else if (map >> bit) & 1u8 == 0u8 {
            out.push(input[pos]);
            pos += 1;
            bit += 1;
        } else {
            assert((map >> bit) & 1u8 == 1u8) by (bit_vector)
                requires
                    (map >> bit) & 1u8 != 0u8,
            ;
            if n - pos < ref_bytes {
                return out;
            }
            assert(rest.skip(ref_bytes as int) =~= input@.skip(pos + ref_bytes));
            let word: u32 = if ref_bytes == 2 {
                assert(rest[1] == input@[pos + 1]);
                let hi: u32 = input[pos] as u32;
                let lo: u32 = input[pos + 1] as u32;
                assert((hi << 8u32) | lo <= 0xffff) by (bit_vector)
                    requires
                        hi <= 0xff,
                        lo <= 0xff,
                ;
                (hi << 8u32) | lo
            } else {
                input[pos] as u32
            };
            assert(word == reference_word(rest, ref_bytes));
            proof {
                lemma_shift_bounds(shift);
                lemma_word_fields(word, shift);
            }
            let length: usize;
            let offset: usize;
            if ref_bytes == 2 {
                length = ((word >> shift) + 3) as usize;
                offset = ((word & mask) + 1) as usize;
            } else {
                length = ((word & mask) + 2) as usize;
                offset = ((word >> shift) + 1) as usize;
            }
            assert(length == word_length(word, low_bits, ref_bytes));
            assert(offset == word_offset(word, low_bits, ref_bytes));
            if offset > out.len() {
                return out;
            }
            let ghost before = out@;
            let mut k: usize = 0;
            while k < length
                invariant
                    1 <= offset <= out.len(),
                    k <= length,
                    replay(out@, offset as int, length - k) == replay(
                        before,
                        offset as int,
                        length as int,
                    ),
                decreases length - k,
            {
                let byte: u8 = out[out.len() - offset];
                out.push(byte);
                k += 1;
            }
            pos += ref_bytes;
            bit += 1;
        }
    }
    out
}


/// Whether the profile can write the instruction: every literal, and a
/// reference whose length and offset lie within the profile's fields.
pub open spec fn instruction_fits(x: Instruction, low_bits: usize, ref_bytes: usize) -> bool {
    match x {
        Instruction::Literal(_) => true,
        Instruction::Reference { length, offset } => {
            &&& length_bias(ref_bytes) <= length <= max_count(low_bits, ref_bytes)
            &&& 1 <= offset <= max_offset(low_bits, ref_bytes)
        },
    }
}

/// The output after one more instruction.
pub open spec fn expand_one(out: Seq<u8>, x: Instruction) -> Seq<u8> {
    match x {
        Instruction::Literal(byte) => out.push(byte),
        Instruction::Reference { length, offset } => replay(out, offset as int, length as int),
    }
}

/// The output after the instructions are carried out in order, starting
/// from `out`.
pub open spec fn expand_onto(out: Seq<u8>, instructions: Seq<Instruction>) -> Seq<u8>
    decreases instructions.len(),
{
    if instructions.len() == 0 {
        out
    } else {
        expand_onto(expand_one(out, instructions[0]), instructions.skip(1))
    }
}

/// The bytes that a list of instructions stands for.
pub open spec fn expand(instructions: Seq<Instruction>) -> Seq<u8> {
    expand_onto(Seq::empty(), instructions)
}

/// Whether every instruction fits the profile and every reference stays
/// within the output that precedes it, when the list is carried out
/// starting from `out`.
pub open spec fn well_formed_onto(
    out: Seq<u8>,
    instructions: Seq<Instruction>,
    low_bits: usize,
    ref_bytes: usize,
) -> bool
    decreases instructions.len(),
{
    if instructions.len() == 0 {
        true
    } else {
        let x = instructions[0];
        &&& instruction_fits(x, low_bits, ref_bytes)
        &&& x matches Instruction::Reference { length, offset } ==> offset <= out.len()
        &&& well_formed_onto(expand_one(out, x), instructions.skip(1), low_bits, ref_bytes)
    }
}

/// Whether a list of instructions can be written in the profile and read
/// back.
pub open spec fn well_formed(
    instructions: Seq<Instruction>,
    low_bits: usize,
    ref_bytes: usize,
) -> bool {
    well_formed_onto(Seq::empty(), instructions, low_bits, ref_bytes)
}

/// The word of a reference: for two bytes the length above the offset, for
/// one byte the offset above the length, each less its bias.
pub open spec fn pack_word(length: usize, offset: usize, low_bits: usize, ref_bytes: usize) -> u32 {
    if ref_bytes == 2 {
        (((length - 3) as u32) << (low_bits as u32)) | ((offset - 1) as u32)
    } else {
        (((offset - 1) as u32) << (low_bits as u32)) | ((length - 2) as u32)
    }
}

/// The bytes that stand for one instruction.
pub open spec fn instruction_bytes(x: Instruction, low_bits: usize, ref_bytes: usize) -> Seq<u8> {
    match x {
        Instruction::Literal(byte) => seq![byte],
        Instruction::Reference { length, offset } => {
            let word = pack_word(length, offset, low_bits, ref_bytes);
            if ref_bytes == 2 {
                seq![(word >> 8u32) as u8, (word & 0xffu32) as u8]
            } else {
                seq![word as u8]
            }
        },
    }
}

/// The map byte of a block, with the bits of its first `upto` instructions:
/// bit `i` is set where instruction `i` is a reference.
pub open spec fn block_map(block: Seq<Instruction>, upto: int) -> u8
    decreases upto,
{
    if upto <= 0 {
        0u8
    } else {
        let low = block_map(block, upto - 1);
        if block[upto - 1] is Reference {
            low | (1u8 << ((upto - 1) as u8))
        } else {
            low
        }
    }
}

/// The bytes of a block's instructions, one after the other.
pub open spec fn block_body(block: Seq<Instruction>, low_bits: usize, ref_bytes: usize) -> Seq<u8>
    decreases block.len(),
{
    if block.len() == 0 {
        Seq::empty()
    } else {
        instruction_bytes(block[0], low_bits, ref_bytes) + block_body(
            block.skip(1),
            low_bits,
            ref_bytes,
        )
    }
}

/// The stream that stands for a list of instructions: blocks of up to
/// eight, each a map byte and then the instructions' bytes.
pub open spec fn encode(instructions: Seq<Instruction>, low_bits: usize, ref_bytes: usize) -> Seq<u8>
    decreases instructions.len(),
{
    if instructions.len() == 0 {
        Seq::empty()
    } else {
        let count = if instructions.len() < 8 {
            instructions.len() as int
        } else {
            8
        };
        let block = instructions.take(count);
        seq![block_map(block, count)] + block_body(block, low_bits, ref_bytes) + encode(
            instructions.skip(count),
            low_bits,
            ref_bytes,
        )
    }
}

/// Length and offset packed into two bytes are read back from them.
proof fn lemma_pack_two(len_val: u32, off_val: u32, k: u32)
    by (bit_vector)
    requires
        k <= 15,
        len_val < (1u32 << ((16 - k) as u32)),
        off_val < (1u32 << k),
    ensures
        ({
            let word = (len_val << k) | off_val;
            let hi = (word >> 8u32) as u8;
            let lo = (word & 0xffu32) as u8;
            &&& word <= 0xffff
            &&& ((hi as u32) << 8u32) | (lo as u32) == word
            &&& word >> k == len_val
            &&& word & (((1u32 << k) - 1) as u32) == off_val
        }),
{
}

/// Length and offset packed into one byte are read back from it.
proof fn lemma_pack_one(len_val: u32, off_val: u32, k: u32)
    by (bit_vector)
    requires
        k <= 8,
        len_val < (1u32 << k),
        off_val < (1u32 << ((8 - k) as u32)),
    ensures
        ({
            let word = (off_val << k) | len_val;
            &&& word <= 0xff
            &&& (word as u8) as u32 == word
            &&& word >> k == off_val
            &&& word & (((1u32 << k) - 1) as u32) == len_val
        }),
{
}

/// A reference that fits the profile is read back from its bytes with the
/// length and the offset it was written with.
pub proof fn lemma_reference_read_back(
    length: usize,
    offset: usize,
    low_bits: usize,
    ref_bytes: usize,
)
    requires
        valid_profile(low_bits, ref_bytes),
        instruction_fits(Instruction::Reference { length, offset }, low_bits, ref_bytes),
    ensures
        ({
            let bytes = instruction_bytes(
                Instruction::Reference { length, offset },
                low_bits,
                ref_bytes,
            );
            let word = reference_word(bytes, ref_bytes);
            &&& bytes.len() == ref_bytes
            &&& word == pack_word(length, offset, low_bits, ref_bytes)
            &&& word <= 0xffff
            &&& word_length(word, low_bits, ref_bytes) == length
            &&& word_offset(word, low_bits, ref_bytes) == offset
        }),
{
    let k = low_bits as u32;
    lemma_shift_bounds(k);
    if ref_bytes == 2 {
        lemma_shift_bounds((16 - k) as u32);
        lemma_pack_two((length - 3) as u32, (offset - 1) as u32, k);
    } else {
        lemma_shift_bounds((8 - k) as u32);
        lemma_pack_one((length - 2) as u32, (offset - 1) as u32, k);
    }
}

/// Setting bit `k` of a map byte sets that bit and leaves the others.
proof fn lemma_map_bit(low: u8, k: u8, i: u8)
    by (bit_vector)
    requires
        k < 8,
        i < 8,
    ensures
        ((low | (1u8 << k)) >> i) & 1u8 == 1u8 <==> (i == k || (low >> i) & 1u8 == 1u8),
        (0u8 >> i) & 1u8 != 1u8,
{
}

/// Bit `i` of a block's map byte is set exactly where instruction `i` is
/// among those counted and is a reference.
pub proof fn lemma_block_map_bits(block: Seq<Instruction>, upto: int, i: int)
    requires
        0 <= upto <= 8,
        upto <= block.len(),
        0 <= i < 8,
    ensures
        is_reference_bit(block_map(block, upto), i) <==> (i < upto && block[i] is Reference),
    decreases upto,
{
    if upto <= 0 {
        lemma_map_bit(0u8, 0u8, i as u8);
    } else {
        lemma_block_map_bits(block, upto - 1, i);
        lemma_map_bit(block_map(block, upto - 1), (upto - 1) as u8, i as u8);
    }
}

/// Carrying out two lists in a row is carrying out their concatenation.
pub proof fn lemma_expand_concat(out: Seq<u8>, a: Seq<Instruction>, b: Seq<Instruction>)
    ensures
        expand_onto(out, a + b) == expand_onto(expand_onto(out, a), b),
    decreases a.len(),
{
    if a.len() == 0 {
        assert(a + b =~= b);
    } else {
        assert((a + b).skip(1) =~= a.skip(1) + b);
        lemma_expand_concat(expand_one(out, a[0]), a.skip(1), b);
    }
}

/// A concatenation is well formed exactly when its first part is, and its
/// second part is after the first.
pub proof fn lemma_well_formed_concat(
    out: Seq<u8>,
    a: Seq<Instruction>,
    b: Seq<Instruction>,
    low_bits: usize,
    ref_bytes: usize,
)
    ensures
        well_formed_onto(out, a + b, low_bits, ref_bytes) <==> (well_formed_onto(
            out,
            a,
            low_bits,
            ref_bytes,
        ) && well_formed_onto(expand_onto(out, a), b, low_bits, ref_bytes)),
    decreases a.len(),
{
    if a.len() == 0 {
        assert(a + b =~= b);
    } else {
        assert((a + b).skip(1) =~= a.skip(1) + b);
        lemma_well_formed_concat(expand_one(out, a[0]), a.skip(1), b, low_bits, ref_bytes);
    }
}


/// Reading the rest of a block's body carries out the rest of its
/// instructions.
proof fn lemma_decode_block(
    block: Seq<Instruction>,
    from: int,
    map: u8,
    tail: Seq<u8>,
    out: Seq<u8>,
    low_bits: usize,
    ref_bytes: usize,
)
    requires
        valid_profile(low_bits, ref_bytes),
        0 <= from <= block.len() <= 8,
        forall|i: int|
            0 <= i < block.len() ==> (is_reference_bit(map, i) <==> block[i] is Reference),
        well_formed_onto(out, block.skip(from), low_bits, ref_bytes),
    ensures
        decode_items(
            block_body(block.skip(from), low_bits, ref_bytes) + tail,
            map,
            from,
            out,
            low_bits,
            ref_bytes,
        ) == decode_items(
            tail,
            map,
            block.len() as int,
            expand_onto(out, block.skip(from)),
            low_bits,
            ref_bytes,
        ),
    decreases block.len() - from,
{
    let pending = block.skip(from);
    let rest = block_body(pending, low_bits, ref_bytes) + tail;
    if from == block.len() {
        assert(rest =~= tail);
    } else {
        let x = block[from];
        assert(pending[0] == x);
        assert(pending.skip(1) =~= block.skip(from + 1));
        let bytes = instruction_bytes(x, low_bits, ref_bytes);
        let later = block_body(block.skip(from + 1), low_bits, ref_bytes);
        assert(rest =~= bytes + (later + tail));
        assert(is_reference_bit(map, from) <==> x is Reference);
        match x {
            Instruction::Literal(byte) => {
                assert(rest[0] == byte);
                assert(rest.skip(1) =~= later + tail);
                lemma_decode_block(
                    block,
                    from + 1,
                    map,
                    tail,
                    out.push(byte),
                    low_bits,
                    ref_bytes,
                );
            },
            Instruction::Reference { length, offset } => {
                lemma_reference_read_back(length, offset, low_bits, ref_bytes);
                assert(rest.len() >= ref_bytes);
                assert(rest[0] == bytes[0]);
                if ref_bytes == 2 {
                    assert(rest[1] == bytes[1]);
                }
                assert(reference_word(rest, ref_bytes) == reference_word(bytes, ref_bytes));
                assert(rest.skip(ref_bytes as int) =~= later + tail);
                lemma_decode_block(
                    block,
                    from + 1,
                    map,
                    tail,
                    replay(out, offset as int, length as int),
                    low_bits,
                    ref_bytes,
                );
            },
        }
    }
}

/// Reading what `encode` wrote, after a block has ended, carries out the
/// instructions that were written.
pub proof fn lemma_decode_encode_onto(
    instructions: Seq<Instruction>,
    map: u8,
    out: Seq<u8>,
    low_bits: usize,
    ref_bytes: usize,
)
    requires
        valid_profile(low_bits, ref_bytes),
        well_formed_onto(out, instructions, low_bits, ref_bytes),
    ensures
        decode_items(encode(instructions, low_bits, ref_bytes), map, 8, out, low_bits, ref_bytes)
            == expand_onto(out, instructions),
    decreases instructions.len(),
{
    if instructions.len() > 0 {
        let count = if instructions.len() < 8 {
            instructions.len() as int
        } else {
            8
        };
        let block = instructions.take(count);
        let later = instructions.skip(count);
        assert(instructions =~= block + later);
        lemma_well_formed_concat(out, block, later, low_bits, ref_bytes);
        lemma_expand_concat(out, block, later);
        let m = block_map(block, count);
        assert forall|i: int| 0 <= i < block.len() implies (is_reference_bit(m, i)
            <==> block[i] is Reference) by {
            lemma_block_map_bits(block, count, i);
        }
        let body = block_body(block, low_bits, ref_bytes);
        let tail = encode(later, low_bits, ref_bytes);
        let stream = encode(instructions, low_bits, ref_bytes);
        assert(stream =~= seq![m] + (body + tail));
        assert(stream[0] == m);
        assert(stream.skip(1) =~= body + tail);
        assert(block.skip(0) =~= block);
        lemma_decode_block(block, 0, m, tail, out, low_bits, ref_bytes);
        let reached = expand_onto(out, block);
        if count == 8 {
            lemma_decode_encode_onto(later, m, reached, low_bits, ref_bytes);
        } else {
            assert(later.len() == 0);
            assert(tail.len() == 0);
        }
    }
}

/// Reading back what was written: a well-formed list of instructions,
/// encoded and then decoded, gives the bytes the list stands for.
pub proof fn lemma_decode_encode(instructions: Seq<Instruction>, low_bits: usize, ref_bytes: usize)
    requires
        valid_profile(low_bits, ref_bytes),
        well_formed(instructions, low_bits, ref_bytes),
    ensures
        decode(encode(instructions, low_bits, ref_bytes), low_bits, ref_bytes) == expand(
            instructions,
        ),
{
    lemma_decode_encode_onto(instructions, 0u8, Seq::empty(), low_bits, ref_bytes);
}


/// Writes a list of instructions as a stream of the given profile.
pub fn encode_instructions(instructions: &[Instruction], low_bits: usize, ref_bytes: usize) -> (out:
    Vec<u8>)
    requires
        valid_profile(low_bits, ref_bytes),
        forall|i: int|
            0 <= i < instructions@.len() ==> instruction_fits(
                #[trigger] instructions@[i],
                low_bits,
                ref_bytes,
            ),
    ensures
        out@ == encode(instructions@, low_bits, ref_bytes),
{
    let n: usize = instructions.len();
    let shift: u32 = low_bits as u32;
    let mut result: Vec<u8> = Vec::new();
    let mut start: usize = 0;
    assert(instructions@.skip(0) =~= instructions@);
    while start < n
        invariant
            valid_profile(low_bits, ref_bytes),
            shift == low_bits,
            start <= n,
            n == instructions@.len(),
            forall|i: int|
                0 <= i < instructions@.len() ==> instruction_fits(
                    #[trigger] instructions@[i],
                    low_bits,
                    ref_bytes,
                ),
            result@ + encode(instructions@.skip(start as int), low_bits, ref_bytes) == encode(
                instructions@,
                low_bits,
                ref_bytes,
            ),
        decreases n - start,
    {
        let end: usize = if n - start > 8 {
            start + 8
        } else {
            n
        };
        let ghost pending = instructions@.skip(start as int);
        let ghost count = end - start;
        let ghost block = pending.take(count);
        let ghost before = result@;
        assert(pending.skip(count) =~= instructions@.skip(end as int));
        let mut bitmap: u8 = 0;
        let mut i: usize = start;
        while i < end
            invariant
                start <= i <= end <= n,
                end - start <= 8,
                n == instructions@.len(),
                block == instructions@.skip(start as int).take(end - start),
                bitmap == block_map(block, i - start),
            decreases end - i,
        {
            assert(block[i - start] == instructions@[i as int]);
            match instructions[i] {
                Instruction::Reference { .. } => {
                    bitmap = bitmap | (1u8 << ((i - start) as u8));
                },
                Instruction::Literal(_) => {},
            }
            i += 1;
        }
        result.push(bitmap);
        let mut i: usize = start;
        assert(block.skip(0) =~= block);
        while i < end
            invariant
                valid_profile(low_bits, ref_bytes),
                shift == low_bits,
                start <= i <= end <= n,
                n == instructions@.len(),
                block == instructions@.skip(start as int).take(end - start),
                forall|i: int|
                    0 <= i < instructions@.len() ==> instruction_fits(
                        #[trigger] instructions@[i],
                        low_bits,
                        ref_bytes,
                    ),
                result@ + block_body(block.skip(i - start), low_bits, ref_bytes) =~= before.push(
                    bitmap,
                ) + block_body(block, low_bits, ref_bytes),
            decreases end - i,
        {
            let ghost x = block[i - start];
            assert(x == instructions@[i as int]);
            assert(block.skip(i - start)[0] == x);
            assert(block.skip(i - start).skip(1) =~= block.skip(i - start + 1));
            let ghost head = result@;
            match instructions[i] {
                Instruction::Reference { length, offset } => {
                    proof {
                        lemma_reference_read_back(length, offset, low_bits, ref_bytes);
                    }
                    if ref_bytes == 2 {
                        let word: u32 = (((length - 3) as u32) << shift) | ((offset - 1) as u32);
                        result.push((word >> 8u32) as u8);
                        result.push((word & 0xffu32) as u8);
                    } else {
                        let word: u32 = (((offset - 1) as u32) << shift) | ((length - 2) as u32);
                        result.push(word as u8);
                    }
                },
                Instruction::Literal(byte) => {
                    result.push(byte);
                },
            }
            assert(result@ =~= head + instruction_bytes(x, low_bits, ref_bytes));
            i += 1;
        }
        assert(block.skip(count).len() == 0);
        assert(result@ =~= before.push(bitmap) + block_body(block, low_bits, ref_bytes));
        assert(before.push(bitmap) =~= before + seq![bitmap]);
        assert(result@ + encode(instructions@.skip(end as int), low_bits, ref_bytes) =~= before
            + encode(pending, low_bits, ref_bytes));
        start = end;
    }
    result
}

} // verus!
