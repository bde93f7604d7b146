//! Machine words: the position of the highest set bit, low-bit masks and
//! little-endian loads.

use crate::entropy::bits;
use vstd::arithmetic::power2::*;
use vstd::prelude::*;

verus! {

/// The position of the highest set bit of `value`, counted from zero.
pub open spec fn floor_log2(value: nat) -> nat
    decreases value,
{
    if value <= 1 {
        0
    } else {
        1 + floor_log2(value / 2)
    }
}

/// `floor_log2` is the exponent of the largest power of two that does not
/// exceed the value.
pub proof fn lemma_floor_log2(value: nat)
    requires
        value > 0,
    ensures
        pow2(floor_log2(value)) <= value < pow2(floor_log2(value) + 1),
    decreases value,
{
    lemma2_to64();
    if value > 1 {
        lemma_floor_log2(value / 2);
        lemma_pow2_unfold(floor_log2(value));
        lemma_pow2_unfold(floor_log2(value) + 1);
    }
}

/// The only exponent whose powers of two enclose a value is its `floor_log2`.
pub proof fn lemma_floor_log2_unique(value: nat, k: nat)
    requires
        pow2(k) <= value < pow2(k + 1),
    ensures
        floor_log2(value) == k,
    decreases value,
{
    lemma_pow2_pos(k);
    lemma_floor_log2(value);
    let f = floor_log2(value);
    if f < k {
        if f + 1 < k {
            lemma_pow2_strictly_increases(f + 1, k);
        }
    } else if k < f {
        if k + 1 < f {
            lemma_pow2_strictly_increases(k + 1, f);
        }
    }
}

/// Powers of two are ordered as their exponents are.
pub proof fn lemma_pow2_monotone(a: nat, b: nat)
    requires
        a <= b,
    ensures
        0 < pow2(a) <= pow2(b),
{
    lemma_pow2_pos(a);
    if a < b {
        lemma_pow2_strictly_increases(a, b);
    }
}

/// The position of the highest set bit.
pub fn highbit32(value: u32) -> (r: u32)
    requires
        value != 0,
    ensures
        r == floor_log2(value as nat),
        r < 32,
{
    let mut v: u32 = value;
    let mut r: u32 = 0;
    proof {
        lemma2_to64();
        lemma2_to64_rest();
    }
    while v > 1
        invariant
            v >= 1,
            floor_log2(value as nat) == r + floor_log2(v as nat),
            r <= 31,
            v < pow2((32 - r) as nat),
        decreases v,
    {
        proof {
            lemma_pow2_unfold((32 - r) as nat);
            lemma2_to64();
        }
        v = v / 2;
        r = r + 1;
    }
    r
}

/// `2^n` as a machine word.
pub fn power_of_two(n: u32) -> (r: u64)
    requires
        n < 64,
    ensures
        r == pow2(n as nat),
{
    proof {
        lemma2_to64();
        lemma2_to64_rest();
        lemma_pow2_monotone(n as nat, 63);
        vstd::bits::lemma_u64_shl_is_mul(1, n as u64);
    }
    1u64 << n
}

/// The lowest `n` bits of `word`.
pub fn low_bits(word: u64, n: u32) -> (r: u64)
    requires
        n < 64,
    ensures
        r == word as nat % pow2(n as nat),
        r < pow2(n as nat),
{
    proof {
        lemma_pow2_pos(n as nat);
        vstd::bits::lemma_u64_low_bits_mask_is_mod(word, n as nat);
    }
    let mask: u64 = power_of_two(n) - 1;
    word & mask
}

/// `word` without its lowest `n` bits.
pub fn high_bits(word: u64, n: u32) -> (r: u64)
    requires
        n < 64,
    ensures
        r == word as nat / pow2(n as nat),
{
    proof {
        vstd::bits::lemma_u64_shr_is_div(word, n as u64);
    }
    word >> n
}

/// The number that the `count` bytes from `offset` on spell.
pub fn read_le(input: &[u8], offset: usize, count: usize) -> (r: u64)
    requires
        offset + count <= input.len(),
        count <= 8,
    ensures
        r == bits::bytes_value(input@.subrange(offset as int, offset + count)),
        r < pow2((8 * count) as nat),
{
    let end: usize = offset + count;
    let mut at: usize = end;
    let mut word: u64 = 0;
    while at > offset
        invariant
            offset <= at <= end <= input.len(),
            end - offset <= 8,
            word == bits::bytes_value(input@.subrange(at as int, end as int)),
        decreases at,
    {
        proof {
            let rest = input@.subrange(at as int, end as int);
            let more = input@.subrange(at - 1, end as int);
            bits::lemma_bytes_value_bound(rest);
            lemma_pow2_monotone(8 * rest.len(), 56);
            lemma2_to64_rest();
            assert(more.drop_first() =~= rest);
        }
        at = at - 1;
        word = word * 256 + input[at] as u64;
    }
    proof {
        bits::lemma_bytes_value_bound(input@.subrange(offset as int, end as int));
    }
    word
}

/// The number that at most eight bytes from `offset` on spell.
pub fn read_word(input: &[u8], offset: usize) -> (r: u64)
    requires
        offset < input.len(),
    ensures
        r == bits::bytes_value(
            input@.subrange(
                offset as int,
                if offset + 8 <= input.len() {
                    offset + 8
                } else {
                    input.len() as int
                },
            ),
        ),
{
    let count: usize = if input.len() - offset >= 8 {
        8
    } else {
        input.len() - offset
    };
    read_le(input, offset, count)
}

/// The number that the four bytes at `offset` spell.
pub fn read_u32(input: &[u8], offset: usize) -> (r: u32)
    requires
        offset + 4 <= input.len(),
    ensures
        r == bits::bytes_value(input@.subrange(offset as int, offset + 4)),
{
    proof {
        lemma2_to64();
    }
    read_le(input, offset, 4) as u32
}

/// The number that the eight bytes at `offset` spell.
pub fn read_u64(input: &[u8], offset: usize) -> (r: u64)
    requires
        offset + 8 <= input.len(),
    ensures
        r == bits::bytes_value(input@.subrange(offset as int, offset + 8)),
{
    read_le(input, offset, 8)
}

/// The `count` lowest bytes of `value`.
pub fn le_bytes(value: u64, count: usize) -> (r: Vec<u8>)
    ensures
        r@ == bits::nat_bytes(value as nat, count as nat),
{
    let mut out: Vec<u8> = Vec::new();
    let mut rest: u64 = value;
    let mut i: usize = 0;
    while i < count
        invariant
            i <= count,
            out@ + bits::nat_bytes(rest as nat, (count - i) as nat) == bits::nat_bytes(
                value as nat,
                count as nat,
            ),
        decreases count - i,
    {
        let ghost before = out@;
        out.push((rest % 256) as u8);
        proof {
            let more = bits::nat_bytes(rest as nat / 256, (count - i - 1) as nat);
            assert(before + (seq![(rest as nat % 256) as u8] + more) =~= out@ + more);
        }
        rest = rest / 256;
        i = i + 1;
    }
    proof {
        assert(out@ + Seq::<u8>::empty() =~= out@);
    }
    out
}

/// How many bytes a machine word takes.
pub open spec fn word_size() -> nat {
    if usize::MAX == u32::MAX {
        4
    } else {
        8
    }
}

/// How many bytes a machine word takes.
pub fn size_of_usize() -> (r: usize)
    ensures
        r == word_size(),
        usize::MAX + 1 == pow2(8 * word_size()),
{
    proof {
        lemma2_to64();
        lemma2_to64_rest();
    }
    if mem_32bits() {
        4
    } else {
        8
    }
}

/// Whether machine words have 32 bits.
pub fn mem_32bits() -> (r: bool)
    ensures
        r == (word_size() == 4),
{
    usize::MAX as u64 == u32::MAX as u64
}

/// Whether machine words have 64 bits.
pub fn mem_64bits() -> (r: bool)
    ensures
        r == (word_size() == 8),
{
    usize::MAX as u64 != u32::MAX as u64
}

/// The machine word that the bytes at `offset` spell.
pub fn read_usize(input: &[u8], offset: usize) -> (r: usize)
    requires
        offset + word_size() <= input.len(),
    ensures
        r == bits::bytes_value(input@.subrange(offset as int, offset + word_size())),
{
    let size: usize = size_of_usize();
    read_le(input, offset, size) as usize
}

/// Puts a machine word's bytes at `offset`.
pub fn write_usize(output: &mut [u8], offset: usize, value: usize)
    requires
        offset + word_size() <= old(output)@.len(),
    ensures
        final(output)@ == old(output)@.take(offset as int) + bits::nat_bytes(
            value as nat,
            word_size(),
        ) + old(output)@.skip(offset + word_size()),
{
    let size: usize = size_of_usize();
    let bytes: Vec<u8> = le_bytes(value as u64, size);
    let mut i: usize = 0;
    let len: usize = output.len();
    assert(offset + size <= len);
    let end: usize = offset + size;
    let ghost before = output@;
    proof {
        bits::lemma_nat_bytes(value as nat, size as nat);
        assert(output@ =~= before.take(offset as int) + bytes@.take(0) + before.skip(
            offset as int,
        ));
    }
    while i < size
        invariant
            i <= size,
            end == offset + size,
            end <= before.len(),
            bytes@.len() == size,
            output@ == before.take(offset as int) + bytes@.take(i as int) + before.skip(offset + i),
        decreases size - i,
    {
        output[offset + i] = bytes[i];
        i = i + 1;
        proof {
            assert(output@ =~= before.take(offset as int) + bytes@.take(i as int) + before.skip(
                offset + i,
            ));
        }
    }
    proof {
        assert(bytes@.take(size as int) =~= bytes@);
    }
}

/// A machine word is read back as it was written.
pub proof fn law_word_roundtrip(before: Seq<u8>, offset: int, value: usize)
    requires
        0 <= offset,
        offset + word_size() <= before.len(),
    ensures
        ({
            let after = before.take(offset) + bits::nat_bytes(value as nat, word_size())
                + before.skip(offset + word_size());
            &&& after.len() == before.len()
            &&& bits::bytes_value(after.subrange(offset, offset + word_size())) == value
        }),
{
    let written = bits::nat_bytes(value as nat, word_size());
    let after = before.take(offset) + written + before.skip(offset + word_size());
    bits::lemma_nat_bytes(value as nat, word_size());
    lemma2_to64();
    lemma2_to64_rest();
    assert(after.subrange(offset, offset + word_size()) =~= written);
    vstd::arithmetic::div_mod::lemma_small_mod(value as nat, pow2(8 * word_size()));
}

} // verus!
