//! Length and offset codes.
//!
//! Lengths and offsets are coded by a class and by extra bits that tell the
//! values of the class apart.

use crate::entropy::mem;
use crate::error::{Error, Result};
use crate::sequence::repeat::{RepeatOffsets, SequenceCommand};
use vstd::arithmetic::power2::*;
use vstd::prelude::*;

verus! {

pub const LITERAL_LENGTH_BASELINES: [u32; 36] = [
    0, 1, 2, 3, 4, 5, 6, 7, 8, 9, 10, 11, 12, 13, 14, 15, 16, 18, 20, 22, 24, 28, 32, 40, 48, 64,
    128, 256, 512, 1024, 2048, 4096, 8192, 16384, 32768, 65536,
];

pub const LITERAL_LENGTH_EXTRA_BITS: [u8; 36] = [
    0, 0, 0, 0, 0, 0, 0, 0, 0, 0, 0, 0, 0, 0, 0, 0, 1, 1, 1, 1, 2, 2, 3, 3, 4, 6, 7, 8, 9, 10, 11,
    12, 13, 14, 15, 16,
];

pub const MATCH_LENGTH_BASELINES: [u32; 53] = [
    3, 4, 5, 6, 7, 8, 9, 10, 11, 12, 13, 14, 15, 16, 17, 18, 19, 20, 21, 22, 23, 24, 25, 26, 27,
    28, 29, 30, 31, 32, 33, 34, 35, 37, 39, 41, 43, 47, 51, 59, 67, 83, 99, 131, 259, 515, 1027,
    2051, 4099, 8195, 16387, 32771, 65539,
];

pub const MATCH_LENGTH_EXTRA_BITS: [u8; 53] = [
    0, 0, 0, 0, 0, 0, 0, 0, 0, 0, 0, 0, 0, 0, 0, 0, 0, 0, 0, 0, 0, 0, 0, 0, 0, 0, 0, 0, 0, 0, 0, 0,
    1, 1, 1, 1, 2, 2, 3, 3, 4, 4, 5, 7, 8, 9, 10, 11, 12, 13, 14, 15, 16,
];

pub const LITERAL_LENGTH_CODE_TABLE: [u8; 64] = [
    0, 1, 2, 3, 4, 5, 6, 7, 8, 9, 10, 11, 12, 13, 14, 15, 16, 16, 17, 17, 18, 18, 19, 19, 20, 20,
    20, 20, 21, 21, 21, 21, 22, 22, 22, 22, 22, 22, 22, 22, 23, 23, 23, 23, 23, 23, 23, 23, 24, 24,
    24, 24, 24, 24, 24, 24, 24, 24, 24, 24, 24, 24, 24, 24,
];

pub const MATCH_LENGTH_CODE_TABLE: [u8; 128] = [
    0, 1, 2, 3, 4, 5, 6, 7, 8, 9, 10, 11, 12, 13, 14, 15, 16, 17, 18, 19, 20, 21, 22, 23, 24, 25,
    26, 27, 28, 29, 30, 31, 32, 32, 33, 33, 34, 34, 35, 35, 36, 36, 36, 36, 37, 37, 37, 37, 38, 38,
    38, 38, 38, 38, 38, 38, 39, 39, 39, 39, 39, 39, 39, 39, 40, 40, 40, 40, 40, 40, 40, 40, 40, 40,
    40, 40, 40, 40, 40, 40, 41, 41, 41, 41, 41, 41, 41, 41, 41, 41, 41, 41, 41, 41, 41, 41, 42, 42,
    42, 42, 42, 42, 42, 42, 42, 42, 42, 42, 42, 42, 42, 42, 42, 42, 42, 42, 42, 42, 42, 42, 42, 42,
    42, 42, 42, 42, 42, 42,
];

/// The longest run of literals that a code covers.
pub const LITERAL_LENGTH_MAX: u32 = 0x1_FFFF;

/// The longest match that a code covers.
pub const MATCH_LENGTH_MAX: u32 = 0x2_0002;

/// The largest literal length code.
pub const LITERAL_LENGTH_CODE_MAX: u8 = 35;

/// The largest offset code.
pub const OFFSET_CODE_MAX: u8 = 31;

/// The largest match length code.
pub const MATCH_LENGTH_CODE_MAX: u8 = 52;

// ---------------------------------------------------------------------------
// The classes.

/// The shortest run of literals of a code.
pub open spec fn literal_base(code: nat) -> nat {
    if code < 16 {
        code
    } else if code < 20 {
        (16 + 2 * (code - 16)) as nat
    } else if code < 22 {
        (24 + 4 * (code - 20)) as nat
    } else if code < 24 {
        (32 + 8 * (code - 22)) as nat
    } else if code == 24 {
        48
    } else {
        pow2((code - 19) as nat)
    }
}

/// How many extra bits a literal length code has.
pub open spec fn literal_extra_bits(code: nat) -> nat {
    if code < 16 {
        0
    } else if code < 20 {
        1
    } else if code < 22 {
        2
    } else if code < 24 {
        3
    } else if code == 24 {
        4
    } else {
        (code - 19) as nat
    }
}

/// The code of a run of literals.
pub open spec fn literal_code(length: nat) -> nat {
    if length < 16 {
        length
    } else if length < 24 {
        16 + (length - 16) as nat / 2
    } else if length < 32 {
        20 + (length - 24) as nat / 4
    } else if length < 48 {
        22 + (length - 32) as nat / 8
    } else if length < 64 {
        24
    } else {
        mem::floor_log2(length) + 19
    }
}

/// The shortest match of a code.
pub open spec fn match_base(code: nat) -> nat {
    if code < 32 {
        code + 3
    } else if code < 36 {
        (35 + 2 * (code - 32)) as nat
    } else if code < 38 {
        (43 + 4 * (code - 36)) as nat
    } else if code < 40 {
        (51 + 8 * (code - 38)) as nat
    } else if code < 42 {
        (67 + 16 * (code - 40)) as nat
    } else if code == 42 {
        99
    } else {
        pow2((code - 36) as nat) + 3
    }
}

/// How many extra bits a match length code has.
pub open spec fn match_extra_bits(code: nat) -> nat {
    if code < 32 {
        0
    } else if code < 36 {
        1
    } else if code < 38 {
        2
    } else if code < 40 {
        3
    } else if code < 42 {
        4
    } else if code == 42 {
        5
    } else {
        (code - 36) as nat
    }
}

/// The code of a match that is `above` bytes longer than the shortest one.
pub open spec fn match_code_above(above: nat) -> nat {
    if above < 32 {
        above
    } else if above < 40 {
        32 + (above - 32) as nat / 2
    } else if above < 48 {
        36 + (above - 40) as nat / 4
    } else if above < 64 {
        38 + (above - 48) as nat / 8
    } else if above < 96 {
        40 + (above - 64) as nat / 16
    } else if above < 128 {
        42
    } else {
        mem::floor_log2(above) + 36
    }
}

/// The code of a match.
pub open spec fn match_code(length: nat) -> nat {
    match_code_above((length - 3) as nat)
}

/// The code of an offset value: its extra bits are the bits below the highest.
pub open spec fn offset_class(value: nat) -> nat {
    mem::floor_log2(value)
}

// ---------------------------------------------------------------------------
// The tables hold the classes.

spec fn literal_tables_hold(n: nat) -> bool
    decreases n,
{
    n == 0 || {
        let i = (n - 1) as nat;
        &&& literal_tables_hold(i)
        &&& LITERAL_LENGTH_BASELINES@[i as int] == literal_base(i)
        &&& LITERAL_LENGTH_EXTRA_BITS@[i as int] == literal_extra_bits(i)
    }
}

proof fn lemma_literal_tables_hold(n: nat, i: nat)
    requires
        literal_tables_hold(n),
        i < n,
    ensures
        LITERAL_LENGTH_BASELINES@[i as int] == literal_base(i),
        LITERAL_LENGTH_EXTRA_BITS@[i as int] == literal_extra_bits(i),
    decreases n,
{
    if i + 1 < n {
        lemma_literal_tables_hold((n - 1) as nat, i);
    }
}

/// The tables of literal length codes hold what the codes stand for.
pub proof fn lemma_literal_tables(code: nat)
    requires
        code <= LITERAL_LENGTH_CODE_MAX,
    ensures
        LITERAL_LENGTH_BASELINES@[code as int] == literal_base(code),
        LITERAL_LENGTH_EXTRA_BITS@[code as int] == literal_extra_bits(code),
        literal_extra_bits(code) <= 16,
{
    lemma2_to64();
    assert(literal_tables_hold(36)) by {
        reveal_with_fuel(literal_tables_hold, 37);
    }
    lemma_literal_tables_hold(36, code);
}

spec fn match_tables_hold(n: nat) -> bool
    decreases n,
{
    n == 0 || {
        let i = (n - 1) as nat;
        &&& match_tables_hold(i)
        &&& MATCH_LENGTH_BASELINES@[i as int] == match_base(i)
        &&& MATCH_LENGTH_EXTRA_BITS@[i as int] == match_extra_bits(i)
    }
}

proof fn lemma_match_tables_hold(n: nat, i: nat)
    requires
        match_tables_hold(n),
        i < n,
    ensures
        MATCH_LENGTH_BASELINES@[i as int] == match_base(i),
        MATCH_LENGTH_EXTRA_BITS@[i as int] == match_extra_bits(i),
    decreases n,
{
    if i + 1 < n {
        lemma_match_tables_hold((n - 1) as nat, i);
    }
}

/// The tables of match length codes hold what the codes stand for.
pub proof fn lemma_match_tables(code: nat)
    requires
        code <= MATCH_LENGTH_CODE_MAX,
    ensures
        MATCH_LENGTH_BASELINES@[code as int] == match_base(code),
        MATCH_LENGTH_EXTRA_BITS@[code as int] == match_extra_bits(code),
        match_extra_bits(code) <= 16,
{
    lemma2_to64();
    assert(match_tables_hold(53)) by {
        reveal_with_fuel(match_tables_hold, 54);
    }
    lemma_match_tables_hold(53, code);
}

spec fn literal_codes_hold(n: nat) -> bool
    decreases n,
{
    n == 0 || {
        let i = (n - 1) as nat;
        literal_codes_hold(i) && LITERAL_LENGTH_CODE_TABLE@[i as int] == literal_code(i)
    }
}

proof fn lemma_literal_codes_hold(n: nat, i: nat)
    requires
        literal_codes_hold(n),
        i < n,
    ensures
        LITERAL_LENGTH_CODE_TABLE@[i as int] == literal_code(i),
    decreases n,
{
    if i + 1 < n {
        lemma_literal_codes_hold((n - 1) as nat, i);
    }
}

spec fn match_codes_hold(n: nat) -> bool
    decreases n,
{
    n == 0 || {
        let i = (n - 1) as nat;
        match_codes_hold(i) && MATCH_LENGTH_CODE_TABLE@[i as int] == match_code_above(i)
    }
}

proof fn lemma_match_codes_hold(n: nat, i: nat)
    requires
        match_codes_hold(n),
        i < n,
    ensures
        MATCH_LENGTH_CODE_TABLE@[i as int] == match_code_above(i),
    decreases n,
{
    if i + 1 < n {
        lemma_match_codes_hold((n - 1) as nat, i);
    }
}

// ---------------------------------------------------------------------------
// Laws of the classes.

/// Every run of literals lies in the range of its code.
pub proof fn law_literal_code_covers(length: nat)
    requires
        length <= LITERAL_LENGTH_MAX,
    ensures
        literal_code(length) <= LITERAL_LENGTH_CODE_MAX,
        literal_base(literal_code(length)) <= length < literal_base(literal_code(length)) + pow2(
            literal_extra_bits(literal_code(length)),
        ),
{
    lemma2_to64();
    if length >= 64 {
        mem::lemma_floor_log2(length);
        let k = mem::floor_log2(length);
        if k < 6 {
            mem::lemma_pow2_monotone(k + 1, 6);
        }
        if k > 16 {
            mem::lemma_pow2_monotone(17, k);
        }
        lemma_pow2_unfold(k + 1);
    }
}

/// Every run of literals in the range of a code has that code.
pub proof fn law_literal_code_unique(code: nat, extra: nat)
    requires
        code <= LITERAL_LENGTH_CODE_MAX,
        extra < pow2(literal_extra_bits(code)),
    ensures
        literal_base(code) + extra <= LITERAL_LENGTH_MAX,
        literal_code(literal_base(code) + extra) == code,
{
    lemma2_to64();
    if code >= 25 {
        let k = (code - 19) as nat;
        lemma_pow2_unfold(k + 1);
        mem::lemma_pow2_monotone(6, k);
        mem::lemma_pow2_monotone(k, 16);
        mem::lemma_floor_log2_unique(literal_base(code) + extra, k);
    }
}

/// Every match lies in the range of its code.
pub proof fn law_match_code_covers(length: nat)
    requires
        3 <= length <= MATCH_LENGTH_MAX,
    ensures
        match_code(length) <= MATCH_LENGTH_CODE_MAX,
        match_base(match_code(length)) <= length < match_base(match_code(length)) + pow2(
            match_extra_bits(match_code(length)),
        ),
{
    lemma2_to64();
    let above = (length - 3) as nat;
    if above >= 128 {
        mem::lemma_floor_log2(above);
        let k = mem::floor_log2(above);
        if k < 7 {
            mem::lemma_pow2_monotone(k + 1, 7);
        }
        if k > 16 {
            mem::lemma_pow2_monotone(17, k);
        }
        lemma_pow2_unfold(k + 1);
    }
}

/// Every match in the range of a code has that code.
pub proof fn law_match_code_unique(code: nat, extra: nat)
    requires
        code <= MATCH_LENGTH_CODE_MAX,
        extra < pow2(match_extra_bits(code)),
    ensures
        3 <= match_base(code) + extra <= MATCH_LENGTH_MAX,
        match_code(match_base(code) + extra) == code,
{
    lemma2_to64();
    if code >= 43 {
        let k = (code - 36) as nat;
        lemma_pow2_unfold(k + 1);
        mem::lemma_pow2_monotone(7, k);
        mem::lemma_pow2_monotone(k, 16);
        mem::lemma_floor_log2_unique(pow2(k) + extra, k);
    }
}

/// Every offset value lies in the range of its code.
pub proof fn law_offset_code_covers(value: nat)
    requires
        0 < value <= u32::MAX,
    ensures
        offset_class(value) <= OFFSET_CODE_MAX,
        pow2(offset_class(value)) <= value < 2 * pow2(offset_class(value)),
{
    lemma2_to64();
    mem::lemma_floor_log2(value);
    let k = mem::floor_log2(value);
    if k > 31 {
        mem::lemma_pow2_monotone(32, k);
    }
    lemma_pow2_unfold(k + 1);
}

/// Every offset value in the range of a code has that code.
pub proof fn law_offset_code_unique(code: nat, extra: nat)
    requires
        code <= OFFSET_CODE_MAX,
        extra < pow2(code),
    ensures
        0 < pow2(code) + extra <= u32::MAX,
        offset_class(pow2(code) + extra) == code,
{
    lemma2_to64();
    mem::lemma_pow2_monotone(code, 31);
    lemma_pow2_unfold(code + 1);
    mem::lemma_floor_log2_unique(pow2(code) + extra, code);
}

// ---------------------------------------------------------------------------
// The codes of values.

/// The code of a run of literals. A run that no code covers is refused.
pub fn literal_length_code(literal_length: u32) -> (r: Result<u32>)
    ensures
        literal_length <= LITERAL_LENGTH_MAX ==> r is Ok && r->Ok_0 == literal_code(
            literal_length as nat,
        ),
        literal_length > LITERAL_LENGTH_MAX ==> r == Err::<u32, Error>(
            Error::InvalidParameter("literal length exceeds the supported range"),
        ),
{
    if literal_length > LITERAL_LENGTH_MAX {
        return Err(Error::InvalidParameter("literal length exceeds the supported range"));
    }
    Ok(literal_length_code_unchecked(literal_length) as u32)
}

/// The code of a match. A match that no code covers is refused.
pub fn match_length_code(match_length: u32) -> (r: Result<u32>)
    ensures
        match_length < 3 ==> r == Err::<u32, Error>(
            Error::InvalidParameter("match length must be at least 3 bytes"),
        ),
        3 <= match_length <= MATCH_LENGTH_MAX ==> r is Ok && r->Ok_0 == match_code(
            match_length as nat,
        ),
        match_length > MATCH_LENGTH_MAX ==> r == Err::<u32, Error>(
            Error::InvalidParameter("match length exceeds the supported range"),
        ),
{
    if match_length < 3 {
        return Err(Error::InvalidParameter("match length must be at least 3 bytes"));
    }
    if match_length > MATCH_LENGTH_MAX {
        return Err(Error::InvalidParameter("match length exceeds the supported range"));
    }
    Ok(match_length_code_unchecked(match_length) as u32)
}

/// The code of an offset value. The value zero has none.
pub fn offset_code(offset_value: u32) -> (r: Result<u32>)
    ensures
        offset_value == 0 ==> r == Err::<u32, Error>(
            Error::InvalidParameter("offset value must be non-zero"),
        ),
        offset_value > 0 ==> r is Ok && r->Ok_0 == offset_class(offset_value as nat),
{
    if offset_value == 0 {
        return Err(Error::InvalidParameter("offset value must be non-zero"));
    }
    Ok(mem::highbit32(offset_value))
}

/// The code of a run of literals that is known to have one.
pub fn literal_length_code_unchecked(literal_length: u32) -> (r: u8)
    requires
        literal_length <= LITERAL_LENGTH_MAX,
    ensures
        r == literal_code(literal_length as nat),
        r <= LITERAL_LENGTH_CODE_MAX,
{
    proof {
        law_literal_code_covers(literal_length as nat);
    }
    if literal_length <= 63 {
        proof {
            lemma2_to64();
            assert(literal_codes_hold(64)) by {
                reveal_with_fuel(literal_codes_hold, 65);
            }
            lemma_literal_codes_hold(64, literal_length as nat);
        }
        LITERAL_LENGTH_CODE_TABLE[literal_length as usize]
    } else {
        (mem::highbit32(literal_length) + 19) as u8
    }
}

/// The code of a match that is known to have one.
pub fn match_length_code_unchecked(match_length: u32) -> (r: u8)
    requires
        3 <= match_length <= MATCH_LENGTH_MAX,
    ensures
        r == match_code(match_length as nat),
        r <= MATCH_LENGTH_CODE_MAX,
{
    proof {
        law_match_code_covers(match_length as nat);
    }
    let above: u32 = match_length - 3;
    if above <= 127 {
        proof {
            lemma2_to64();
            assert(match_codes_hold(64)) by {
                reveal_with_fuel(match_codes_hold, 65);
            }
            assert(match_codes_hold(128)) by {
                reveal_with_fuel(match_codes_hold, 65);
            }
            lemma_match_codes_hold(128, above as nat);
        }
        MATCH_LENGTH_CODE_TABLE[above as usize]
    } else {
        (mem::highbit32(above) + 36) as u8
    }
}

/// The code of an offset value that is known to have one.
pub fn offset_code_unchecked(offset_value: u32) -> (r: u8)
    requires
        offset_value > 0,
    ensures
        r == offset_class(offset_value as nat),
        r <= OFFSET_CODE_MAX,
{
    mem::highbit32(offset_value) as u8
}

/// How many extra bits a literal length code has.
pub fn ll_bits(code: u8) -> (r: u32)
    requires
        code <= LITERAL_LENGTH_CODE_MAX,
    ensures
        r == literal_extra_bits(code as nat),
        r <= 16,
{
    proof {
        lemma_literal_tables(code as nat);
    }
    LITERAL_LENGTH_EXTRA_BITS[code as usize] as u32
}

/// How many extra bits a match length code has.
pub fn ml_bits(code: u8) -> (r: u32)
    requires
        code <= MATCH_LENGTH_CODE_MAX,
    ensures
        r == match_extra_bits(code as nat),
        r <= 16,
{
    proof {
        lemma_match_tables(code as nat);
    }
    MATCH_LENGTH_EXTRA_BITS[code as usize] as u32
}

// ---------------------------------------------------------------------------
// Whole sequences.

/// A sequence as codes and extra bits.
#[derive(Debug, Clone, Copy, PartialEq, Eq, Structural)]
pub struct EncodedSequence {
    pub ll_code: u8,
    pub ll_extra: u32,
    pub of_code: u8,
    pub of_extra: u32,
    pub ml_code: u8,
    pub ml_extra: u32,
}

/// Every part of the sequence has a code.
pub open spec fn encodable(s: SequenceCommand) -> bool {
    &&& s.literal_length <= LITERAL_LENGTH_MAX
    &&& 3 <= s.match_length <= MATCH_LENGTH_MAX
    &&& s.offset_value > 0
}

/// The codes and extra bits of a sequence.
pub open spec fn coded(s: SequenceCommand) -> EncodedSequence {
    let ll = literal_code(s.literal_length as nat);
    let of = offset_class(s.offset_value as nat);
    let ml = match_code(s.match_length as nat);
    EncodedSequence {
        ll_code: ll as u8,
        ll_extra: (s.literal_length - literal_base(ll)) as u32,
        of_code: of as u8,
        of_extra: (s.offset_value - pow2(of)) as u32,
        ml_code: ml as u8,
        ml_extra: (s.match_length - match_base(ml)) as u32,
    }
}

/// The sequence that codes and extra bits stand for.
pub open spec fn uncoded(e: EncodedSequence) -> SequenceCommand {
    SequenceCommand {
        literal_length: (literal_base(e.ll_code as nat) + e.ll_extra) as u32,
        offset_value: (pow2(e.of_code as nat) + e.of_extra) as u32,
        match_length: (match_base(e.ml_code as nat) + e.ml_extra) as u32,
    }
}

impl EncodedSequence {
    /// The codes are codes and the extra bits fit them.
    pub open spec fn wf(self) -> bool {
        &&& self.ll_code <= LITERAL_LENGTH_CODE_MAX
        &&& self.of_code <= OFFSET_CODE_MAX
        &&& self.ml_code <= MATCH_LENGTH_CODE_MAX
        &&& (self.ll_extra as nat) < pow2(literal_extra_bits(self.ll_code as nat))
        &&& (self.of_extra as nat) < pow2(self.of_code as nat)
        &&& (self.ml_extra as nat) < pow2(match_extra_bits(self.ml_code as nat))
    }
}

/// The codes and extra bits of a sequence stand for that sequence.
pub proof fn law_sequence_code_roundtrip(s: SequenceCommand)
    requires
        encodable(s),
    ensures
        coded(s).wf(),
        uncoded(coded(s)) == s,
        coded(s).ll_code == literal_code(s.literal_length as nat),
        coded(s).of_code == offset_class(s.offset_value as nat),
        coded(s).ml_code == match_code(s.match_length as nat),
        coded(s).ll_extra == s.literal_length - literal_base(coded(s).ll_code as nat),
        coded(s).of_extra == s.offset_value - pow2(coded(s).of_code as nat),
        coded(s).ml_extra == s.match_length - match_base(coded(s).ml_code as nat),
{
    law_literal_code_covers(s.literal_length as nat);
    law_match_code_covers(s.match_length as nat);
    law_offset_code_covers(s.offset_value as nat);
}

/// The error of a sequence that has no codes.
pub open spec fn coding_error(s: SequenceCommand) -> Error {
    if s.literal_length > LITERAL_LENGTH_MAX {
        Error::InvalidParameter("literal length exceeds the supported range")
    } else if s.match_length < 3 {
        Error::InvalidParameter("match length must be at least 3 bytes")
    } else if s.match_length > MATCH_LENGTH_MAX {
        Error::InvalidParameter("match length exceeds the supported range")
    } else {
        Error::InvalidParameter("offset value must be non-zero")
    }
}

/// The codes and extra bits of a sequence.
pub fn encode_sequence_command(sequence: &SequenceCommand) -> (r: Result<EncodedSequence>)
    ensures
        encodable(*sequence) ==> r == Ok::<EncodedSequence, Error>(coded(*sequence)),
        !encodable(*sequence) ==> r == Err::<EncodedSequence, Error>(coding_error(*sequence)),
{
    let ll_code: u32 = literal_length_code(sequence.literal_length)?;
    let ml_code: u32 = match_length_code(sequence.match_length)?;
    let of_code: u32 = offset_code(sequence.offset_value)?;
    proof {
        law_sequence_code_roundtrip(*sequence);
        lemma_literal_tables(ll_code as nat);
        lemma_match_tables(ml_code as nat);
        lemma2_to64();
        mem::lemma_pow2_monotone(of_code as nat, 31);
    }
    Ok(
        EncodedSequence {
            ll_code: ll_code as u8,
            ll_extra: sequence.literal_length - LITERAL_LENGTH_BASELINES[ll_code as usize],
            of_code: of_code as u8,
            of_extra: sequence.offset_value - mem::power_of_two(of_code) as u32,
            ml_code: ml_code as u8,
            ml_extra: sequence.match_length - MATCH_LENGTH_BASELINES[ml_code as usize],
        },
    )
}

/// What a sequence is estimated to cost: its extra bits and a fixed share for
/// its three codes.
pub open spec fn estimated_bits(raw_offset: u32, ll: u32, ml: u32, reps: RepeatOffsets) -> nat {
    literal_extra_bits(literal_code(ll as nat)) + match_extra_bits(match_code(ml as nat))
        + offset_class(reps.classification(raw_offset, ll) as nat) + 22
}

/// Estimates in bits what a sequence costs.
pub fn estimate_sequence_bit_cost(
    raw_offset: u32,
    literal_length: u32,
    match_length: u32,
    repeat_offsets: RepeatOffsets,
) -> (r: Result<u32>)
    requires
        repeat_offsets.expressible(raw_offset, literal_length),
    ensures
        raw_offset == 0 ==> r == Err::<u32, Error>(
            Error::InvalidParameter("raw_offset must be non-zero"),
        ),
        raw_offset > 0 && literal_length > LITERAL_LENGTH_MAX ==> r == Err::<u32, Error>(
            Error::InvalidParameter("literal length exceeds the supported range"),
        ),
        raw_offset > 0 && literal_length <= LITERAL_LENGTH_MAX && match_length < 3 ==> r == Err::<
            u32,
            Error,
        >(Error::InvalidParameter("match length must be at least 3 bytes")),
        raw_offset > 0 && literal_length <= LITERAL_LENGTH_MAX && match_length > MATCH_LENGTH_MAX
            ==> r == Err::<u32, Error>(
            Error::InvalidParameter("match length exceeds the supported range"),
        ),
        raw_offset > 0 && literal_length <= LITERAL_LENGTH_MAX && 3 <= match_length
            <= MATCH_LENGTH_MAX ==> r is Ok && r->Ok_0 == estimated_bits(
            raw_offset,
            literal_length,
            match_length,
            repeat_offsets,
        ),
{
    let mut reps = repeat_offsets;
    let offset_value: u32 = reps.encode_offset_value(raw_offset, literal_length)?;
    let ll_code: u32 = literal_length_code(literal_length)?;
    let ml_code: u32 = match_length_code(match_length)?;
    let of_code: u32 = offset_code(offset_value)?;
    proof {
        law_literal_code_covers(literal_length as nat);
        law_match_code_covers(match_length as nat);
        law_offset_code_covers(offset_value as nat);
    }
    Ok(ll_bits(ll_code as u8) + ml_bits(ml_code as u8) + of_code + 22)
}

} // verus!
