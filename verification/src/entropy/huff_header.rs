//! The description of a prefix code: the weights of its symbols.
//!
//! The last symbol's weight is not written: it is the one that makes the code
//! complete. The other weights are written as half-bytes, or as a small block
//! of finite-state coded bytes.

use crate::entropy::fse_stream;
use crate::entropy::huff_code;
use crate::entropy::huff_code::TABLELOG_MAX;
use crate::entropy::huff_double::{build_dtable_x2, DTableX2};
use crate::entropy::huff_table::{
    build_ctable_from_weights,
    build_dtable_x1,
    CTableX1,
    Code,
    DTableX1,
};
use crate::entropy::mem;
use crate::error::{Error, Result};
use vstd::arithmetic::div_mod::*;
use vstd::arithmetic::power2::*;
use vstd::prelude::*;

verus! {

/// The largest table log of the distribution that weights are written with.
pub const MAX_FSE_TABLELOG_FOR_HUFF_HEADER: usize = 6;

/// The code that the weights of all symbols but the last describe.
pub open spec fn described(explicit: Seq<u8>) -> Result<Code> {
    let total = huff_code::weight_sum(explicit, explicit.len());
    let log = mem::floor_log2(total) + 1;
    let rest = (pow2(log) - total) as nat;
    let weights = explicit.push((mem::floor_log2(rest) + 1) as u8);
    let ones = huff_code::of_weight(weights, 1, weights.len());
    if exists|i: int| 0 <= i < explicit.len() && #[trigger] explicit[i] >= TABLELOG_MAX {
        Err(Error::Corruption("invalid Huff0 weight"))
    } else if total == 0 {
        Err(Error::Corruption("empty Huff0 weight table"))
    } else if log > TABLELOG_MAX {
        Err(Error::Corruption("Huff0 table log too large"))
    } else if pow2(mem::floor_log2(rest)) != rest {
        Err(Error::Corruption("non power-of-two Huff0 weight remainder"))
    } else if ones < 2 || ones % 2 != 0 {
        Err(Error::Corruption("invalid Huff0 rank-1 weight count"))
    } else {
        Ok(Code { weights, log })
    }
}

/// `n` weights of half a byte each, behind the first byte.
pub open spec fn half_byte_weights(src: Seq<u8>, n: nat) -> Seq<u8> {
    Seq::new(
        n,
        |i: int|
            if i % 2 == 0 {
                src[1 + i / 2] / 16
            } else {
                src[1 + i / 2] % 16
            },
    )
}

/// The written weights, and how many bytes they take.
pub open spec fn explicit_weights(src: Seq<u8>) -> Result<(Seq<u8>, nat)> {
    if src.len() == 0 {
        Err(Error::SrcSizeWrong)
    } else if src[0] >= 128 {
        let n = (src[0] - 127) as nat;
        let size = 1 + (n + 1) / 2;
        if size > src.len() {
            Err(Error::SrcSizeWrong)
        } else {
            Ok((half_byte_weights(src, n), size))
        }
    } else {
        let size = 1 + src[0] as nat;
        if size > src.len() {
            Err(Error::SrcSizeWrong)
        } else {
            match fse_stream::block_decoding(
                src.subrange(1, size as int),
                TABLELOG_MAX as nat,
                MAX_FSE_TABLELOG_FOR_HUFF_HEADER as nat,
                255,
            ) {
                Err(e) => Err(e),
                Ok(weights) => Ok((weights, size)),
            }
        }
    }
}

/// The code that a description gives, and how many bytes it takes.
pub open spec fn code_description(src: Seq<u8>) -> Result<(Code, nat)> {
    match explicit_weights(src) {
        Err(e) => Err(e),
        Ok((explicit, size)) => match described(explicit) {
            Err(e) => Err(e),
            Ok(code) => Ok((code, size)),
        },
    }
}

/// A description gives a complete code, and lies within the bytes.
pub proof fn lemma_code_description(src: Seq<u8>)
    ensures
        code_description(src) matches Ok((code, size)) ==> code.wf() && 0 < size <= src.len(),
{
    if let Ok((explicit, size)) = explicit_weights(src) {
        if src[0] < 128 {
            fse_stream::lemma_block_decoding_fits(
                src.subrange(1, size as int),
                TABLELOG_MAX as nat,
                MAX_FSE_TABLELOG_FOR_HUFF_HEADER as nat,
                255,
            );
        }
        lemma_described(explicit);
    }
}

/// The weights of a description, the length of the longest code, and how many
/// bytes the description takes.
pub struct CodeStats {
    pub weights: Vec<u8>,
    pub table_log: u32,
    pub size: usize,
}

impl View for CodeStats {
    type V = Code;

    open spec fn view(&self) -> Code {
        Code { weights: self.weights@, log: self.table_log as nat }
    }
}

proof fn lemma_width_in_sum(weights: Seq<u8>, i: int, k: nat)
    requires
        0 <= i < k,
    ensures
        huff_code::width(weights[i] as nat) <= huff_code::weight_sum(weights, k),
    decreases k,
{
    if i < k - 1 {
        lemma_width_in_sum(weights, i, (k - 1) as nat);
    }
}

/// Equal weights own equally many places.
pub proof fn lemma_sum_same(a: Seq<u8>, b: Seq<u8>, k: nat)
    requires
        forall|i: int| 0 <= i < k ==> #[trigger] a[i] == b[i],
    ensures
        huff_code::weight_sum(a, k) == huff_code::weight_sum(b, k),
    decreases k,
{
    if k > 0 {
        lemma_sum_same(a, b, (k - 1) as nat);
    }
}

proof fn lemma_ones_same(a: Seq<u8>, b: Seq<u8>, w: nat, k: nat)
    requires
        forall|i: int| 0 <= i < k ==> #[trigger] a[i] == b[i],
    ensures
        huff_code::of_weight(a, w, k) == huff_code::of_weight(b, w, k),
    decreases k,
{
    if k > 0 {
        lemma_ones_same(a, b, w, (k - 1) as nat);
    }
}

/// A described code is complete.
pub proof fn lemma_described(explicit: Seq<u8>)
    requires
        explicit.len() <= 255,
    ensures
        described(explicit) matches Ok(code) ==> code.wf() && code.weights.len() == explicit.len()
            + 1 && code.weights.last() > 0,
{
    if let Ok(code) = described(explicit) {
        let n = explicit.len();
        let total = huff_code::weight_sum(explicit, n);
        let log = code.log;
        mem::lemma_floor_log2(total);
        let rest = (pow2(log) - total) as nat;
        mem::lemma_floor_log2(rest);
        let k = mem::floor_log2(rest);
        lemma_pow2_unfold(log);
        if k >= log {
            mem::lemma_pow2_monotone(log, k);
        }
        let weights = code.weights;
        lemma_sum_same(weights, explicit, n);
        assert(weights.last() == k + 1);
        assert(huff_code::weight_sum(weights, n + 1) == pow2(log));
        assert forall|i: int| 0 <= i < weights.len() implies #[trigger] weights[i] <= log by {
            if i < n {
                assert(weights[i] == explicit[i]);
                lemma_width_in_sum(explicit, i, n);
                if weights[i] > log {
                    mem::lemma_pow2_monotone(log, (weights[i] - 1) as nat);
                }
            }
        }
    }
}

fn half_bytes(src: &[u8], n: usize) -> (r: Vec<u8>)
    requires
        1 + (n + 1) / 2 <= src@.len(),
        n <= 128,
    ensures
        r@ == half_byte_weights(src@, n as nat),
{
    let mut out: Vec<u8> = Vec::new();
    let mut i: usize = 0;
    while i < n
        invariant
            i <= n <= 128,
            1 + (n + 1) / 2 <= src@.len(),
            out@ == half_byte_weights(src@, n as nat).take(i as int),
        decreases n - i,
    {
        let byte: u8 = src[1 + i / 2];
        if i % 2 == 0 {
            out.push(byte / 16);
        } else {
            out.push(byte % 16);
        }
        i = i + 1;
        proof {
            assert(out@ =~= half_byte_weights(src@, n as nat).take(i as int));
        }
    }
    proof {
        assert(out@ =~= half_byte_weights(src@, n as nat));
    }
    out
}

/// Completes the written weights.
fn complete_weights(explicit: Vec<u8>, size: usize) -> (r: Result<CodeStats>)
    requires
        explicit@.len() <= 255,
    ensures
        match described(explicit@) {
            Err(e) => r == Err::<CodeStats, Error>(e),
            Ok(code) => r matches Ok(s) && s@ == code && s.size == size && code.wf(),
        },
{
    let ghost ws = explicit@;
    let mut weights: Vec<u8> = explicit;
    let n: usize = weights.len();
    let mut total: u32 = 0;
    let mut ones: u32 = 0;
    let mut i: usize = 0;
    proof {
        lemma2_to64();
    }
    while i < n
        invariant
            i <= n <= 255,
            n == ws.len(),
            ws == explicit@,
            weights@ == ws,
            total == huff_code::weight_sum(ws, i as nat),
            total <= 1024 * i,
            ones == huff_code::of_weight(ws, 1, i as nat),
            ones <= i,
            forall|k: int| 0 <= k < i ==> #[trigger] ws[k] < TABLELOG_MAX,
        decreases n - i,
    {
        let w: u8 = weights[i];
        if w as usize >= TABLELOG_MAX {
            proof {
                assert(ws[i as int] >= TABLELOG_MAX);
            }
            return Err(Error::Corruption("invalid Huff0 weight"));
        }
        if w > 0 {
            proof {
                mem::lemma_pow2_monotone((w - 1) as nat, 10);
                lemma2_to64();
            }
            total = total + mem::power_of_two(w as u32 - 1) as u32;
        }
        if w == 1 {
            ones = ones + 1;
        }
        i = i + 1;
    }
    if total == 0 {
        return Err(Error::Corruption("empty Huff0 weight table"));
    }
    let log: u32 = mem::highbit32(total) + 1;
    if log as usize > TABLELOG_MAX {
        return Err(Error::Corruption("Huff0 table log too large"));
    }
    proof {
        mem::lemma_floor_log2(total as nat);
        mem::lemma_pow2_monotone(log as nat, 12);
    }
    let rest: u32 = mem::power_of_two(log) as u32 - total;
    let high: u32 = mem::highbit32(rest);
    if mem::power_of_two(high) != rest as u64 {
        return Err(Error::Corruption("non power-of-two Huff0 weight remainder"));
    }
    let last: u8 = (high + 1) as u8;
    weights.push(last);
    if last == 1 {
        ones = ones + 1;
    }
    proof {
        lemma_ones_same(weights@, ws, 1, n as nat);
        assert(weights@ == ws.push(last));
        lemma_described(ws);
    }
    if ones < 2 || ones % 2 != 0 {
        return Err(Error::Corruption("invalid Huff0 rank-1 weight count"));
    }
    Ok(CodeStats { weights, table_log: log, size })
}

/// Reads a description.
pub fn read_stats(src: &[u8]) -> (r: Result<CodeStats>)
    ensures
        match code_description(src@) {
            Err(e) => r == Err::<CodeStats, Error>(e),
            Ok((code, size)) => r matches Ok(s) && s@ == code && s.size == size && code.wf() && size
                <= src@.len(),
        },
{
    let len: usize = src.len();
    if len == 0 {
        return Err(Error::SrcSizeWrong);
    }
    let first: usize = src[0] as usize;
    if first >= 128 {
        let n: usize = first - 127;
        let size: usize = 1 + (n + 1) / 2;
        if size > len {
            return Err(Error::SrcSizeWrong);
        }
        complete_weights(half_bytes(src, n), size)
    } else {
        let size: usize = 1 + first;
        if size > len {
            return Err(Error::SrcSizeWrong);
        }
        let explicit: Vec<u8> = fse_stream::decompress(
            255,
            &src[1..size],
            TABLELOG_MAX as u32,
            MAX_FSE_TABLELOG_FOR_HUFF_HEADER,
        )?;
        proof {
            fse_stream::lemma_block_decoding_fits(
                src@.subrange(1, size as int),
                TABLELOG_MAX as nat,
                MAX_FSE_TABLELOG_FOR_HUFF_HEADER as nat,
                255,
            );
        }
        complete_weights(explicit, size)
    }
}

/// Reads a description into the table with one symbol for each entry.
pub fn read_dtable_x1(src: &[u8]) -> (r: Result<(DTableX1, usize)>)
    ensures
        match code_description(src@) {
            Err(e) => r == Err::<(DTableX1, usize), Error>(e),
            Ok((code, size)) => r matches Ok(t) && t.0.wf() && t.0@ == code && t.1 == size && size
                <= src@.len(),
        },
{
    let stats: CodeStats = read_stats(src)?;
    let table: DTableX1 = build_dtable_x1(stats.weights.as_slice(), stats.table_log);
    Ok((table, stats.size))
}

/// Reads a description into the table with up to two symbols for each entry.
pub fn read_dtable_x2(src: &[u8]) -> (r: Result<(DTableX2, usize)>)
    ensures
        match code_description(src@) {
            Err(e) => r == Err::<(DTableX2, usize), Error>(e),
            Ok((code, size)) => r matches Ok(t) && t.0.wf() && t.0@ == code && t.1 == size && size
                <= src@.len(),
        },
{
    let stats: CodeStats = read_stats(src)?;
    let table: DTableX2 = build_dtable_x2(stats.weights.as_slice(), stats.table_log);
    Ok((table, stats.size))
}

/// Reads a description into an encoding table, and says whether every byte has
/// a code.
pub fn read_ctable_x1_with_repeat_validity(src: &[u8]) -> (r: Result<(CTableX1, usize, bool)>)
    ensures
        match code_description(src@) {
            Err(e) => r == Err::<(CTableX1, usize, bool), Error>(e),
            Ok((code, size)) => r matches Ok(t) && t.0.wf() && t.0@ == code && t.1 == size && t.2
                == code.holds_all() && size <= src@.len(),
        },
{
    let stats: CodeStats = read_stats(src)?;
    let table: CTableX1 = build_ctable_from_weights(stats.weights.as_slice(), stats.table_log);
    let mut valid: bool = stats.weights.len() == 256;
    let mut i: usize = 0;
    while i < stats.weights.len()
        invariant
            i <= stats.weights@.len(),
            valid == (stats.weights@.len() == 256 && forall|k: int|
                0 <= k < i ==> #[trigger] stats.weights@[k] > 0),
        decreases stats.weights@.len() - i,
    {
        if stats.weights[i] == 0 {
            valid = false;
        }
        i = i + 1;
    }
    Ok((table, stats.size, valid))
}

/// Reads a description into an encoding table.
pub fn read_ctable_x1(src: &[u8]) -> (r: Result<(CTableX1, usize)>)
    ensures
        match code_description(src@) {
            Err(e) => r == Err::<(CTableX1, usize), Error>(e),
            Ok((code, size)) => r matches Ok(t) && t.0.wf() && t.0@ == code && t.1 == size && size
                <= src@.len(),
        },
{
    let (table, size, _) = read_ctable_x1_with_repeat_validity(src)?;
    Ok((table, size))
}

} // verus!
