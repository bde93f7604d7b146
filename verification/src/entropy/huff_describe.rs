//! Writing the description of a prefix code.

use crate::entropy::bits;
use crate::entropy::bitstream::WORD_BYTES;
use crate::entropy::fse;
use crate::entropy::fse::CTable;
use crate::entropy::fse_stream;
use crate::entropy::hist;
use crate::entropy::hist::Histogram;
use crate::entropy::huff_code;
use crate::entropy::huff_code::TABLELOG_MAX;
use crate::entropy::huff_header;
use crate::entropy::huff_header::MAX_FSE_TABLELOG_FOR_HUFF_HEADER;
use crate::entropy::huff_table::{CTableX1, Code};
use crate::entropy::mem;
use crate::entropy::ncount;
use crate::entropy::ncount_laws;
use crate::entropy::normalize;
use crate::entropy::spread;
use crate::entropy::tally;
use crate::error::{Error, Result};
use vstd::arithmetic::power2::*;
use vstd::prelude::*;

verus! {

// ---------------------------------------------------------------------------
// A block of weights.

/// The table log of the distribution that weights are written with.
pub open spec fn weight_log(ws: Seq<u8>) -> nat {
    normalize::best_table_log(
        MAX_FSE_TABLELOG_FOR_HUFF_HEADER as nat,
        ws.len(),
        tally::stats_of(ws).max,
    )
}

/// The distribution that weights are written with; `None` where a block of
/// them would gain nothing.
pub open spec fn weight_distribution(ws: Seq<u8>) -> Result<Option<Seq<i16>>> {
    let st = tally::stats_of(ws);
    if ws.len() <= 1 || st.most == ws.len() || st.most == 1 {
        Ok(None)
    } else {
        match normalize::distribution(st.counts, st.max + 1, ws.len(), weight_log(ws), 1) {
            Err(e) => Err(e),
            Ok(d) => Ok(Some(Seq::new(st.max + 1, |i: int| d[i] as i16))),
        }
    }
}

/// The block of weights that fits in `capacity` bytes, if there is one.
pub open spec fn weight_block(ws: Seq<u8>, capacity: nat) -> Result<Option<Seq<u8>>> {
    match weight_distribution(ws) {
        Err(e) => Err(e),
        Ok(None) => Ok(None),
        Ok(Some(norm)) => match ncount::header_bits(norm, norm.len(), weight_log(ws), capacity) {
            Err(e) => Err(e),
            Ok(f) => {
                let header = ncount::header_bytes(f);
                let stream = fse_stream::distribution_stream(
                    norm,
                    norm.len(),
                    weight_log(ws),
                    ws,
                );
                let room = capacity - header.len();
                if ws.len() <= 2 || room <= WORD_BYTES || (stream.len + 1) / 8 >= room
                    - WORD_BYTES {
                    Ok(None)
                } else {
                    Ok(Some(header + bits::marked_bytes(stream)))
                }
            },
        },
    }
}

proof fn lemma_slots_of_two(norm: Seq<i16>, n: nat, s: int, t: int)
    requires
        0 <= s < t < n,
    ensures
        spread::slots(norm[s]) + spread::slots(norm[t]) <= spread::slots_before(norm, n),
{
    spread::lemma_slots_monotone(norm, s as nat + 1, t as nat);
    spread::lemma_slots_monotone(norm, t as nat + 1, n);
}

/// A distribution of weights gives each weight some states and none all of
/// them.
proof fn lemma_weight_distribution(ws: Seq<u8>)
    requires
        ws.len() <= 255,
        forall|i: int| 0 <= i < ws.len() ==> #[trigger] ws[i] <= TABLELOG_MAX,
    ensures
        ws.len() >= 2 ==> normalize::countable(
            tally::stats_of(ws).counts,
            tally::stats_of(ws).max + 1,
            ws.len(),
            weight_log(ws),
        ),
        tally::stats_of(ws).max <= TABLELOG_MAX,
        5 <= weight_log(ws) <= 6,
        weight_distribution(ws) matches Ok(Some(norm)) ==> {
            let n = norm.len();
            &&& n == tally::stats_of(ws).max + 1
            &&& spread::counts_fill(norm, n, weight_log(ws))
            &&& forall|i: int| 0 <= i < n ==> #[trigger] norm[i] >= -1
            &&& norm[n - 1] != 0
            &&& fse_stream::codable(norm, n, weight_log(ws), ws)
        },
{
    let st = tally::stats_of(ws);
    let log = weight_log(ws);
    tally::lemma_stats(ws);
    lemma2_to64();
    if ws.len() > 0 {
        let m = tally::lemma_largest_code_at(ws);
        assert(ws[m] <= TABLELOG_MAX);
    }
    normalize::lemma_best_table_log(6, ws.len(), st.max);
    normalize::lemma_counted(st.counts, st.max + 1);
    if let Ok(Some(norm)) = weight_distribution(ws) {
        let n = norm.len();
        let d = normalize::distribution(st.counts, st.max + 1, ws.len(), log, 1)->Ok_0;
        assert forall|i: int| 0 <= i < n implies #[trigger] st.counts[i] != ws.len() by {
            assert(st.counts[i] <= st.most);
        }
        normalize::lemma_distribution_range(st.counts, n, ws.len(), log, 1);
        assert forall|i: int| 0 <= i < n implies #[trigger] norm[i] == d[i] by {}
        normalize::law_distribution_fills(st.counts, n, ws.len(), log, 1, norm);
        assert(norm[n - 1] == 0 <==> st.counts[n - 1] == 0);
        assert forall|i: int| 0 <= i < ws.len() implies (#[trigger] ws[i]) < n && 0 < spread::slots(
            norm[ws[i] as int],
        ) < pow2(log) by {
            let s = ws[i];
            tally::lemma_largest_code_bounds(ws, i);
            hist::lemma_frequency_positive(ws, i);
            assert(st.counts[s as int] == hist::frequency(ws, s));
            assert(norm[s as int] != 0);
            if forall|j: int| 0 <= j < ws.len() ==> #[trigger] ws[j] == s {
                hist::lemma_all_equal(ws, s, ws.len());
                assert(st.counts[s as int] <= st.most);
            }
            let j = choose|j: int| 0 <= j < ws.len() && #[trigger] ws[j] != s;
            let t = ws[j];
            tally::lemma_largest_code_bounds(ws, j);
            hist::lemma_frequency_positive(ws, j);
            assert(st.counts[t as int] == hist::frequency(ws, t));
            assert(norm[t as int] != 0);
            if s < t {
                lemma_slots_of_two(norm, n, s as int, t as int);
            } else {
                lemma_slots_of_two(norm, n, t as int, s as int);
            }
        }
    }
}

/// Weights that are written as a block are read back.
proof fn lemma_weight_block_roundtrip(ws: Seq<u8>, capacity: nat, ct: CTable)
    requires
        ws.len() <= 255,
        forall|i: int| 0 <= i < ws.len() ==> #[trigger] ws[i] <= TABLELOG_MAX,
        weight_block(ws, capacity) matches Ok(Some(_)),
        weight_distribution(ws) matches Ok(Some(norm)) ==> fse::encodes_with(
            ct,
            norm,
            norm.len(),
            weight_log(ws),
        ),
    ensures
        fse_stream::block_decoding(weight_block(ws, capacity)->Ok_0->Some_0, 12, 6, 255) == Ok::<
            Seq<u8>,
            Error,
        >(ws),
{
    let norm = weight_distribution(ws)->Ok_0->Some_0;
    let n = norm.len();
    let log = weight_log(ws);
    lemma_weight_distribution(ws);
    let f = ncount::header_bits(norm, n, log, capacity)->Ok_0;
    let header = ncount::header_bytes(f);
    let stream = fse_stream::distribution_stream(norm, n, log, ws);
    let tail = bits::marked_bytes(stream);
    fse_stream::lemma_distribution_stream(ct, norm, n, log, ws);
    fse::lemma_encodes_with(ct, norm, n, log);
    fse_stream::lemma_stream_encoding_wf(ct, ws);
    bits::lemma_stream_roundtrip(stream);
    ncount_laws::law_header_roundtrip(norm, n, log, capacity, 13, 6, f, tail);
    assert(norm.take(n as int) =~= norm);
    assert((header + tail).skip(header.len() as int) =~= tail);
    fse::lemma_entries_for(norm, n, log);
    fse_stream::lemma_interleaved_roundtrip(
        ct,
        fse::entries_for(norm, n, log),
        norm,
        n,
        log,
        ws,
        255,
    );
}

/// Writes weights as a block; `None` where that would gain nothing.
#[verifier::rlimit(30)]
fn compress_weights(capacity: usize, ws: &[u8]) -> (r: Result<Option<Vec<u8>>>)
    requires
        ws@.len() <= 255,
        forall|i: int| 0 <= i < ws@.len() ==> #[trigger] ws@[i] <= TABLELOG_MAX,
    ensures
        match weight_block(ws@, capacity as nat) {
            Err(e) => r == Err::<Option<Vec<u8>>, Error>(e),
            Ok(None) => r is Ok && r->Ok_0 is None,
            Ok(Some(block)) => r matches Ok(Some(v)) && v@ == block
                && fse_stream::block_decoding(block, 12, 6, 255) == Ok::<Seq<u8>, Error>(ws@),
        },
{
    let len: usize = ws.len();
    if len <= 1 {
        return Ok(None);
    }
    let h: Histogram = hist::count_simple(ws);
    let ghost st = tally::stats_of(ws@);
    proof {
        tally::lemma_histogram(h, ws@);
        tally::lemma_stats(ws@);
        lemma_weight_distribution(ws@);
    }
    if h.largest as usize == len || h.largest == 1 {
        return Ok(None);
    }
    let max_symbol: u32 = h.max_symbol;
    let log: u32 = normalize::optimal_table_log(
        MAX_FSE_TABLELOG_FOR_HUFF_HEADER as u32,
        len,
        max_symbol,
    );
    let n: usize = max_symbol as usize + 1;
    let mut norm: Vec<i16> = vec![0i16; n];
    proof {
        assert forall|i: int| 0 <= i < n implies #[trigger] st.counts[i] != len by {
            assert(st.counts[i] <= st.most);
        }
    }
    let _ = normalize::normalize_count(&mut norm, log, h.counts.as_slice(), len, max_symbol, false)?;
    let ghost expected = weight_distribution(ws@)->Ok_0->Some_0;
    proof {
        assert(norm@ =~= expected);
        lemma2_to64();
    }
    let header: Vec<u8> = ncount::write_ncount(capacity, norm.as_slice(), max_symbol, log)?;
    proof {
        fse::lemma_filling_placeable(norm@, n as nat, log as nat);
    }
    let ct: CTable = fse::build_ctable(norm.as_slice(), max_symbol, log)?;
    proof {
        ncount::lemma_header_fits(norm@, n as nat, log as nat, capacity as nat);
        fse::lemma_encodes_with(ct, norm@, n as nat, log as nat);
        fse_stream::lemma_distribution_stream(ct, norm@, n as nat, log as nat, ws@);
        assert forall|i: int| 0 <= i < ws@.len() implies #[trigger] ws@[i]
            <= ct.max_symbol_value by {
            tally::lemma_largest_code_bounds(ws@, i);
        }
        fse_stream::law_only_foreign_symbols_fail(ct, ws@);
        assert(!fse_stream::has_foreign_symbol(ct, ws@));
    }
    let stream: Vec<u8> = fse_stream::compress_using_ctable(capacity - header.len(), ws, &ct)?;
    if stream.len() == 0 {
        proof {
            fse_stream::lemma_stream_encoding_wf(ct, ws@);
            bits::lemma_stream_roundtrip(fse_stream::stream_encoding(ct, ws@));
        }
        return Ok(None);
    }
    let mut out: Vec<u8> = header;
    out.extend_from_slice(stream.as_slice());
    proof {
        lemma_weight_block_roundtrip(ws@, capacity as nat, ct);
    }
    Ok(Some(out))
}

// ---------------------------------------------------------------------------
// A whole description.

/// Weights as half-bytes, the earlier of two in the upper half.
pub open spec fn half_bytes(ws: Seq<u8>) -> Seq<u8> {
    Seq::new(
        (ws.len() + 1) / 2,
        |i: int|
            (16 * ws[2 * i] + if 2 * i + 1 < ws.len() {
                ws[2 * i + 1] as int
            } else {
                0
            }) as u8,
    )
}

/// The description with half-bytes.
pub open spec fn plain_description(ws: Seq<u8>, capacity: nat) -> Result<Seq<u8>> {
    if ws.len() > 127 {
        Err(Error::Generic)
    } else if ws.len() == 0 || (ws.len() + 1) / 2 + 1 > capacity {
        Err(Error::DstSizeTooSmall)
    } else {
        Ok(seq![(127 + ws.len()) as u8] + half_bytes(ws))
    }
}

/// The description of a code in at most `capacity` bytes: a block of weights
/// where it is shorter than half-bytes would be.
pub open spec fn description(code: Code, capacity: nat) -> Result<Seq<u8>> {
    let ws = code.weights.drop_last();
    if capacity == 0 {
        Err(Error::DstSizeTooSmall)
    } else {
        match weight_block(ws, (capacity - 1) as nat) {
            Err(e) => Err(e),
            Ok(Some(block)) => if 1 < block.len() < ws.len() / 2 {
                Ok(seq![block.len() as u8] + block)
            } else {
                plain_description(ws, capacity)
            },
            Ok(None) => plain_description(ws, capacity),
        }
    }
}

/// The codes that a description can give: the last symbol has a code, the
/// longest codes are there, and no written weight is too large.
pub open spec fn describable(code: Code) -> bool {
    &&& code.wf()
    &&& code.weights.last() > 0
    &&& huff_code::of_weight(code.weights, 1, code.weights.len()) > 0
    &&& forall|i: int|
        0 <= i < code.weights.len() - 1 ==> #[trigger] code.weights[i] < TABLELOG_MAX
}

/// The bytes describe the code, with whatever bytes behind them.
pub open spec fn describes(bytes: Seq<u8>, code: Code) -> bool {
    forall|tail: Seq<u8>|
        #[trigger] huff_header::code_description(bytes + tail) == Ok::<(Code, nat), Error>(
            (code, bytes.len()),
        )
}

/// The weights of a describable code describe it.
proof fn lemma_describes(code: Code)
    requires
        describable(code),
    ensures
        huff_header::described(code.weights.drop_last()) == Ok::<Code, Error>(code),
{
    let ws = code.weights.drop_last();
    let n = ws.len();
    let log = code.log;
    let last = code.weights.last() as nat;
    huff_header::lemma_sum_same(ws, code.weights, n);
    let total = huff_code::weight_sum(ws, n);
    assert(total + huff_code::width(last) == pow2(log));
    lemma_pow2_unfold(log);
    lemma_pow2_pos((last - 1) as nat);
    mem::lemma_pow2_monotone((last - 1) as nat, (log - 1) as nat);
    lemma_pow2_pos((log - 1) as nat);
    mem::lemma_floor_log2_unique(total, (log - 1) as nat);
    lemma_pow2_unfold(last);
    mem::lemma_floor_log2_unique(pow2((last - 1) as nat), (last - 1) as nat);
    assert(ws.push(last as u8) =~= code.weights);
    assert forall|i: int| 0 <= i < n implies #[trigger] ws[i] < TABLELOG_MAX by {
        assert(code.weights[i] < TABLELOG_MAX);
    }
    let ones = huff_code::of_weight(code.weights, 1, code.weights.len());
    huff_code::lemma_places_aligned(code.weights, log, 1);
    lemma2_to64();
    assert(huff_code::width(1) == 1);
    reveal_with_fuel(huff_code::places_up_to, 2);
    assert(huff_code::places_up_to(code.weights, 1) == ones * 1);
}

/// A half-byte gives back a weight.
proof fn lemma_half_byte(ws: Seq<u8>, src: Seq<u8>, i: int)
    requires
        0 <= i < ws.len() <= 127,
        ws[2 * (i / 2)] < 16,
        2 * (i / 2) + 1 < ws.len() ==> ws[2 * (i / 2) + 1] < 16,
        src[1 + i / 2] == half_bytes(ws)[i / 2],
    ensures
        huff_header::half_byte_weights(src, ws.len())[i] == ws[i],
{
    let k = i / 2;
    let high = ws[2 * k] as int;
    let low = if 2 * k + 1 < ws.len() {
        ws[2 * k + 1] as int
    } else {
        0
    };
    let b = src[1 + k] as int;
    assert(b == 16 * high + low);
    assert(b / 16 == high);
    assert(b % 16 == low);
    if i % 2 == 0 {
        assert(i == 2 * k);
    } else {
        assert(i == 2 * k + 1);
    }
}

/// Half-bytes give back the weights.
proof fn lemma_half_bytes(ws: Seq<u8>, tail: Seq<u8>)
    requires
        0 < ws.len() <= 127,
        forall|i: int| 0 <= i < ws.len() ==> #[trigger] ws[i] < 16,
    ensures
        huff_header::explicit_weights(seq![(127 + ws.len()) as u8] + half_bytes(ws) + tail) == Ok::<
            (Seq<u8>, nat),
            Error,
        >((ws, 1 + (ws.len() + 1) / 2)),
{
    let src = seq![(127 + ws.len()) as u8] + half_bytes(ws) + tail;
    let n = ws.len();
    assert(src[0] == 127 + n);
    assert forall|i: int| 0 <= i < n implies huff_header::half_byte_weights(src, n)[i]
        == #[trigger] ws[i] by {
        let k = i / 2;
        assert(src[1 + k] == half_bytes(ws)[k]);
        assert(ws[2 * k] < 16);
        if 2 * k + 1 < n {
            assert(ws[2 * k + 1] < 16);
        }
        lemma_half_byte(ws, src, i);
    }
    assert(huff_header::half_byte_weights(src, n) =~= ws);
}

/// A description is no longer than it may be.
pub proof fn lemma_description_fits(code: Code, capacity: nat)
    requires
        0 < code.weights.len() <= 256,
    ensures
        description(code, capacity) matches Ok(bytes) ==> bytes.len() <= capacity && bytes.len()
            <= 128,
{
    let ws = code.weights.drop_last();
    if let Ok(Some(block)) = weight_block(ws, (capacity - 1) as nat) {
        let norm = weight_distribution(ws)->Ok_0->Some_0;
        let log = weight_log(ws);
        let stream = fse_stream::distribution_stream(norm, norm.len(), log, ws);
        ncount::lemma_header_fits(norm, norm.len(), log, (capacity - 1) as nat);
        bits::lemma_nat_bytes(stream.value + pow2(stream.len), stream.len / 8 + 1);
    }
}

fn write_ctable_raw(capacity: usize, ws: &[u8]) -> (r: Result<Vec<u8>>)
    requires
        ws@.len() <= 255,
        forall|i: int| 0 <= i < ws@.len() ==> #[trigger] ws@[i] <= TABLELOG_MAX,
    ensures
        match plain_description(ws@, capacity as nat) {
            Err(e) => r == Err::<Vec<u8>, Error>(e),
            Ok(bytes) => r matches Ok(v) && v@ == bytes,
        },
{
    let n: usize = ws.len();
    if n > 127 {
        return Err(Error::Generic);
    }
    if n == 0 || (n + 1) / 2 + 1 > capacity {
        return Err(Error::DstSizeTooSmall);
    }
    let mut out: Vec<u8> = Vec::new();
    out.push((127 + n) as u8);
    let ghost head = out@;
    let mut i: usize = 0;
    while i < (n + 1) / 2
        invariant
            i <= (n + 1) / 2,
            n == ws@.len(),
            n <= 127,
            forall|k: int| 0 <= k < ws@.len() ==> #[trigger] ws@[k] <= TABLELOG_MAX,
            out@ == head + half_bytes(ws@).take(i as int),
        decreases (n + 1) / 2 - i,
    {
        let low: u8 = if 2 * i + 1 < n {
            ws[2 * i + 1]
        } else {
            0
        };
        proof {
            assert(ws@[2 * i] <= TABLELOG_MAX);
        }
        out.push(16 * ws[2 * i] + low);
        i = i + 1;
        proof {
            assert(out@ =~= head + half_bytes(ws@).take(i as int));
        }
    }
    proof {
        assert(half_bytes(ws@).take(i as int) =~= half_bytes(ws@));
        assert(head =~= seq![(127 + n) as u8]);
    }
    Ok(out)
}

/// The written weights of a table: those of all symbols but the last.
fn written_weights(ctable: &CTableX1, n: usize) -> (r: Vec<u8>)
    requires
        ctable.wf(),
        ctable@.weights.len() == n + 1,
    ensures
        r@ == ctable@.weights.drop_last(),
{
    let mut ws: Vec<u8> = Vec::new();
    let mut i: usize = 0;
    let ghost all = ctable@.weights.drop_last();
    while i < n
        invariant
            i <= n <= 255,
            ctable.wf(),
            ctable@.weights.len() == n + 1,
            all == ctable@.weights.drop_last(),
            ws@ == all.take(i as int),
        decreases n - i,
    {
        proof {
            assert(ctable@.weights[i as int] <= ctable@.log);
            assert(ctable.entries@[(i as u8) as int].nb_bits == ctable@.length(i as u8));
        }
        let nb: u8 = ctable.entries[i].nb_bits;
        if nb == 0 {
            ws.push(0);
        } else {
            ws.push(ctable.table_log + 1 - nb);
        }
        i = i + 1;
        proof {
            assert(ws@ =~= all.take(i as int));
        }
    }
    proof {
        assert(all.take(n as int) =~= all);
    }
    ws
}

/// Writes the description of a table whose largest symbol is
/// `max_symbol_value`. What is written is read back as the table's code, with
/// whatever bytes behind it.
pub fn write_ctable(capacity: usize, ctable: &CTableX1, max_symbol_value: u32) -> (r: Result<
    Vec<u8>,
>)
    requires
        ctable.wf(),
        ctable@.weights.len() == max_symbol_value + 1,
    ensures
        match description(ctable@, capacity as nat) {
            Err(e) => r == Err::<Vec<u8>, Error>(e),
            Ok(bytes) => r matches Ok(v) && v@ == bytes,
        },
        describable(ctable@) ==> (r matches Ok(v) ==> describes(v@, ctable@)),
{
    if capacity == 0 {
        return Err(Error::DstSizeTooSmall);
    }
    let n: usize = max_symbol_value as usize;
    let ws: Vec<u8> = written_weights(ctable, n);
    proof {
        assert forall|i: int| 0 <= i < ws@.len() implies #[trigger] ws@[i] <= TABLELOG_MAX by {
            assert(ctable@.weights[i] <= ctable@.log);
        }
        if describable(ctable@) {
            lemma_describes(ctable@);
        }
    }
    let block: Option<Vec<u8>> = compress_weights(capacity - 1, ws.as_slice())?;
    if let Some(block) = block {
        if block.len() > 1 && block.len() < n / 2 {
            let mut out: Vec<u8> = Vec::new();
            out.push(block.len() as u8);
            out.extend_from_slice(block.as_slice());
            proof {
                assert(out@ =~= seq![block@.len() as u8] + block@);
                assert forall|tail: Seq<u8>| describable(ctable@) implies
                    #[trigger] huff_header::code_description(out@ + tail) == Ok::<
                    (Code, nat),
                    Error,
                >((ctable@, out@.len())) by {
                    let src = out@ + tail;
                    assert(src[0] == block@.len());
                    assert(src.subrange(1, out@.len() as int) =~= block@);
                }
            }
            return Ok(out);
        }
    }
    let out: Vec<u8> = write_ctable_raw(capacity, ws.as_slice())?;
    proof {
        assert forall|tail: Seq<u8>| describable(ctable@) implies
            #[trigger] huff_header::code_description(out@ + tail) == Ok::<(Code, nat), Error>(
            (ctable@, out@.len()),
        ) by {
            lemma_half_bytes(ws@, tail);
        }
    }
    Ok(out)
}

/// Weights have a distribution wherever one is wanted.
proof fn lemma_weight_block_exists(ws: Seq<u8>, capacity: nat)
    requires
        ws.len() <= 255,
        forall|i: int| 0 <= i < ws.len() ==> #[trigger] ws[i] <= TABLELOG_MAX,
        capacity >= 16,
    ensures
        weight_block(ws, capacity) is Ok,
{
    let st = tally::stats_of(ws);
    let log = weight_log(ws);
    lemma_weight_distribution(ws);
    lemma2_to64();
    normalize::lemma_two_states(6, ws.len(), st.max);
    normalize::lemma_counted(st.counts, st.max + 1);
    if !(ws.len() <= 1 || st.most == ws.len() || st.most == 1) {
        normalize::law_distribution_exists(st.counts, st.max + 1, ws.len(), log, 1);
        if let Ok(Some(norm)) = weight_distribution(ws) {
            ncount_laws::law_header_exists(norm, norm.len(), log, capacity);
            assert(0 <= norm.len() * (log + 3) <= 13 * 9) by (nonlinear_arith)
                requires
                    norm.len() <= 13,
                    log + 3 <= 9,
            ;
        }
    }
}

/// A code has a description, unless its symbols are too many for half-bytes and
/// a block of weights would not be shorter.
pub proof fn law_description_exists(code: Code, capacity: nat)
    requires
        code.wf(),
        code.weights.len() >= 2,
        capacity >= 65,
    ensures
        description(code, capacity) matches Err(e) ==> e == Error::Generic && code.weights.len()
            > 128,
{
    let ws = code.weights.drop_last();
    assert forall|i: int| 0 <= i < ws.len() implies #[trigger] ws[i] <= TABLELOG_MAX by {
        assert(code.weights[i] <= code.log);
    }
    lemma_weight_block_exists(ws, (capacity - 1) as nat);
}

} // verus!
