//! Laws of compressing with prefix codes: when it is tried, which code is
//! taken, what comes out, and what is read back.

use crate::entropy::bits;
use crate::entropy::hist;
use crate::entropy::huff_build;
use crate::entropy::huff_compress;
use crate::entropy::huff_compress::{Compressibility, StreamMode, TableDepth};
use crate::entropy::huff_decode;
use crate::entropy::huff_describe;
use crate::entropy::huff_header;
use crate::entropy::huff_sort;
use crate::entropy::huff_stream;
use crate::entropy::huff_table::Code;
use crate::entropy::huff_tree;
use crate::entropy::mem;
use crate::entropy::tally;
use crate::error::Error;
use vstd::arithmetic::power2::*;
use vstd::prelude::*;

verus! {

// ---------------------------------------------------------------------------
// Counts.

/// The most frequent byte of an input: no byte occurs more often, and one
/// occurs as often. The largest byte occurs, and no larger one does.
pub proof fn law_stats_of_an_input(src: Seq<u8>)
    requires
        0 < src.len() <= u32::MAX,
    ensures
        ({
            let st = tally::stats_of(src);
            &&& forall|s: u8| #[trigger] hist::frequency(src, s) <= st.most
            &&& exists|s: u8| #[trigger] hist::frequency(src, s) == st.most
            &&& forall|i: int| 0 <= i < src.len() ==> #[trigger] src[i] <= st.max
            &&& exists|i: int| 0 <= i < src.len() && #[trigger] src[i] == st.max
            &&& st.total == src.len()
            &&& forall|s: u8| st.counts[s as int] == #[trigger] hist::frequency(src, s)
        }),
{
    tally::lemma_stats(src);
    let st = tally::stats_of(src);
    assert forall|s: u8| #[trigger] hist::frequency(src, s) <= st.most by {
        assert(st.counts[s as int] == hist::frequency(src, s));
        assert(st.counts[s as int] <= st.most);
    }
    let s = lemma_largest_count_there(st.counts, 256);
    assert(hist::frequency(src, s as u8) == st.counts[s]);
    assert forall|i: int| 0 <= i < src.len() implies #[trigger] src[i] <= st.max by {
        tally::lemma_largest_code_bounds(src, i);
    }
    assert(st.counts[st.max as int] == hist::frequency(src, st.max as u8));
    let i = hist::lemma_occurrence(src, st.max as u8, src.len());
    assert(src[i] == st.max);
}

proof fn lemma_largest_count_there(counts: Seq<u32>, n: nat) -> (s: int)
    requires
        0 < n <= counts.len(),
    ensures
        0 <= s < n,
        counts[s] == tally::largest_count(counts, n),
    decreases n,
{
    if n == 1 {
        reveal_with_fuel(tally::largest_count, 2);
        0
    } else {
        let s = lemma_largest_count_there(counts, (n - 1) as nat);
        if counts[n - 1] as nat > counts[s] as nat {
            n - 1
        } else {
            s
        }
    }
}

// ---------------------------------------------------------------------------
// Decisions.

/// Nothing is tried on an empty input or without room, on one repeated byte,
/// or where the most frequent byte is hardly more frequent than any would be.
/// An input of more than a block is refused.
pub proof fn law_what_is_not_tried(
    src: Seq<u8>,
    capacity: nat,
    previous: Option<Code>,
    mode: StreamMode,
    depth: TableDepth,
    compressibility: Compressibility,
)
    ensures
        ({
            let r = huff_compress::compressed(
                src,
                capacity,
                previous,
                mode,
                depth,
                compressibility,
            );
            let most = tally::stats_of(src).most;
            &&& src.len() == 0 || capacity == 0 ==> r is Ok && r->Ok_0 is None
            &&& src.len() > 131072 && capacity > 0 ==> r is Err && r->Err_0 == Error::SrcSizeWrong
            &&& 0 < src.len() <= 131072 && (most == src.len() || most <= src.len() / 128 + 4)
                ==> r is Ok && r->Ok_0 is None
        }),
{
}

/// A suspicious input is only sampled first: where 4096 bytes of each end have
/// no frequent byte, nothing is tried. Inputs of less than ten samples are not
/// sampled.
pub proof fn law_suspects_are_sampled(src: Seq<u8>)
    ensures
        src.len() < 40960 ==> !huff_compress::sample_is_flat(src),
        src.len() >= 40960 ==> huff_compress::sample_is_flat(src) == (tally::stats_of(
            src.subrange(0, 4096),
        ).most + tally::stats_of(src.subrange(src.len() - 4096, src.len() as int)).most <= 68),
{
    if src.len() >= 40960 {
        assert(src.take(4096) =~= src.subrange(0, 4096));
        assert(src.skip(src.len() - 4096) =~= src.subrange(
            src.len() - 4096,
            src.len() as int,
        ));
    }
}

/// The earlier code is taken where it knows every symbol and is estimated to
/// need no more than a fresh code with its description, or where there is too
/// little input for a description. A fresh code comes with its description
/// first. Either saves at least two bytes.
pub proof fn law_code_that_is_taken(
    src: Seq<u8>,
    capacity: nat,
    previous: Option<Code>,
    mode: StreamMode,
    depth: TableDepth,
    compressibility: Compressibility,
)
    requires
        huff_compress::compressed(src, capacity, previous, mode, depth, compressibility) matches Ok(
            Some(_),
        ),
    ensures
        ({
            let c = huff_compress::compressed(
                src,
                capacity,
                previous,
                mode,
                depth,
                compressibility,
            )->Ok_0->0;
            let st = tally::stats_of(src);
            let fresh = huff_compress::fresh_code(src, depth);
            let d = huff_describe::description(fresh, capacity);
            let new = d->Ok_0.len() + huff_compress::coded_size(fresh, st.counts, st.max + 1);
            &&& c.bytes.len() + 2 <= src.len()
            &&& c.reused ==> {
                &&& previous == Some(c.code)
                &&& forall|s: int|
                    0 <= s <= st.max && #[trigger] st.counts[s] > 0 ==> c.code.holds(s as u8)
                &&& d is Ok ==> huff_compress::coded_size(c.code, st.counts, st.max + 1) <= new
                    || d->Ok_0.len() + 12 >= src.len()
                &&& c.bytes == huff_compress::streams_of(c.code, src, capacity, mode)
            }
            &&& !c.reused ==> {
                &&& c.code == fresh
                &&& d is Ok
                &&& d->Ok_0.len() + 12 < src.len()
                &&& c.bytes == d->Ok_0 + huff_compress::streams_of(
                    fresh,
                    src,
                    (capacity - d->Ok_0.len()) as nat,
                    mode,
                )
            }
        }),
{
}

/// An earlier code that knows every symbol, is estimated to be no worse and
/// whose streams save two bytes is taken.
pub proof fn law_good_earlier_code_is_taken(
    src: Seq<u8>,
    capacity: nat,
    code: Code,
    mode: StreamMode,
    depth: TableDepth,
)
    requires
        0 < src.len() <= 131072,
        capacity > 0,
        tally::stats_of(src).most < src.len(),
        tally::stats_of(src).most > src.len() / 128 + 4,
        ({
            let st = tally::stats_of(src);
            let fresh = huff_compress::fresh_code(src, depth);
            let d = huff_describe::description(fresh, capacity);
            let out = huff_compress::streams_of(code, src, capacity, mode);
            &&& forall|s: int|
                0 <= s <= st.max && #[trigger] st.counts[s] > 0 ==> code.holds(s as u8)
            &&& d is Ok
            &&& huff_compress::coded_size(code, st.counts, st.max + 1) <= d->Ok_0.len()
                + huff_compress::coded_size(fresh, st.counts, st.max + 1)
            &&& 0 < out.len()
            &&& out.len() + 2 <= src.len()
        }),
    ensures
        huff_compress::compressed(
            src,
            capacity,
            Some(code),
            mode,
            depth,
            Compressibility::Unknown,
        ) matches Ok(Some(c)) && c.reused && c.code == code,
{
    let st = tally::stats_of(src);
    assert(huff_compress::covers_counted(code, st.counts, st.max + 1));
}

/// What symbols are estimated to take is the lengths of their codes, each as
/// often as the symbol is counted, in whole bytes.
pub proof fn law_coded_size_adds_up(code: Code, count: Seq<u32>, n: nat)
    requires
        n < 256,
    ensures
        huff_compress::coded_bits(code, count, 0) == 0,
        huff_compress::coded_bits(code, count, n + 1) == huff_compress::coded_bits(code, count, n)
            + count[n as int] * code.length(n as u8),
        huff_compress::coded_size(code, count, n) * 8 <= huff_compress::coded_bits(code, count, n),
        huff_compress::coded_bits(code, count, n) < huff_compress::coded_size(code, count, n) * 8
            + 8,
{
    let l = code.length(n as u8) as int;
    let c = count[n as int] as int;
    assert(l * c == c * l) by (nonlinear_arith);
}

/// The depth is one below the size of the input, as a power of two, and within
/// the limit; but it leaves room for the symbols, and is from five to twelve.
pub proof fn law_estimated_depth(max_log: nat, size: nat, max_symbol: nat)
    requires
        size >= 2,
        max_symbol >= 1,
    ensures
        ({
            let r = huff_compress::estimated_log(max_log, size, max_symbol);
            let by_source = mem::floor_log2((size - 1) as nat) - 1;
            let room = mem::floor_log2(max_symbol) + 2;
            let all = mem::floor_log2(size) + 1;
            &&& 5 <= r <= 12
            &&& r < 12 ==> r >= room || r >= all
            &&& r > 5 && r > room ==> r <= by_source && r <= max_log
            &&& r > 5 && r > all ==> r <= by_source && r <= max_log
            &&& r < 12 && r < max_log ==> r >= by_source
        }),
{
}

proof fn lemma_search_improves(
    count: Seq<u32>,
    n: nat,
    guess: nat,
    last: nat,
    best_size: nat,
    best: nat,
)
    requires
        huff_compress::total_size(count, n, best) == Some(best_size),
    ensures
        huff_compress::total_size(
            count,
            n,
            huff_compress::searched_from(count, n, guess, last, best_size, best),
        ) matches Some(t) && t <= best_size,
    decreases last + 1 - guess,
{
    if guess <= last {
        match huff_compress::total_size(count, n, guess) {
            None => {
                lemma_search_improves(count, n, guess + 1, last, best_size, best);
            },
            Some(size) => {
                if size < best_size {
                    lemma_search_improves(count, n, guess + 1, last, size, guess);
                } else {
                    lemma_search_improves(count, n, guess + 1, last, best_size, best);
                }
            },
        }
    }
}

/// A searched depth is no worse, description and all, than the least depth
/// that leaves room for the symbols.
pub proof fn law_search_is_no_worse_than_its_start(
    max_log: nat,
    count: Seq<u32>,
    n: nat,
    size: nat,
)
    requires
        huff_compress::least_log(count, n) <= huff_compress::estimated_log(
            max_log,
            size,
            (n - 1) as nat,
        ),
        huff_compress::total_size(count, n, huff_compress::least_log(count, n)) matches Some(t) && t
            < usize::MAX - 1,
    ensures
        huff_compress::total_size(
            count,
            n,
            huff_compress::searched_log(max_log, count, n, size),
        ) matches Some(t) && t <= huff_compress::total_size(
            count,
            n,
            huff_compress::least_log(count, n),
        )->0,
{
    let least = huff_compress::least_log(count, n);
    let last = huff_compress::estimated_log(max_log, size, (n - 1) as nat);
    let t = huff_compress::total_size(count, n, least)->0;
    lemma_search_improves(count, n, least + 1, last, t, least);
}

// ---------------------------------------------------------------------------
// Codes.

/// Where no leaf lies deeper than the limit, a symbol's code is as long as its
/// leaf lies deep.
pub proof fn law_codes_are_as_long_as_leaves_are_deep(
    count: Seq<u32>,
    n: nat,
    top: nat,
    i: int,
)
    requires
        huff_build::buildable(count, n, top),
        huff_build::tree_height(count, n) <= top,
        0 <= i < huff_build::tree_leaves(count, n).len(),
    ensures
        ({
            let leaves = huff_build::tree_leaves(count, n);
            huff_build::huffman_code(count, n, top).length(leaves[i].byte)
                == huff_tree::leaf_depths(leaves)[i]
        }),
{
    huff_build::lemma_code_of_leaf(count, n, top, i);
}

/// The leaves of a tree are the symbols that are counted, each once, by
/// descending count.
pub proof fn law_leaves_are_the_counted_symbols(count: Seq<u32>, n: nat, s: u8)
    requires
        n <= 256,
        n <= count.len(),
        s < n,
        count[s as int] > 0,
    ensures
        exists|i: int|
            0 <= i < huff_build::tree_leaves(count, n).len() && (
            #[trigger] huff_build::tree_leaves(count, n)[i]).byte == s
                && huff_build::tree_leaves(count, n)[i].count == count[s as int],
        forall|i: int, j: int|
            0 <= i < j < huff_build::tree_leaves(count, n).len() ==> (
            #[trigger] huff_build::tree_leaves(count, n)[i]).byte != (
            #[trigger] huff_build::tree_leaves(count, n)[j]).byte
                && huff_build::tree_leaves(count, n)[i].count >= huff_build::tree_leaves(
                count,
                n,
            )[j].count,
{
    huff_build::lemma_tree_leaves(count, n);
    let leaves = huff_build::tree_leaves(count, n);
    assert(huff_sort::has_leaf(leaves, s as int));
    let i = choose|i: int| huff_sort::leaf_at(leaves, i, s as int);
    assert(leaves[i].byte == s);
}

/// A description is the shorter of its two forms: a block of weights behind its
/// size, where that is less than half as many bytes as there are weights, and
/// otherwise half-bytes behind their number.
pub proof fn law_description_forms(code: Code, capacity: nat)
    requires
        huff_describe::description(code, capacity) is Ok,
        1 < code.weights.len() <= 256,
    ensures
        ({
            let d = huff_describe::description(code, capacity)->Ok_0;
            let n = code.weights.len() - 1;
            &&& d[0] < 128 ==> d.len() == 1 + d[0] && 1 < d[0] < n / 2
            &&& d[0] >= 128 ==> d[0] == 127 + n && d.len() == 1 + (n + 1) / 2
            &&& d[0] >= 128 ==> forall|i: int|
                0 <= i < n / 2 ==> #[trigger] d[1 + i] == (16 * code.weights[2 * i]
                    + code.weights[2 * i + 1]) as u8
        }),
{
}

// ---------------------------------------------------------------------------
// Reading.

/// Input of as many bytes as symbols is the symbols; a single byte is all of
/// them; more bytes than symbols are refused. Any other input is the
/// description of a code and four streams behind it.
pub proof fn law_what_is_read(src: Seq<u8>, n: nat)
    ensures
        ({
            let r = huff_decode::decompressed(src, n);
            &&& n == 0 ==> r is Err && r->Err_0 == Error::DstSizeTooSmall
            &&& n > 0 && src.len() > n ==> r is Err && r->Err_0 is Corruption
            &&& n > 0 && src.len() == n ==> r is Ok && r->Ok_0 == src
            &&& n > 1 && src.len() == 1 ==> r is Ok && r->Ok_0.len() == n && forall|i: int|
                0 <= i < n ==> #[trigger] r->Ok_0[i] == src[0]
            &&& n > src.len() && src.len() != 1 ==> match huff_header::code_description(src) {
                Err(e) => r is Err && r->Err_0 == e,
                Ok((code, size)) => {
                    &&& size >= src.len() ==> r is Err && r->Err_0 == Error::SrcSizeWrong
                    &&& size < src.len() && r is Ok ==> code.wf()
                    &&& size < src.len() && crate::entropy::huff_stream::streams_symbols(
                        code,
                        src.skip(size as int),
                        n,
                    ) is Ok ==> r == crate::entropy::huff_stream::streams_symbols(
                        code,
                        src.skip(size as int),
                        n,
                    )
                },
            }
        }),
{
    huff_header::lemma_code_description(src);
    if let Ok((code, size)) = huff_header::code_description(src) {
        if size < src.len() && crate::entropy::huff_stream::streams_symbols(
            code,
            src.skip(size as int),
            n,
        ) is Ok {
            huff_decode::law_shapes_decode_alike(true, code, src.skip(size as int), n);
        }
    }
}

/// Which table suits an input goes by times that were measured for each
/// sixteenth of how much it was compressed: one for the table, and one for each
/// 256 bytes. The larger table has to be faster by a thirty-second.
pub proof fn law_larger_table_has_to_be_faster(n: nat, size: nat)
    requires
        n > 0,
    ensures
        ({
            let q = if size >= n {
                15int
            } else {
                (size * 16 / n) as int
            };
            let single = seq![
                0nat, 0, 150, 170, 177, 197, 221, 256, 359, 582, 688, 825, 976, 1180, 1377, 1412,
            ][q] + seq![
                0nat, 0, 216, 205, 199, 194, 192, 189, 188, 187, 187, 186, 185, 186, 185, 185,
            ][q] * (n / 256);
            let double = seq![
                1nat, 1, 381, 514, 539, 644, 735, 881, 1167, 1570, 1712, 1965, 2131, 2070, 1731,
                1695,
            ][q] + seq![
                1nat, 1, 119, 112, 110, 107, 107, 106, 109, 114, 122, 136, 150, 175, 202, 202,
            ][q] * (n / 256);
            huff_decode::double_is_faster(n, size) == (double + double / 32 < single)
        }),
{
    let q = huff_decode::ratio(n, size) as int;
    assert(0 <= q < 16) by {
        if size < n {
            assert(size * 16 / n < 16) by (nonlinear_arith)
                requires
                    size < n,
                    n > 0,
            ;
        }
    }
}

// ---------------------------------------------------------------------------
// Room.

/// A stream is written where its bytes fit with a word to spare, and otherwise
/// not at all.
pub proof fn law_streams_need_a_word_to_spare(code: Code, src: Seq<u8>, capacity: nat)
    requires
        src.len() > 0,
    ensures
        ({
            let b = huff_stream::encoded(code, src, 0);
            let r = huff_stream::one_stream(code, src, capacity);
            &&& (b.len + 1) / 8 + 8 < capacity ==> r == bits::marked_bytes(b) && r.len() == b.len / 8
                + 1
            &&& (b.len + 1) / 8 + 8 >= capacity ==> r.len() == 0
        }),
{
    let b = huff_stream::encoded(code, src, 0);
    bits::lemma_nat_bytes(b.value + pow2(b.len), b.len / 8 + 1);
}

/// The code that is made for an input is the prefix code of the bytes up to the
/// largest, of at most eleven bits, or fewer where the input is small.
pub proof fn law_code_of_an_input(src: Seq<u8>)
    ensures
        ({
            let st = tally::stats_of(src);
            let n = st.max + 1;
            &&& huff_compress::fresh_code(src, TableDepth::Estimated) == huff_build::huffman_code(
                st.counts,
                n,
                huff_compress::estimated_log(11, src.len(), st.max),
            )
            &&& huff_compress::fresh_code(src, TableDepth::Searched) == huff_build::huffman_code(
                st.counts,
                n,
                huff_compress::searched_log(11, st.counts, n, src.len()),
            )
        }),
{
}

} // verus!
