//! Compressing bytes with a prefix code: choosing the depth of the code,
//! keeping an earlier code where it does as well, and estimating sizes.

use crate::entropy::bits;
use crate::entropy::hist;
use crate::entropy::hist::Histogram;
use crate::entropy::huff_build;
use crate::entropy::huff_build::{build_ctable, TABLELOG_DEFAULT};
use crate::entropy::huff_code;
use crate::entropy::huff_code::TABLELOG_MAX;
use crate::entropy::huff_decode;
use crate::entropy::huff_describe;
use crate::entropy::huff_describe::write_ctable;
use crate::entropy::huff_header;
use crate::entropy::huff_stream;
use crate::entropy::huff_stream::{
    compress_1x_using_ctable,
    compress_4x_using_ctable,
    BLOCKBOUND_MIN,
};
use crate::entropy::huff_table::{CTableX1, Code};
use crate::entropy::mem;
use crate::entropy::normalize;
use crate::entropy::tally;
use crate::error::{Error, Result};
use vstd::arithmetic::mul::*;
use vstd::arithmetic::power2::*;
use vstd::prelude::*;

verus! {

/// The largest input.
pub const BLOCKSIZE_MAX: usize = 131072;

/// Whether the symbols are written as one stream or as four.
#[derive(Debug, Clone, Copy, PartialEq, Eq, Structural)]
pub enum StreamMode {
    Single,
    Four,
}

/// How the depth of a code is chosen.
#[derive(Debug, Clone, Copy, PartialEq, Eq, Structural)]
pub enum TableDepth {
    /// From the size of the input and of its alphabet.
    Estimated,
    /// By building the code at every depth and keeping the one that gives the
    /// smallest total.
    Searched,
}

/// Whether there is reason to expect that the input does not compress.
#[derive(Debug, Clone, Copy, PartialEq, Eq, Structural)]
pub enum Compressibility {
    /// Every byte is counted.
    Unknown,
    /// A sample is counted first.
    Suspect,
}

// ---------------------------------------------------------------------------
// Writing with a table.

/// The streams of the symbols, or nothing where they do not fit.
pub open spec fn streams_of(code: Code, src: Seq<u8>, capacity: nat, mode: StreamMode) -> Seq<u8> {
    match mode {
        StreamMode::Single => huff_stream::one_stream(code, src, capacity),
        StreamMode::Four => huff_stream::four_streams(code, src, capacity),
    }
}

/// What the streams of `n` symbols decode to.
pub open spec fn symbols_in(code: Code, src: Seq<u8>, n: nat, mode: StreamMode) -> Result<Seq<u8>> {
    match mode {
        StreamMode::Single => huff_stream::stream_symbols(code, src, n),
        StreamMode::Four => huff_stream::streams_symbols(code, src, n),
    }
}

/// Every symbol has a code.
pub open spec fn covers(code: Code, src: Seq<u8>) -> bool {
    forall|i: int| 0 <= i < src.len() ==> code.holds(#[trigger] src[i])
}

/// Every counted symbol has a code.
pub open spec fn covers_counted(code: Code, count: Seq<u32>, n: nat) -> bool {
    forall|s: int| 0 <= s < n && #[trigger] count[s] > 0 ==> code.holds(s as u8)
}

/// The streams of symbols that all have codes are read back as written.
pub proof fn law_streams_roundtrip(code: Code, src: Seq<u8>, capacity: nat, mode: StreamMode)
    requires
        code.wf(),
        covers(code, src),
        streams_of(code, src, capacity, mode).len() > 0,
    ensures
        symbols_in(code, streams_of(code, src, capacity, mode), src.len(), mode) == Ok::<
            Seq<u8>,
            Error,
        >(src),
{
    match mode {
        StreamMode::Single => {
            huff_stream::law_one_stream_roundtrip(code, src, capacity);
        },
        StreamMode::Four => {
            huff_stream::law_four_streams_roundtrip(code, src, capacity);
        },
    }
}

fn compress_using_ctable_mode(capacity: usize, src: &[u8], ctable: &CTableX1, mode: StreamMode) -> (r:
    Vec<u8>)
    requires
        ctable.wf(),
    ensures
        r@ == streams_of(ctable@, src@, capacity as nat, mode),
{
    match mode {
        StreamMode::Single => compress_1x_using_ctable(capacity, src, ctable),
        StreamMode::Four => compress_4x_using_ctable(capacity, src, ctable),
    }
}

/// Whether the table has a code for every symbol.
fn table_supports_all_symbols(ctable: &CTableX1, src: &[u8]) -> (r: bool)
    requires
        ctable.wf(),
    ensures
        r == covers(ctable@, src@),
{
    let mut i: usize = 0;
    while i < src.len()
        invariant
            i <= src@.len(),
            ctable.wf(),
            forall|k: int| 0 <= k < i ==> ctable@.holds(#[trigger] src@[k]),
        decreases src@.len() - i,
    {
        proof {
            lemma_length_positive(ctable@, src@[i as int]);
        }
        if ctable.symbol_nb_bits(src[i]) == 0 {
            return false;
        }
        i = i + 1;
    }
    true
}

proof fn lemma_length_positive(code: Code, s: u8)
    requires
        code.wf(),
    ensures
        code.holds(s) <==> code.length(s) > 0,
        code.length(s) <= TABLELOG_MAX,
{
    if code.holds(s) {
        huff_code::lemma_symbol_places(code.weights, code.log, s as int);
    }
}

/// Whether the table has a code for every counted symbol.
fn table_covers_counted_symbols(ctable: &CTableX1, count: &[u32], n: usize) -> (r: bool)
    requires
        ctable.wf(),
        n <= 256,
        n <= count@.len(),
    ensures
        r == covers_counted(ctable@, count@, n as nat),
{
    let mut s: usize = 0;
    while s < n
        invariant
            s <= n <= 256,
            n <= count@.len(),
            ctable.wf(),
            forall|k: int| 0 <= k < s && #[trigger] count@[k] > 0 ==> ctable@.holds(k as u8),
        decreases n - s,
    {
        proof {
            lemma_length_positive(ctable@, s as u8);
        }
        if count[s] != 0 && ctable.symbol_nb_bits(s as u8) == 0 {
            return false;
        }
        s = s + 1;
    }
    true
}

/// What a table makes of the symbols; `None` where it lacks one, or where that
/// would gain nothing.
pub open spec fn written_with(code: Code, src: Seq<u8>, capacity: nat, mode: StreamMode) -> Option<
    Seq<u8>,
> {
    let out = streams_of(code, src, capacity, mode);
    if src.len() == 0 || !covers(code, src) || out.len() == 0 || out.len() + 1 >= src.len() {
        None
    } else {
        Some(out)
    }
}

/// Writes the symbols with a table, as one stream or four, into at most
/// `capacity` bytes; `None` where the table lacks a symbol or nothing is
/// gained. What is written is read back.
pub fn compress_with_table_into_mode(
    capacity: usize,
    src: &[u8],
    ctable: &CTableX1,
    mode: StreamMode,
) -> (r: Option<Vec<u8>>)
    requires
        ctable.wf(),
    ensures
        match written_with(ctable@, src@, capacity as nat, mode) {
            None => r is None,
            Some(bytes) => r matches Some(v) && v@ == bytes && symbols_in(
                ctable@,
                v@,
                src@.len(),
                mode,
            ) == Ok::<Seq<u8>, Error>(src@),
        },
{
    let len: usize = src.len();
    if len == 0 || !table_supports_all_symbols(ctable, src) {
        return None;
    }
    let out: Vec<u8> = compress_using_ctable_mode(capacity, src, ctable, mode);
    if out.len() == 0 || out.len() >= len - 1 {
        return None;
    }
    proof {
        law_streams_roundtrip(ctable@, src@, capacity as nat, mode);
    }
    Some(out)
}

/// Writes the symbols with a table, as four streams.
pub fn compress_with_table_into(capacity: usize, src: &[u8], ctable: &CTableX1) -> (r: Option<
    Vec<u8>,
>)
    requires
        ctable.wf(),
    ensures
        match written_with(ctable@, src@, capacity as nat, StreamMode::Four) {
            None => r is None,
            Some(bytes) => r matches Some(v) && v@ == bytes,
        },
{
    compress_with_table_into_mode(capacity, src, ctable, StreamMode::Four)
}

/// Writes the symbols with a table, as one stream or four, with room to spare.
pub fn compress_with_table_mode(src: &[u8], ctable: &CTableX1, mode: StreamMode) -> (r: Option<
    Vec<u8>,
>)
    requires
        ctable.wf(),
        src@.len() + BLOCKBOUND_MIN <= usize::MAX,
    ensures
        match written_with(ctable@, src@, src@.len() + BLOCKBOUND_MIN as nat, mode) {
            None => r is None,
            Some(bytes) => r matches Some(v) && v@ == bytes,
        },
{
    compress_with_table_into_mode(src.len() + BLOCKBOUND_MIN, src, ctable, mode)
}

/// Writes the symbols with a table, as four streams, with room to spare.
pub fn compress_with_table(src: &[u8], ctable: &CTableX1) -> (r: Option<Vec<u8>>)
    requires
        ctable.wf(),
        src@.len() + BLOCKBOUND_MIN <= usize::MAX,
    ensures
        match written_with(ctable@, src@, src@.len() + BLOCKBOUND_MIN as nat, StreamMode::Four) {
            None => r is None,
            Some(bytes) => r matches Some(v) && v@ == bytes,
        },
{
    compress_with_table_mode(src, ctable, StreamMode::Four)
}

// ---------------------------------------------------------------------------
// Sizes and depths.

/// How many bits the first `n` symbols take.
pub open spec fn coded_bits(code: Code, count: Seq<u32>, n: nat) -> nat
    decreases n,
{
    if n == 0 {
        0
    } else {
        coded_bits(code, count, (n - 1) as nat) + code.length((n - 1) as u8) * count[n - 1] as nat
    }
}

/// How many whole bytes the counted symbols take.
pub open spec fn coded_size(code: Code, count: Seq<u32>, n: nat) -> nat {
    coded_bits(code, count, n) / 8
}

/// The bits of as many symbols as a count can tell, at twelve bits each.
const COUNT_BITS_MAX: u64 = 51539607540;

proof fn lemma_coded_bits(code: Code, count: Seq<u32>, n: nat)
    requires
        code.wf(),
        n <= 256,
    ensures
        coded_bits(code, count, n) <= 12 * normalize::count_sum(count, n),
        coded_bits(code, count, n) <= COUNT_BITS_MAX * n,
        normalize::count_sum(count, n) < 0x40000000 ==> coded_size(code, count, n) <= 0x60000000,
    decreases n,
{
    if n > 0 {
        lemma_coded_bits(code, count, (n - 1) as nat);
        lemma_length_positive(code, (n - 1) as u8);
        let l = code.length((n - 1) as u8) as int;
        let c = count[n - 1] as int;
        assert(l * c <= 12 * c) by (nonlinear_arith)
            requires
                0 <= l <= 12,
                0 <= c,
        ;
        assert(c <= u32::MAX);
    }
}

/// How many whole bytes the counted symbols take.
pub fn estimate_compressed_size(ctable: &CTableX1, count: &[u32], n: usize) -> (r: usize)
    requires
        ctable.wf(),
        n <= 256,
        n <= count@.len(),
        coded_size(ctable@, count@, n as nat) <= usize::MAX,
    ensures
        r == coded_size(ctable@, count@, n as nat),
{
    let mut bits: u64 = 0;
    let mut s: usize = 0;
    while s < n
        invariant
            s <= n <= 256,
            n <= count@.len(),
            ctable.wf(),
            bits == coded_bits(ctable@, count@, s as nat),
            bits <= COUNT_BITS_MAX * s,
        decreases n - s,
    {
        proof {
            lemma_coded_bits(ctable@, count@, (s + 1) as nat);
            lemma_length_positive(ctable@, s as u8);
            let l = ctable@.length(s as u8) as int;
            let c = count@[s as int] as int;
            assert(0 <= l * c <= COUNT_BITS_MAX) by (nonlinear_arith)
                requires
                    0 <= l <= 12,
                    0 <= c <= 0xffff_ffff,
            ;
        }
        bits = bits + ctable.symbol_nb_bits(s as u8) as u64 * count[s] as u64;
        s = s + 1;
    }
    (bits / 8) as usize
}

/// The depth that suits an input of this size over this alphabet.
pub open spec fn estimated_log(max_log: nat, size: nat, max_symbol: nat) -> nat {
    let source = mem::floor_log2((size - 1) as nat);
    let most = if source >= 1 {
        (source - 1) as nat
    } else {
        0
    };
    let for_source = mem::floor_log2(size) + 1;
    let for_symbols = mem::floor_log2(max_symbol) + 2;
    let least = if for_source < for_symbols {
        for_source
    } else {
        for_symbols
    };
    let log = if most < max_log {
        most
    } else {
        max_log
    };
    let raised = if least > log {
        least
    } else {
        log
    };
    normalize::clamp(raised, 5, 12)
}

/// A size, of which only the low 32 bits are looked at.
pub open spec fn low_word(size: nat) -> nat {
    size % 0x1_0000_0000
}

/// The depth that suits an input of this size over this alphabet.
pub fn optimal_table_log(max_table_log: u32, src_size: usize, max_symbol_value: u32) -> (r: u32)
    requires
        2 <= src_size <= u32::MAX || 2 <= low_word(src_size as nat),
        1 <= max_symbol_value,
    ensures
        src_size <= u32::MAX ==> r == estimated_log(
            max_table_log as nat,
            src_size as nat,
            max_symbol_value as nat,
        ),
        r == estimated_log(
            max_table_log as nat,
            low_word(src_size as nat),
            max_symbol_value as nat,
        ),
        5 <= r <= 12,
{
    let size: u32 = (src_size as u64 % 0x1_0000_0000) as u32;
    let source: u32 = mem::highbit32(size - 1);
    let most: u32 = if source >= 1 {
        source - 1
    } else {
        0
    };
    let for_source: u32 = mem::highbit32(size) + 1;
    let for_symbols: u32 = mem::highbit32(max_symbol_value) + 2;
    let least: u32 = if for_source < for_symbols {
        for_source
    } else {
        for_symbols
    };
    let mut log: u32 = if most < max_table_log {
        most
    } else {
        max_table_log
    };
    if least > log {
        log = least;
    }
    if log < 5 {
        5
    } else if log > 12 {
        12
    } else {
        log
    }
}

/// The counts of an input are those of a code of any depth that leaves room for
/// its symbols; the estimated depth does.
proof fn lemma_counts_buildable(src: Seq<u8>, max_log: nat)
    requires
        max_log <= TABLELOG_MAX,
        2 <= src.len() < 0x40000000,
        tally::stats_of(src).most < src.len(),
    ensures
        ({
            let st = tally::stats_of(src);
            let n = st.max + 1;
            let cards = normalize::symbols_counted(st.counts, n);
            &&& st.max >= 1
            &&& n <= 256
            &&& st.counts.len() == 256
            &&& st.counts[n - 1] > 0
            &&& normalize::count_sum(st.counts, n) == src.len()
            &&& 2 <= cards <= n
            &&& cards <= pow2(estimated_log(max_log, src.len(), st.max))
            &&& 5 <= estimated_log(max_log, src.len(), st.max) <= 12
            &&& max_log <= 11 ==> estimated_log(max_log, src.len(), st.max) <= 11
        }),
{
    let st = tally::stats_of(src);
    let n = st.max + 1;
    tally::lemma_stats(src);
    lemma_cards_bound(st.counts, n);
    let m = tally::lemma_largest_code_at(src);
    // A second symbol.
    assert(exists|i: int| 0 <= i < src.len() && #[trigger] src[i] != src[m]) by {
        if forall|i: int| 0 <= i < src.len() ==> #[trigger] src[i] == src[m] {
            hist::lemma_all_equal(src, src[m], src.len());
            assert(st.counts[src[m] as int] == hist::frequency(src, src[m]));
            assert(st.counts[src[m] as int] <= st.most);
        }
    }
    let i = choose|i: int| 0 <= i < src.len() && #[trigger] src[i] != src[m];
    tally::lemma_largest_code_bounds(src, i);
    hist::lemma_frequency_positive(src, i);
    hist::lemma_frequency_positive(src, m);
    assert(st.counts[src[i] as int] == hist::frequency(src, src[i]));
    assert(st.counts[src[m] as int] == hist::frequency(src, src[m]));
    lemma_two_counted(st.counts, n, src[i] as int, src[m] as int);
    let log = estimated_log(max_log, src.len(), st.max);
    lemma2_to64();
    mem::lemma_floor_log2(src.len());
    mem::lemma_floor_log2(st.max);
    let a = mem::floor_log2(src.len()) + 1;
    let b = mem::floor_log2(st.max) + 2;
    if mem::floor_log2(st.max) >= 8 {
        mem::lemma_pow2_monotone(8, mem::floor_log2(st.max));
    }
    lemma_pow2_unfold(mem::floor_log2(st.max) + 2);
    if a < b {
        mem::lemma_pow2_monotone(a, log);
    } else {
        mem::lemma_pow2_monotone(b, log);
    }
}

proof fn lemma_cards_bound(count: Seq<u32>, n: nat)
    ensures
        normalize::symbols_counted(count, n) <= n,
        normalize::symbols_counted(count, n) <= normalize::count_sum(count, n),
    decreases n,
{
    if n > 0 {
        lemma_cards_bound(count, (n - 1) as nat);
    }
}

proof fn lemma_one_counted(count: Seq<u32>, n: nat, s: int)
    requires
        0 <= s < n,
        count[s] > 0,
    ensures
        normalize::symbols_counted(count, n) >= 1,
    decreases n,
{
    if s < n - 1 {
        lemma_one_counted(count, (n - 1) as nat, s);
    }
}

proof fn lemma_two_counted(count: Seq<u32>, n: nat, s: int, t: int)
    requires
        0 <= s < n,
        0 <= t < n,
        s != t,
        count[s] > 0,
        count[t] > 0,
    ensures
        normalize::symbols_counted(count, n) >= 2,
    decreases n,
{
    let last = n - 1;
    if s == last {
        lemma_one_counted(count, (n - 1) as nat, t);
    } else if t == last {
        lemma_one_counted(count, (n - 1) as nat, s);
    } else {
        lemma_two_counted(count, (n - 1) as nat, s, t);
    }
}

// ---------------------------------------------------------------------------
// Searching for a depth.

/// The least depth that leaves room for the counted symbols.
pub open spec fn least_log(count: Seq<u32>, n: nat) -> nat {
    let cards = normalize::symbols_counted(count, n);
    let log = if cards == 0 {
        1
    } else {
        mem::floor_log2(cards) + 1
    };
    if log < 5 {
        5
    } else {
        log
    }
}

/// How many bytes the description and the symbols take at a depth; `None`
/// where the code cannot be described.
pub open spec fn total_size(count: Seq<u32>, n: nat, log: nat) -> Option<nat> {
    let code = huff_build::huffman_code(count, n, log);
    match huff_describe::description(code, 256) {
        Ok(header) => Some(coded_size(code, count, n) + header.len()),
        Err(_) => None,
    }
}

/// The depth with the smallest total among those from `guess` on, given the
/// best one before them. The search ends where codes stop getting longer, and
/// where totals grow.
pub open spec fn searched_from(
    count: Seq<u32>,
    n: nat,
    guess: nat,
    last: nat,
    best_size: nat,
    best: nat,
) -> nat
    decreases last + 1 - guess,
{
    let code = huff_build::huffman_code(count, n, guess);
    if guess > last {
        best
    } else if code.log < guess && guess > least_log(count, n) {
        best
    } else {
        match total_size(count, n, guess) {
            None => searched_from(count, n, guess + 1, last, best_size, best),
            Some(size) => if size > best_size + 1 {
                best
            } else if size < best_size {
                searched_from(count, n, guess + 1, last, size, guess)
            } else {
                searched_from(count, n, guess + 1, last, best_size, best)
            },
        }
    }
}

/// The depth that a search finds for an input of `size` bytes.
pub open spec fn searched_log(max_log: nat, count: Seq<u32>, n: nat, size: nat) -> nat {
    let last = estimated_log(max_log, size, (n - 1) as nat);
    searched_from(count, n, least_log(count, n), last, (usize::MAX - 1) as nat, last)
}

proof fn lemma_searched_from(
    count: Seq<u32>,
    n: nat,
    guess: nat,
    last: nat,
    best_size: nat,
    best: nat,
)
    requires
        best <= last,
        5 <= guess,
        5 <= best,
        normalize::symbols_counted(count, n) <= pow2(guess),
        normalize::symbols_counted(count, n) <= pow2(best),
    ensures
        5 <= searched_from(count, n, guess, last, best_size, best) <= last,
        normalize::symbols_counted(count, n) <= pow2(
            searched_from(count, n, guess, last, best_size, best),
        ),
    decreases last + 1 - guess,
{
    if guess <= last {
        mem::lemma_pow2_monotone(guess, guess + 1);
        match total_size(count, n, guess) {
            None => {
                lemma_searched_from(count, n, guess + 1, last, best_size, best);
            },
            Some(size) => {
                lemma_searched_from(count, n, guess + 1, last, size, guess);
                lemma_searched_from(count, n, guess + 1, last, best_size, best);
            },
        }
    }
}

fn count_symbols(count: &[u32], n: usize) -> (r: u32)
    requires
        n <= 256,
        n <= count@.len(),
    ensures
        r == normalize::symbols_counted(count@, n as nat),
        r <= n,
{
    let mut cards: u32 = 0;
    let mut s: usize = 0;
    while s < n
        invariant
            s <= n <= 256,
            n <= count@.len(),
            cards == normalize::symbols_counted(count@, s as nat),
            cards <= s,
        decreases n - s,
    {
        if count[s] > 0 {
            cards = cards + 1;
        }
        s = s + 1;
    }
    cards
}

/// The depth of the code that gives the smallest total of description and
/// symbols. Where no depth up to the estimated one leaves room for the counted
/// symbols, no code is built, and the estimated depth stands.
pub fn optimal_table_log_search(
    max_table_log: u32,
    count: &[u32],
    max_symbol_value: u32,
    src_size: usize,
) -> (r: u32)
    requires
        1 <= max_symbol_value <= 255,
        max_symbol_value < count@.len(),
        2 <= src_size <= u32::MAX,
        least_log(count@, max_symbol_value as nat + 1) <= estimated_log(
            max_table_log as nat,
            src_size as nat,
            max_symbol_value as nat,
        ) ==> {
            &&& normalize::symbols_counted(count@, max_symbol_value as nat + 1) >= 2
            &&& normalize::count_sum(count@, max_symbol_value as nat + 1) < 0x40000000
        },
    ensures
        r == searched_log(
            max_table_log as nat,
            count@,
            max_symbol_value as nat + 1,
            src_size as nat,
        ),
        5 <= r <= 12,
{
    let n: usize = max_symbol_value as usize + 1;
    let cards: u32 = count_symbols(count, n);
    assert(cards > 0);
    let least: u32 = {
        let log: u32 = mem::highbit32(cards) + 1;
        if log < 5 {
            5
        } else {
            log
        }
    };
    let last: u32 = optimal_table_log(max_table_log, src_size, max_symbol_value);
    if least > last {
        return last;
    }
    let ghost goal = searched_log(
        max_table_log as nat,
        count@,
        n as nat,
        src_size as nat,
    );
    proof {
        mem::lemma_floor_log2(cards as nat);
        mem::lemma_pow2_monotone(mem::floor_log2(cards as nat) + 1, least as nat);
        mem::lemma_pow2_monotone(least as nat, last as nat);
        assert(least == least_log(count@, n as nat));
        lemma_searched_from(
            count@,
            n as nat,
            least as nat,
            last as nat,
            (usize::MAX - 1) as nat,
            last as nat,
        );
    }
    let mut best_size: usize = usize::MAX - 1;
    let mut best: u32 = last;
    let mut guess: u32 = least;
    while guess <= last
        invariant
            n == max_symbol_value + 1,
            1 <= max_symbol_value <= 255,
            n <= count@.len(),
            last <= 12,
            5 <= least == least_log(count@, n as nat),
            least <= guess,
            5 <= guess,
            5 <= best <= 12,
            best_size <= usize::MAX - 1,
            normalize::symbols_counted(count@, n as nat) >= 2,
            normalize::symbols_counted(count@, n as nat) <= pow2(guess as nat),
            normalize::count_sum(count@, n as nat) < 0x40000000,
            goal <= 12,
            5 <= goal,
            goal == searched_log(
                max_table_log as nat,
                count@,
                n as nat,
                src_size as nat,
            ),
            searched_from(
                count@,
                n as nat,
                guess as nat,
                last as nat,
                best_size as nat,
                best as nat,
            ) == goal,
        decreases last + 1 - guess,
    {
        proof {
            mem::lemma_pow2_monotone(guess as nat, (guess + 1) as nat);
            huff_build::law_huffman_code(count@, n as nat, guess as nat);
        }
        let table: CTableX1 = match build_ctable(count, max_symbol_value, guess) {
            Ok(table) => table,
            Err(_) => {
                return best;
            },
        };
        if table.table_log() < guess && guess > least {
            return best;
        }
        proof {
            lemma_coded_bits(table@, count@, n as nat);
        }
        let data: usize = estimate_compressed_size(&table, count, n);
        if let Ok(header) = write_ctable(256, &table, max_symbol_value) {
            proof {
                huff_describe::lemma_description_fits(table@, 256);
            }
            let size: usize = data + header.len();
            if size > best_size + 1 {
                return best;
            }
            if size < best_size {
                best_size = size;
                best = guess;
            }
        }
        guess = guess + 1;
    }
    best
}

// ---------------------------------------------------------------------------
// Compressing.

/// Bytes counted at each end of the input by the sampled check.
pub const SUSPECT_INCOMPRESSIBLE_SAMPLE_SIZE: usize = 4096;

/// How many samples an input must hold for sampling to be worth it.
pub const SUSPECT_INCOMPRESSIBLE_SAMPLE_RATIO: usize = 10;

/// The most frequent bytes of the two ends are so rare that the input is not
/// worth compressing.
pub open spec fn sample_is_flat(src: Seq<u8>) -> bool {
    let k = SUSPECT_INCOMPRESSIBLE_SAMPLE_SIZE as int;
    src.len() >= k * SUSPECT_INCOMPRESSIBLE_SAMPLE_RATIO && tally::stats_of(src.take(k)).most
        + tally::stats_of(src.skip(src.len() - k)).most <= 2 * k / 128 + 4
}

/// Whether the two ends of a large input look incompressible.
pub fn looks_incompressible_from_sample(src: &[u8]) -> (r: bool)
    ensures
        r == sample_is_flat(src@),
{
    let len: usize = src.len();
    let k: usize = SUSPECT_INCOMPRESSIBLE_SAMPLE_SIZE;
    if len < k * SUSPECT_INCOMPRESSIBLE_SAMPLE_RATIO {
        return false;
    }
    let first: Histogram = hist::count_simple(&src[0..k]);
    let second: Histogram = hist::count_simple(&src[len - k..len]);
    proof {
        assert(src@.subrange(0, k as int) =~= src@.take(k as int));
        assert(src@.subrange(len - k, len as int) =~= src@.skip(len - k));
        tally::lemma_histogram(first, src@.take(k as int));
        tally::lemma_histogram(second, src@.skip(len - k));
        tally::lemma_stats(src@.take(k as int));
        tally::lemma_stats(src@.skip(len - k));
    }
    (first.largest + second.largest) as usize <= 2 * k / 128 + 4
}

/// An input whose most frequent byte is every byte, or is too rare.
pub open spec fn not_worth_coding(src: Seq<u8>) -> bool {
    let most = tally::stats_of(src).most;
    most == src.len() || most <= src.len() / 128 + 4
}

/// The depth of the code for an input.
pub open spec fn chosen_log(src: Seq<u8>, depth: TableDepth) -> nat {
    let st = tally::stats_of(src);
    match depth {
        TableDepth::Estimated => estimated_log(TABLELOG_DEFAULT as nat, src.len(), st.max),
        TableDepth::Searched => searched_log(
            TABLELOG_DEFAULT as nat,
            st.counts,
            st.max + 1,
            src.len(),
        ),
    }
}

/// The code for an input.
pub open spec fn fresh_code(src: Seq<u8>, depth: TableDepth) -> Code {
    let st = tally::stats_of(src);
    huff_build::huffman_code(st.counts, st.max + 1, chosen_log(src, depth))
}

/// A compressed input, and the code it was written with.
pub struct Compressed {
    pub bytes: Seq<u8>,
    pub reused: bool,
    pub code: Code,
}

/// What an earlier code makes of the input, if it knows its symbols and is
/// estimated to do as well as a fresh one with its description.
pub open spec fn reused_code(
    src: Seq<u8>,
    capacity: nat,
    previous: Option<Code>,
    fresh: Code,
    header: Option<Seq<u8>>,
    mode: StreamMode,
) -> Option<Compressed> {
    let st = tally::stats_of(src);
    let n = st.max + 1;
    match previous {
        None => None,
        Some(code) => {
            let old_size = coded_size(code, st.counts, n);
            let better = match header {
                None => true,
                Some(h) => old_size <= h.len() + coded_size(fresh, st.counts, n) || h.len() + 12
                    >= src.len(),
            };
            let out = streams_of(code, src, capacity, mode);
            if covers_counted(code, st.counts, n) && better && out.len() > 0 && out.len() + 1
                < src.len() {
                Some(Compressed { bytes: out, reused: true, code })
            } else {
                None
            }
        },
    }
}

/// What a fresh code makes of the input, its description first.
pub open spec fn fresh_output(
    src: Seq<u8>,
    capacity: nat,
    fresh: Code,
    header: Option<Seq<u8>>,
    mode: StreamMode,
) -> Option<Compressed> {
    match header {
        None => None,
        Some(h) => {
            let out = streams_of(fresh, src, (capacity - h.len()) as nat, mode);
            if h.len() + 12 >= src.len() || out.len() == 0 || h.len() + out.len() + 1
                >= src.len() {
                None
            } else {
                Some(Compressed { bytes: h + out, reused: false, code: fresh })
            }
        },
    }
}

/// What an input compresses to; `None` where nothing is gained.
pub open spec fn compressed(
    src: Seq<u8>,
    capacity: nat,
    previous: Option<Code>,
    mode: StreamMode,
    depth: TableDepth,
    compressibility: Compressibility,
) -> Result<Option<Compressed>> {
    let fresh = fresh_code(src, depth);
    if src.len() == 0 || capacity == 0 {
        Ok(None)
    } else if src.len() > BLOCKSIZE_MAX {
        Err(Error::SrcSizeWrong)
    } else if compressibility == Compressibility::Suspect && sample_is_flat(src) {
        Ok(None)
    } else if not_worth_coding(src) {
        Ok(None)
    } else {
        let description = huff_describe::description(fresh, capacity);
        if description is Err && description->Err_0 != Error::Generic {
            Err(description->Err_0)
        } else {
            let header = if description is Ok {
                Some(description->Ok_0)
            } else {
                None
            };
            let reused = reused_code(src, capacity, previous, fresh, header, mode);
            if reused is Some {
                Ok(reused)
            } else {
                Ok(fresh_output(src, capacity, fresh, header, mode))
            }
        }
    }
}

/// The compressed input decodes to the input: with the earlier code, or with
/// the code that it describes.
pub open spec fn decodes_to(c: Compressed, src: Seq<u8>, mode: StreamMode) -> bool {
    if c.reused {
        symbols_in(c.code, c.bytes, src.len(), mode) == Ok::<Seq<u8>, Error>(src)
    } else {
        huff_header::code_description(c.bytes) matches Ok((code, size)) && code == c.code && size
            < c.bytes.len() && symbols_in(code, c.bytes.skip(size as int), src.len(), mode) == Ok::<
            Seq<u8>,
            Error,
        >(src)
    }
}

/// A compressed input, whether it was written with the earlier table, and the
/// table.
pub struct PreferredTableCompression {
    pub bytes: Vec<u8>,
    pub reused_table: bool,
    pub table: CTableX1,
}

impl View for PreferredTableCompression {
    type V = Compressed;

    open spec fn view(&self) -> Compressed {
        Compressed { bytes: self.bytes@, reused: self.reused_table, code: self.table@ }
    }
}

/// The code of a table that may be there.
pub open spec fn code_of(table: Option<&CTableX1>) -> Option<Code> {
    match table {
        None => None,
        Some(t) => Some(t@),
    }
}

proof fn lemma_covers(code: Code, src: Seq<u8>)
    requires
        0 < src.len() <= u32::MAX,
        covers_counted(
            code,
            tally::stats_of(src).counts,
            tally::stats_of(src).max + 1,
        ),
    ensures
        covers(code, src),
{
    let st = tally::stats_of(src);
    tally::lemma_stats(src);
    assert forall|i: int| 0 <= i < src.len() implies code.holds(#[trigger] src[i]) by {
        tally::lemma_largest_code_bounds(src, i);
        hist::lemma_frequency_positive(src, i);
        assert(st.counts[src[i] as int] == hist::frequency(src, src[i]));
    }
}

/// A fresh code is complete, knows the symbols, and can be described.
proof fn lemma_fresh_code(src: Seq<u8>, depth: TableDepth)
    requires
        2 <= src.len() < 0x40000000,
        tally::stats_of(src).most < src.len(),
    ensures
        ({
            let st = tally::stats_of(src);
            let n = st.max + 1;
            &&& huff_build::buildable(st.counts, n, chosen_log(src, depth))
            &&& fresh_code(src, depth).wf()
            &&& fresh_code(src, depth).weights.len() == n
            &&& covers_counted(fresh_code(src, depth), st.counts, n)
            &&& covers(fresh_code(src, depth), src)
            &&& huff_describe::describable(fresh_code(src, depth))
        }),
{
    let st = tally::stats_of(src);
    let n = st.max + 1;
    let cards = normalize::symbols_counted(st.counts, n);
    lemma_counts_buildable(src, TABLELOG_DEFAULT as nat);
    lemma2_to64();
    mem::lemma_floor_log2(cards);
    let least = least_log(st.counts, n);
    mem::lemma_pow2_monotone(mem::floor_log2(cards) + 1, least);
    let last = estimated_log(TABLELOG_DEFAULT as nat, src.len(), st.max);
    lemma_searched_from(st.counts, n, least, last, (usize::MAX - 1) as nat, last);
    let log = chosen_log(src, depth);
    assert(5 <= log <= 11);
    huff_build::law_huffman_code(st.counts, n, log);
    huff_build::lemma_code_describable(st.counts, n, log);
    let code = fresh_code(src, depth);
    assert forall|s: int| 0 <= s < n && #[trigger] st.counts[s] > 0 implies code.holds(
        s as u8,
    ) by {}
    lemma_covers(code, src);
}

/// The streams behind a description decode to the input.
proof fn lemma_fresh_decodes(
    src: Seq<u8>,
    capacity: nat,
    fresh: Code,
    header: Seq<u8>,
    mode: StreamMode,
)
    requires
        fresh.wf(),
        covers(fresh, src),
        huff_describe::describes(header, fresh),
        fresh_output(src, capacity, fresh, Some(header), mode) is Some,
    ensures
        decodes_to(fresh_output(src, capacity, fresh, Some(header), mode)->Some_0, src, mode),
{
    let out = streams_of(fresh, src, (capacity - header.len()) as nat, mode);
    law_streams_roundtrip(fresh, src, (capacity - header.len()) as nat, mode);
    assert((header + out).skip(header.len() as int) =~= out);
    assert(huff_header::code_description(header + out) == Ok::<(Code, nat), Error>(
        (fresh, header.len()),
    ));
}

/// The table of the code for an input.
fn fresh_table(src: &[u8], h: &Histogram, depth: TableDepth) -> (r: CTableX1)
    requires
        h.is_of(src@),
        2 <= src@.len() < 0x40000000,
        tally::stats_of(src@).most < src@.len(),
    ensures
        r.wf(),
        r@ == fresh_code(src@, depth),
        r@.weights.len() == h.max_symbol + 1,
        covers(r@, src@),
        huff_describe::describable(r@),
{
    let len: usize = src.len();
    proof {
        tally::lemma_histogram(*h, src@);
        lemma_counts_buildable(src@, TABLELOG_DEFAULT as nat);
        lemma_fresh_code(src@, depth);
    }
    let log: u32 = match depth {
        TableDepth::Estimated => optimal_table_log(TABLELOG_DEFAULT as u32, len, h.max_symbol),
        TableDepth::Searched => optimal_table_log_search(
            TABLELOG_DEFAULT as u32,
            h.counts.as_slice(),
            h.max_symbol,
            len,
        ),
    };
    match build_ctable(h.counts.as_slice(), h.max_symbol, log) {
        Ok(table) => table,
        Err(_) => {
            proof {
                assert(false);
            }
            CTableX1 { table_log: 0, entries: Vec::new(), weights: Ghost(Seq::empty()) }
        },
    }
}

/// What the previous table makes of the input, where it is estimated to do as
/// well as the fresh one.
fn write_with_previous(
    capacity: usize,
    src: &[u8],
    h: &Histogram,
    old_table: &CTableX1,
    table: &CTableX1,
    header: &Option<Vec<u8>>,
    mode: StreamMode,
) -> (r: Option<Vec<u8>>)
    requires
        h.is_of(src@),
        0 < src@.len() < 0x40000000,
        old_table.wf(),
        table.wf(),
        header matches Some(bytes) ==> bytes@.len() <= 128,
    ensures
        match reused_code(
            src@,
            capacity as nat,
            Some(old_table@),
            table@,
            header_view(*header),
            mode,
        ) {
            None => r is None,
            Some(c) => r matches Some(v) && v@ == c.bytes && c.reused && c.code == old_table@
                && decodes_to(c, src@, mode),
        },
{
    let len: usize = src.len();
    let n: usize = h.max_symbol as usize + 1;
    proof {
        tally::lemma_histogram(*h, src@);
        tally::lemma_stats(src@);
    }
    if !table_covers_counted_symbols(old_table, h.counts.as_slice(), n) {
        return None;
    }
    proof {
        lemma_coded_bits(old_table@, h.counts@, n as nat);
        lemma_coded_bits(table@, h.counts@, n as nat);
    }
    let old_size: usize = estimate_compressed_size(old_table, h.counts.as_slice(), n);
    let new_size: usize = estimate_compressed_size(table, h.counts.as_slice(), n);
    let better: bool = match header {
        Some(bytes) => old_size <= bytes.len() + new_size || bytes.len() + 12 >= len,
        None => true,
    };
    if !better {
        return None;
    }
    let out: Vec<u8> = compress_using_ctable_mode(capacity, src, old_table, mode);
    if out.len() == 0 || out.len() >= len - 1 {
        return None;
    }
    proof {
        lemma_covers(old_table@, src@);
        law_streams_roundtrip(old_table@, src@, capacity as nat, mode);
    }
    Some(out)
}

/// The bytes of a header that may be there.
pub open spec fn header_view(header: Option<Vec<u8>>) -> Option<Seq<u8>> {
    match header {
        None => None,
        Some(bytes) => Some(bytes@),
    }
}

/// What the fresh table makes of the input, behind its description.
fn write_with_fresh(
    capacity: usize,
    src: &[u8],
    table: &CTableX1,
    header: Vec<u8>,
    mode: StreamMode,
) -> (r: Option<Vec<u8>>)
    requires
        table.wf(),
        src@.len() > 0,
        header@.len() <= capacity,
        header@.len() <= 128,
    ensures
        match fresh_output(src@, capacity as nat, table@, Some(header@), mode) {
            None => r is None,
            Some(c) => r matches Some(v) && v@ == c.bytes && !c.reused && c.code == table@ && (covers(
                table@,
                src@,
            ) && huff_describe::describes(header@, table@) ==> decodes_to(c, src@, mode)),
        },
{
    let len: usize = src.len();
    if len <= 12 || header.len() >= len - 12 {
        return None;
    }
    let out: Vec<u8> = compress_using_ctable_mode(capacity - header.len(), src, table, mode);
    if out.len() == 0 || out.len() >= len || header.len() >= len - out.len() - 1 {
        return None;
    }
    proof {
        if covers(table@, src@) && huff_describe::describes(header@, table@) {
            lemma_fresh_decodes(src@, capacity as nat, table@, header@, mode);
        }
    }
    let mut all: Vec<u8> = header;
    all.extend_from_slice(out.as_slice());
    Some(all)
}

/// Compresses an input into at most `capacity` bytes: with the previous table
/// where that is estimated to do as well, else with a fresh one whose
/// description comes first. `None` where nothing is gained. What is written
/// decodes to the input.
pub fn compress_prefer_existing_table_into_mode(
    capacity: usize,
    src: &[u8],
    previous: Option<&CTableX1>,
    mode: StreamMode,
    depth: TableDepth,
    compressibility: Compressibility,
) -> (r: Result<Option<PreferredTableCompression>>)
    requires
        previous matches Some(t) ==> t.wf(),
    ensures
        match compressed(src@, capacity as nat, code_of(previous), mode, depth, compressibility) {
            Err(e) => r == Err::<Option<PreferredTableCompression>, Error>(e),
            Ok(None) => r is Ok && r->Ok_0 is None,
            Ok(Some(c)) => r matches Ok(Some(p)) && p@ == c && p.table.wf() && decodes_to(
                c,
                src@,
                mode,
            ),
        },
{
    let len: usize = src.len();
    if len == 0 || capacity == 0 {
        return Ok(None);
    }
    if len > BLOCKSIZE_MAX {
        return Err(Error::SrcSizeWrong);
    }
    if compressibility == Compressibility::Suspect && looks_incompressible_from_sample(src) {
        return Ok(None);
    }
    let h: Histogram = hist::count_fast(src);
    proof {
        tally::lemma_histogram(h, src@);
        tally::lemma_stats(src@);
    }
    if h.largest as usize == len || h.largest as usize <= len / 128 + 4 {
        return Ok(None);
    }
    let table: CTableX1 = fresh_table(src, &h, depth);
    let header: Option<Vec<u8>> = match write_ctable(capacity, &table, h.max_symbol) {
        Ok(bytes) => Some(bytes),
        Err(e) => match e {
            Error::Generic => None,
            other => {
                return Err(other);
            },
        },
    };
    proof {
        huff_describe::lemma_description_fits(table@, capacity as nat);
    }
    if let Some(old_table) = previous {
        if let Some(bytes) = write_with_previous(
            capacity,
            src,
            &h,
            old_table,
            &table,
            &header,
            mode,
        ) {
            return Ok(
                Some(
                    PreferredTableCompression {
                        bytes,
                        reused_table: true,
                        table: old_table.duplicate(),
                    },
                ),
            );
        }
    }
    match header {
        None => Ok(None),
        Some(bytes) => match write_with_fresh(capacity, src, &table, bytes, mode) {
            None => Ok(None),
            Some(all) => Ok(
                Some(PreferredTableCompression { bytes: all, reused_table: false, table }),
            ),
        },
    }
}

/// Compresses an input as four streams, at the estimated depth.
pub fn compress_prefer_existing_table_into(
    capacity: usize,
    src: &[u8],
    previous: Option<&CTableX1>,
) -> (r: Result<Option<PreferredTableCompression>>)
    requires
        previous matches Some(t) ==> t.wf(),
    ensures
        match compressed(
            src@,
            capacity as nat,
            code_of(previous),
            StreamMode::Four,
            TableDepth::Estimated,
            Compressibility::Unknown,
        ) {
            Err(e) => r == Err::<Option<PreferredTableCompression>, Error>(e),
            Ok(None) => r is Ok && r->Ok_0 is None,
            Ok(Some(c)) => r matches Ok(Some(p)) && p@ == c && p.table.wf() && decodes_to(
                c,
                src@,
                StreamMode::Four,
            ),
        },
{
    compress_prefer_existing_table_into_mode(
        capacity,
        src,
        previous,
        StreamMode::Four,
        TableDepth::Estimated,
        Compressibility::Unknown,
    )
}

/// What an input compresses to without an earlier code, as four streams.
pub open spec fn compressed_alone(src: Seq<u8>, capacity: nat) -> Result<Option<Compressed>> {
    compressed(
        src,
        capacity,
        None,
        StreamMode::Four,
        TableDepth::Estimated,
        Compressibility::Unknown,
    )
}

/// A compressed input decompresses to the input.
proof fn lemma_decompresses(src: Seq<u8>, c: Compressed)
    requires
        !c.reused,
        c.code.wf(),
        c.bytes.len() + 1 < src.len(),
        decodes_to(c, src, StreamMode::Four),
    ensures
        huff_decode::decompressed(c.bytes, src.len()) == Ok::<Seq<u8>, Error>(src),
{
    let (code, size) = huff_header::code_description(c.bytes)->Ok_0;
    assert(size >= 1);
    huff_decode::law_shapes_decode_alike(
        huff_decode::double_is_faster(src.len(), c.bytes.len()),
        code,
        c.bytes.skip(size as int),
        src.len(),
    );
}

/// An input of a block's size is compressed, or nothing is gained: with room
/// for a description there is no failure.
pub proof fn law_compressing_succeeds(
    src: Seq<u8>,
    capacity: nat,
    previous: Option<Code>,
    mode: StreamMode,
    depth: TableDepth,
    compressibility: Compressibility,
)
    requires
        src.len() <= BLOCKSIZE_MAX,
        capacity >= 65,
    ensures
        compressed(src, capacity, previous, mode, depth, compressibility) is Ok,
{
    if src.len() > 0 && !not_worth_coding(src) {
        tally::lemma_stats(src);
        lemma_fresh_code(src, depth);
        lemma_counts_buildable(src, TABLELOG_DEFAULT as nat);
        huff_describe::law_description_exists(fresh_code(src, depth), capacity);
    }
}

/// What comes out is at least two bytes shorter than the input.
pub proof fn law_compressed_is_shorter(
    src: Seq<u8>,
    capacity: nat,
    previous: Option<Code>,
    mode: StreamMode,
    depth: TableDepth,
    compressibility: Compressibility,
)
    ensures
        compressed(src, capacity, previous, mode, depth, compressibility) matches Ok(Some(c))
            ==> 0 < c.bytes.len() <= src.len() - 2,
{
}

/// Compresses an input into at most `capacity` bytes; `None` where nothing is
/// gained. What is written decompresses to the input.
pub fn compress_into(capacity: usize, src: &[u8]) -> (r: Result<Option<Vec<u8>>>)
    ensures
        match compressed_alone(src@, capacity as nat) {
            Err(e) => r == Err::<Option<Vec<u8>>, Error>(e),
            Ok(None) => r is Ok && r->Ok_0 is None,
            Ok(Some(c)) => r matches Ok(Some(v)) && v@ == c.bytes && huff_decode::decompressed(
                v@,
                src@.len(),
            ) == Ok::<Seq<u8>, Error>(src@),
        },
{
    match compress_prefer_existing_table_into(capacity, src, None)? {
        None => Ok(None),
        Some(p) => {
            proof {
                lemma_decompresses(src@, p@);
            }
            Ok(Some(p.bytes))
        },
    }
}

/// The room that an input of this size can need.
pub fn compress_bound(size: usize) -> (r: usize)
    requires
        137 + size + size / 256 <= usize::MAX,
    ensures
        r == 137 + size + size / 256,
{
    129 + size + size / 256 + 8
}

/// Compresses an input; `None` where nothing is gained. What is written
/// decompresses to the input.
pub fn compress(src: &[u8]) -> (r: Result<Option<Vec<u8>>>)
    ensures
        r is Ok <==> src@.len() <= BLOCKSIZE_MAX,
        match compressed_alone(src@, 137 + src@.len() + src@.len() / 256) {
            Err(e) => r == Err::<Option<Vec<u8>>, Error>(e),
            Ok(None) => r is Ok && r->Ok_0 is None,
            Ok(Some(c)) => r matches Ok(Some(v)) && v@ == c.bytes && huff_decode::decompressed(
                v@,
                src@.len(),
            ) == Ok::<Seq<u8>, Error>(src@),
        },
{
    if src.len() > BLOCKSIZE_MAX {
        return Err(Error::SrcSizeWrong);
    }
    proof {
        law_compressing_succeeds(
            src@,
            137 + src@.len() + src@.len() / 256,
            None,
            StreamMode::Four,
            TableDepth::Estimated,
            Compressibility::Unknown,
        );
    }
    compress_into(compress_bound(src.len()), src)
}

/// What an input compresses to, as four streams behind a description, over
/// symbols up to `max_symbol` and with codes of at most about `max_log` bits;
/// zero stands for the usual limit.
pub open spec fn compressed_within(
    src: Seq<u8>,
    capacity: nat,
    max_symbol: nat,
    max_log: nat,
) -> Result<Option<Seq<u8>>> {
    let st = tally::stats_of(src);
    let highest = if max_symbol == 0 {
        255
    } else {
        max_symbol
    };
    let code = huff_build::huffman_code(
        st.counts,
        st.max + 1,
        estimated_log(huff_build::limit_of(max_log), src.len(), st.max),
    );
    if src.len() == 0 || capacity == 0 {
        Ok(None)
    } else if src.len() > BLOCKSIZE_MAX {
        Err(Error::SrcSizeWrong)
    } else if max_log > TABLELOG_MAX {
        Err(Error::TableLogTooLarge)
    } else if max_symbol > 255 {
        Err(Error::MaxSymbolValueTooLarge)
    } else if exists|i: int| 0 <= i < src.len() && #[trigger] src[i] > highest {
        Err(Error::MaxSymbolValueTooSmall)
    } else if not_worth_coding(src) {
        Ok(None)
    } else {
        match huff_describe::description(code, capacity) {
            Err(e) => if e == Error::Generic {
                Ok(None)
            } else {
                Err(e)
            },
            Ok(header) => match fresh_output(src, capacity, code, Some(header), StreamMode::Four) {
                None => Ok(None),
                Some(c) => Ok(Some(c.bytes)),
            },
        }
    }
}

/// Compresses an input as four streams behind a description, over symbols up to
/// `max_symbol_value` and with codes of at most about `huff_log` bits.
pub fn compress_internal(capacity: usize, src: &[u8], max_symbol_value: u32, huff_log: u32) -> (r:
    Result<Option<Vec<u8>>>)
    ensures
        match compressed_within(
            src@,
            capacity as nat,
            max_symbol_value as nat,
            huff_log as nat,
        ) {
            Err(e) => r == Err::<Option<Vec<u8>>, Error>(e),
            Ok(None) => r is Ok && r->Ok_0 is None,
            Ok(Some(bytes)) => r matches Ok(Some(v)) && v@ == bytes,
        },
{
    let len: usize = src.len();
    if len == 0 || capacity == 0 {
        return Ok(None);
    }
    if len > BLOCKSIZE_MAX {
        return Err(Error::SrcSizeWrong);
    }
    if huff_log as usize > TABLELOG_MAX {
        return Err(Error::TableLogTooLarge);
    }
    if max_symbol_value > 255 {
        return Err(Error::MaxSymbolValueTooLarge);
    }
    let highest: u32 = if max_symbol_value == 0 {
        255
    } else {
        max_symbol_value
    };
    let max_log: u32 = if huff_log == 0 {
        TABLELOG_DEFAULT as u32
    } else {
        huff_log
    };
    let h: Histogram = hist::count_checked(highest, src)?;
    proof {
        tally::lemma_histogram(h, src@);
        tally::lemma_stats(src@);
        assert forall|i: int| 0 <= i < src@.len() implies #[trigger] src@[i] <= highest by {
            tally::lemma_largest_code_bounds(src@, i);
        }
    }
    if h.largest as usize == len || h.largest as usize <= len / 128 + 4 {
        return Ok(None);
    }
    proof {
        lemma_counts_buildable(src@, max_log as nat);
        let st = tally::stats_of(src@);
        huff_build::law_huffman_code(
            st.counts,
            st.max + 1,
            estimated_log(max_log as nat, len as nat, st.max),
        );
    }
    let log: u32 = optimal_table_log(max_log, len, h.max_symbol);
    let table: CTableX1 = build_ctable(h.counts.as_slice(), h.max_symbol, log)?;
    proof {
        huff_describe::lemma_description_fits(table@, capacity as nat);
    }
    match write_ctable(capacity, &table, h.max_symbol) {
        Ok(bytes) => Ok(write_with_fresh(capacity, src, &table, bytes, StreamMode::Four)),
        Err(e) => match e {
            Error::Generic => Ok(None),
            other => Err(other),
        },
    }
}

// ---------------------------------------------------------------------------
// Estimates.

/// How many bytes the literals are estimated to take with a code of their own;
/// `None` where they are better left alone.
pub open spec fn fresh_estimate(src: Seq<u8>) -> Option<nat> {
    let st = tally::stats_of(src);
    let fresh = fresh_code(src, TableDepth::Estimated);
    if src.len() == 0 {
        Some(0)
    } else if st.most == src.len() {
        Some(1)
    } else if st.most <= src.len() / 128 + 4 {
        None
    } else {
        match huff_describe::description(fresh, 256) {
            Err(_) => None,
            Ok(header) => Some(
                header.len() + coded_size(fresh, st.counts, st.max + 1) + if src.len() >= 256 {
                    6nat
                } else {
                    0
                },
            ),
        }
    }
}

/// How many bytes the literals are estimated to take, with the earlier code
/// where that is estimated to do as well; `None` where they are better left
/// alone.
pub open spec fn section_estimate(src: Seq<u8>, previous: Option<Code>) -> Option<nat> {
    let st = tally::stats_of(src);
    let n = st.max + 1;
    let fresh = fresh_code(src, TableDepth::Estimated);
    let jump: nat = if src.len() >= 256 {
        6
    } else {
        0
    };
    if src.len() == 0 {
        Some(0)
    } else if st.most == src.len() {
        Some(1)
    } else if st.most <= src.len() / 128 + 4 {
        None
    } else {
        match huff_describe::description(fresh, 256) {
            Err(_) => None,
            Ok(header) => {
                let size = header.len() + coded_size(fresh, st.counts, n);
                match previous {
                    Some(code) => {
                        let old_size = coded_size(code, st.counts, n);
                        if covers_counted(code, st.counts, n) && old_size < src.len() && (old_size
                            <= size || header.len() + 12 >= src.len()) {
                            Some(old_size + jump)
                        } else {
                            Some(size + jump)
                        }
                    },
                    None => Some(size + jump),
                }
            },
        }
    }
}

/// The symbols can be counted, and where a code is to be built for them, the
/// counts are not too large for that.
pub open spec fn estimable(src: Seq<u8>) -> bool {
    &&& src.len() <= u32::MAX
    &&& src.len() < 0x40000000 || not_worth_coding(src)
}

/// Without an earlier code, or with one that does not know all symbols, the
/// estimate is that of a code of their own.
pub proof fn law_estimate_without_repeat(src: Seq<u8>, previous: Option<Code>)
    requires
        previous matches Some(code) ==> !covers_counted(
            code,
            tally::stats_of(src).counts,
            tally::stats_of(src).max + 1,
        ),
    ensures
        section_estimate(src, previous) == fresh_estimate(src),
{
}

/// How many bytes the literals are estimated to take, an earlier table being
/// taken into account.
pub fn estimate_literal_section_bytes_with_repeat(src: &[u8], previous: Option<&CTableX1>) -> (r:
    Option<usize>)
    requires
        estimable(src@),
        previous matches Some(t) ==> t.wf(),
    ensures
        match section_estimate(src@, code_of(previous)) {
            None => r is None,
            Some(size) => r matches Some(v) && v == size && v <= 0x70000000,
        },
{
    let len: usize = src.len();
    if len == 0 {
        return Some(0);
    }
    let h: Histogram = hist::count_fast(src);
    proof {
        tally::lemma_histogram(h, src@);
        tally::lemma_stats(src@);
    }
    if h.largest as usize == len {
        return Some(1);
    }
    if h.largest as usize <= len / 128 + 4 {
        return None;
    }
    let table: CTableX1 = fresh_table(src, &h, TableDepth::Estimated);
    proof {
        huff_describe::lemma_description_fits(table@, 256);
    }
    let n: usize = h.max_symbol as usize + 1;
    let header: usize = match write_ctable(256, &table, h.max_symbol) {
        Ok(bytes) => bytes.len(),
        Err(_) => {
            return None;
        },
    };
    proof {
        lemma_coded_bits(table@, h.counts@, n as nat);
    }
    let size: usize = header + estimate_compressed_size(&table, h.counts.as_slice(), n);
    let jump: usize = if len >= 256 {
        6
    } else {
        0
    };
    if let Some(old_table) = previous {
        if table_covers_counted_symbols(old_table, h.counts.as_slice(), n) {
            proof {
                lemma_coded_bits(old_table@, h.counts@, n as nat);
            }
            let old_size: usize = estimate_compressed_size(old_table, h.counts.as_slice(), n);
            if old_size < len && (old_size <= size || header + 12 >= len) {
                return Some(old_size + jump);
            }
        }
    }
    Some(size + jump)
}

/// How many bytes the literals are estimated to take.
pub fn estimate_literal_section_bytes(src: &[u8]) -> (r: Option<usize>)
    requires
        estimable(src@),
    ensures
        match fresh_estimate(src@) {
            None => r is None,
            Some(size) => r matches Some(v) && v == size,
        },
{
    proof {
        law_estimate_without_repeat(src@, None);
    }
    estimate_literal_section_bytes_with_repeat(src, None)
}

} // verus!
