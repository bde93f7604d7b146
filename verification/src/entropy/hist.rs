//! Histograms of bytes.

use crate::entropy::normalize;
use crate::entropy::spread;
use crate::error::{Error, Result};
use vstd::prelude::*;

verus! {

/// Inputs from this size on are counted in lanes.
pub const LANES_MIN_SIZE: usize = 1500;

/// How often each byte occurs, the largest byte that occurs, and how often the
/// most frequent one does.
pub struct Histogram {
    pub counts: Vec<u32>,
    pub max_symbol: u32,
    pub largest: u32,
}

/// How often a byte occurs in all.
pub open spec fn frequency(src: Seq<u8>, s: u8) -> nat {
    spread::occurrences(src, s, src.len())
}

/// The counts are those of the bytes.
pub open spec fn counts_of(counts: Seq<u32>, src: Seq<u8>) -> bool {
    &&& counts.len() == 256
    &&& forall|s: int| 0 <= s < 256 ==> #[trigger] counts[s] == frequency(src, s as u8)
}

impl Histogram {
    /// The histogram of the bytes.
    pub open spec fn is_of(self, src: Seq<u8>) -> bool {
        &&& counts_of(self.counts@, src)
        &&& self.max_symbol <= 255
        &&& src.len() == 0 ==> self.max_symbol == 0 && self.largest == 0
        &&& src.len() > 0 ==> self.counts@[self.max_symbol as int] > 0
        &&& forall|s: int| self.max_symbol < s < 256 ==> #[trigger] self.counts@[s] == 0
        &&& forall|s: int| 0 <= s < 256 ==> #[trigger] self.counts@[s] <= self.largest
        &&& src.len() > 0 ==> exists|s: int|
            0 <= s < 256 && #[trigger] self.counts@[s] == self.largest
    }
}

/// No byte occurs more often than there are bytes.
pub proof fn lemma_occurrences_bound(src: Seq<u8>, s: u8, k: nat)
    ensures
        spread::occurrences(src, s, k) <= k,
    decreases k,
{
    if k > 0 {
        lemma_occurrences_bound(src, s, (k - 1) as nat);
    }
}

/// A byte that is there occurs.
pub proof fn lemma_frequency_positive(src: Seq<u8>, i: int)
    requires
        0 <= i < src.len(),
    ensures
        frequency(src, src[i]) > 0,
{
    spread::lemma_occurrences_positive(src, i, src.len());
}

/// A byte that occurs is there.
pub proof fn lemma_occurrence(src: Seq<u8>, s: u8, k: nat) -> (i: int)
    requires
        spread::occurrences(src, s, k) > 0,
        k <= src.len(),
    ensures
        0 <= i < k,
        src[i] == s,
    decreases k,
{
    if src[k - 1] == s {
        k - 1
    } else {
        lemma_occurrence(src, s, (k - 1) as nat)
    }
}

/// A byte that occurs as often as there are bytes is every byte.
pub proof fn lemma_full_frequency(src: Seq<u8>, s: u8, k: nat, i: int)
    requires
        k <= src.len(),
        spread::occurrences(src, s, k) == k,
        0 <= i < k,
    ensures
        src[i] == s,
    decreases k,
{
    lemma_occurrences_bound(src, s, (k - 1) as nat);
    if i < k - 1 {
        lemma_full_frequency(src, s, (k - 1) as nat, i);
    }
}

/// A byte that is every byte occurs as often as there are bytes.
pub proof fn lemma_all_equal(src: Seq<u8>, s: u8, k: nat)
    requires
        k <= src.len(),
        forall|i: int| 0 <= i < k ==> #[trigger] src[i] == s,
    ensures
        spread::occurrences(src, s, k) == k,
    decreases k,
{
    if k > 0 {
        lemma_all_equal(src, s, (k - 1) as nat);
    }
}

/// How often the bytes below `n` occur among the first `k` bytes.
spec fn occurrences_below(src: Seq<u8>, k: nat, n: nat) -> nat
    decreases n,
{
    if n == 0 {
        0
    } else {
        occurrences_below(src, k, (n - 1) as nat) + spread::occurrences(src, (n - 1) as u8, k)
    }
}

proof fn lemma_occurrences_below_step(src: Seq<u8>, k: nat, n: nat)
    requires
        0 < k <= src.len(),
        n <= 256,
    ensures
        occurrences_below(src, k, n) == occurrences_below(src, (k - 1) as nat, n) + if src[k - 1]
            < n {
            1nat
        } else {
            0
        },
    decreases n,
{
    if n > 0 {
        lemma_occurrences_below_step(src, k, (n - 1) as nat);
    }
}

proof fn lemma_occurrences_below_none(src: Seq<u8>, n: nat)
    ensures
        occurrences_below(src, 0, n) == 0,
    decreases n,
{
    if n > 0 {
        lemma_occurrences_below_none(src, (n - 1) as nat);
    }
}

proof fn lemma_occurrences_below_all(src: Seq<u8>, k: nat)
    requires
        k <= src.len(),
    ensures
        occurrences_below(src, k, 256) == k,
    decreases k,
{
    if k == 0 {
        lemma_occurrences_below_none(src, 256);
    } else {
        lemma_occurrences_below_all(src, (k - 1) as nat);
        lemma_occurrences_below_step(src, k, 256);
    }
}

proof fn lemma_count_sum_is(counts: Seq<u32>, src: Seq<u8>, n: nat)
    requires
        counts_of(counts, src),
        n <= 256,
    ensures
        normalize::count_sum(counts, n) == occurrences_below(src, src.len(), n),
    decreases n,
{
    if n > 0 {
        lemma_count_sum_is(counts, src, (n - 1) as nat);
    }
}

proof fn lemma_count_sum_tail(counts: Seq<u32>, n: nat, m: nat)
    requires
        n <= m <= counts.len(),
        forall|s: int| n <= s < m ==> #[trigger] counts[s] == 0,
    ensures
        normalize::count_sum(counts, n) == normalize::count_sum(counts, m),
    decreases m,
{
    if n < m {
        lemma_count_sum_tail(counts, n, (m - 1) as nat);
    }
}

/// The counts add up to the number of bytes, and do so up to the largest one.
pub proof fn law_counts_add_up(counts: Seq<u32>, src: Seq<u8>, n: nat)
    requires
        counts_of(counts, src),
        n <= 256,
        forall|s: int| n <= s < 256 ==> #[trigger] counts[s] == 0,
    ensures
        normalize::count_sum(counts, n) == src.len(),
{
    lemma_count_sum_is(counts, src, 256);
    lemma_occurrences_below_all(src, src.len());
    lemma_count_sum_tail(counts, n, 256);
}

/// The histogram of counts: the largest byte and the largest count.
fn finish(counts: Vec<u32>, Ghost(src): Ghost<Seq<u8>>) -> (r: Histogram)
    requires
        counts_of(counts@, src),
    ensures
        r.is_of(src),
{
    let mut max_symbol: u32 = 255;
    while max_symbol > 0 && counts[max_symbol as usize] == 0
        invariant
            max_symbol <= 255,
            counts@.len() == 256,
            forall|s: int| max_symbol < s < 256 ==> #[trigger] counts@[s] == 0,
        decreases max_symbol,
    {
        max_symbol = max_symbol - 1;
    }
    let mut largest: u32 = 0;
    let mut s: usize = 0;
    let ghost mut at: int = 0;
    while s < 256
        invariant
            s <= 256,
            counts@.len() == 256,
            forall|k: int| 0 <= k < s ==> #[trigger] counts@[k] <= largest,
            largest > 0 ==> 0 <= at < 256 && counts@[at] == largest,
        decreases 256 - s,
    {
        if counts[s] > largest {
            largest = counts[s];
            proof {
                at = s as int;
            }
        }
        s = s + 1;
    }
    proof {
        if src.len() > 0 {
            lemma_frequency_positive(src, 0);
            assert(counts@[src[0] as int] > 0);
            assert(counts@[at] == largest);
        } else {
            assert(counts@[max_symbol as int] == frequency(src, max_symbol as u8));
            assert(counts@[at] == frequency(src, at as u8) || largest == 0);
        }
    }
    Histogram { counts, max_symbol, largest }
}

/// A count can tell how often each byte occurs.
pub open spec fn tellable(src: Seq<u8>) -> bool {
    forall|s: u8| #[trigger] frequency(src, s) <= u32::MAX
}

/// Few enough bytes can be counted, whatever they are.
proof fn lemma_short_tellable(src: Seq<u8>)
    ensures
        src.len() <= u32::MAX ==> tellable(src),
{
    if src.len() <= u32::MAX {
        assert forall|s: u8| #[trigger] frequency(src, s) <= u32::MAX by {
            lemma_occurrences_bound(src, s, src.len());
        }
    }
}

/// A byte that is still to be counted has not been counted as often as it
/// occurs.
proof fn lemma_one_more(src: Seq<u8>, i: int, k: int)
    requires
        tellable(src),
        0 <= k <= i < src.len(),
    ensures
        spread::occurrences(src, src[i], k as nat) < u32::MAX,
{
    spread::lemma_occurrences_positive(src, i, src.len());
    assert(frequency(src, src[i]) <= u32::MAX);
    lemma_occurrences_grow(src, src[i], k as nat, i as nat);
}

proof fn lemma_occurrences_grow(src: Seq<u8>, s: u8, k: nat, i: nat)
    requires
        k <= i,
    ensures
        spread::occurrences(src, s, k) <= spread::occurrences(src, s, i),
    decreases i,
{
    if k < i {
        lemma_occurrences_grow(src, s, k, (i - 1) as nat);
    }
}

/// Counts bytes one by one.
pub fn count_simple(src: &[u8]) -> (r: Histogram)
    requires
        src@.len() <= u32::MAX || tellable(src@),
    ensures
        r.is_of(src@),
{
    let mut counts: Vec<u32> = vec![0u32; 256];
    let mut i: usize = 0;
    proof {
        lemma_short_tellable(src@);
    }
    while i < src.len()
        invariant
            i <= src@.len(),
            tellable(src@),
            counts@.len() == 256,
            forall|s: int|
                0 <= s < 256 ==> #[trigger] counts@[s] == spread::occurrences(
                    src@,
                    s as u8,
                    i as nat,
                ),
        decreases src@.len() - i,
    {
        let byte: usize = src[i] as usize;
        proof {
            lemma_one_more(src@, i as int, i as int);
        }
        let one_more: u32 = counts[byte] + 1;
        counts.set(byte, one_more);
        i = i + 1;
    }
    finish(counts, Ghost(src@))
}

/// The sum of four lanes.
spec fn lane_sum(a: Seq<u32>, b: Seq<u32>, c: Seq<u32>, d: Seq<u32>, s: int) -> nat {
    a[s] as nat + b[s] as nat + c[s] as nat + d[s] as nat
}

/// Four bytes counted into four lanes add one for each of them.
proof fn lemma_lanes_step(
    src: Seq<u8>,
    i: int,
    before: (Seq<u32>, Seq<u32>, Seq<u32>, Seq<u32>),
    after: (Seq<u32>, Seq<u32>, Seq<u32>, Seq<u32>),
    s: int,
)
    requires
        0 <= s < 256,
        0 <= i,
        i + 4 <= src.len(),
        before.0.len() == 256,
        before.1.len() == 256,
        before.2.len() == 256,
        before.3.len() == 256,
        lane_sum(before.0, before.1, before.2, before.3, s) == spread::occurrences(
            src,
            s as u8,
            i as nat,
        ),
        before.0[src[i] as int] < u32::MAX,
        before.1[src[i + 1] as int] < u32::MAX,
        before.2[src[i + 2] as int] < u32::MAX,
        before.3[src[i + 3] as int] < u32::MAX,
        after.0 == before.0.update(src[i] as int, (before.0[src[i] as int] + 1) as u32),
        after.1 == before.1.update(src[i + 1] as int, (before.1[src[i + 1] as int] + 1) as u32),
        after.2 == before.2.update(src[i + 2] as int, (before.2[src[i + 2] as int] + 1) as u32),
        after.3 == before.3.update(src[i + 3] as int, (before.3[src[i + 3] as int] + 1) as u32),
    ensures
        lane_sum(after.0, after.1, after.2, after.3, s) == spread::occurrences(
            src,
            s as u8,
            (i + 4) as nat,
        ),
{
    reveal_with_fuel(spread::occurrences, 5);
}

fn bump(lane: &mut Vec<u32>, byte: u8)
    requires
        old(lane)@.len() == 256,
        old(lane)@[byte as int] < u32::MAX,
    ensures
        final(lane)@ == old(lane)@.update(byte as int, (old(lane)@[byte as int] + 1) as u32),
{
    let one_more: u32 = lane[byte as usize] + 1;
    lane.set(byte as usize, one_more);
}

/// Counts bytes in four lanes and adds the lanes up.
pub fn count_parallel(src: &[u8]) -> (r: Histogram)
    requires
        src@.len() <= u32::MAX || tellable(src@),
    ensures
        r.is_of(src@),
{
    proof {
        lemma_short_tellable(src@);
    }
    let mut a: Vec<u32> = vec![0u32; 256];
    let mut b: Vec<u32> = vec![0u32; 256];
    let mut c: Vec<u32> = vec![0u32; 256];
    let mut d: Vec<u32> = vec![0u32; 256];
    let mut i: usize = 0;
    let whole: usize = src.len() - src.len() % 4;
    while i < whole
        invariant
            i <= whole <= src@.len(),
            tellable(src@),
            whole % 4 == 0,
            i % 4 == 0,
            a@.len() == 256,
            b@.len() == 256,
            c@.len() == 256,
            d@.len() == 256,
            forall|s: int|
                0 <= s < 256 ==> #[trigger] lane_sum(a@, b@, c@, d@, s) == spread::occurrences(
                    src@,
                    s as u8,
                    i as nat,
                ),
        decreases whole - i,
    {
        let ghost (a0, b0, c0, d0) = (a@, b@, c@, d@);
        proof {
            lemma_one_more(src@, i as int, i as int);
            lemma_one_more(src@, i + 1, i as int);
            lemma_one_more(src@, i + 2, i as int);
            lemma_one_more(src@, i + 3, i as int);
            assert(lane_sum(a0, b0, c0, d0, src@[i as int] as int) < u32::MAX);
            assert(lane_sum(a0, b0, c0, d0, src@[i + 1] as int) < u32::MAX);
            assert(lane_sum(a0, b0, c0, d0, src@[i + 2] as int) < u32::MAX);
            assert(lane_sum(a0, b0, c0, d0, src@[i + 3] as int) < u32::MAX);
        }
        bump(&mut a, src[i]);
        bump(&mut b, src[i + 1]);
        bump(&mut c, src[i + 2]);
        bump(&mut d, src[i + 3]);
        proof {
            assert forall|s: int| 0 <= s < 256 implies #[trigger] lane_sum(a@, b@, c@, d@, s)
                == spread::occurrences(src@, s as u8, (i + 4) as nat) by {
                assert(lane_sum(a0, b0, c0, d0, s) == spread::occurrences(
                    src@,
                    s as u8,
                    i as nat,
                ));
                lemma_lanes_step(src@, i as int, (a0, b0, c0, d0), (a@, b@, c@, d@), s);
            }
        }
        i = i + 4;
    }
    while i < src.len()
        invariant
            i <= src@.len(),
            tellable(src@),
            a@.len() == 256,
            b@.len() == 256,
            c@.len() == 256,
            d@.len() == 256,
            forall|s: int|
                0 <= s < 256 ==> #[trigger] lane_sum(a@, b@, c@, d@, s) == spread::occurrences(
                    src@,
                    s as u8,
                    i as nat,
                ),
        decreases src@.len() - i,
    {
        let ghost a0 = a@;
        proof {
            lemma_one_more(src@, i as int, i as int);
            assert(lane_sum(a@, b@, c@, d@, src@[i as int] as int) < u32::MAX);
        }
        bump(&mut a, src[i]);
        proof {
            assert forall|s: int| 0 <= s < 256 implies #[trigger] lane_sum(a@, b@, c@, d@, s)
                == spread::occurrences(src@, s as u8, (i + 1) as nat) by {
                assert(lane_sum(a0, b@, c@, d@, s) == spread::occurrences(
                    src@,
                    s as u8,
                    i as nat,
                ));
            }
        }
        i = i + 1;
    }
    let mut counts: Vec<u32> = Vec::new();
    while counts.len() < 256
        invariant
            counts@.len() <= 256,
            tellable(src@),
            a@.len() == 256,
            b@.len() == 256,
            c@.len() == 256,
            d@.len() == 256,
            forall|s: int|
                0 <= s < 256 ==> #[trigger] lane_sum(a@, b@, c@, d@, s) == frequency(
                    src@,
                    s as u8,
                ),
            forall|s: int|
                0 <= s < counts@.len() ==> #[trigger] counts@[s] == frequency(src@, s as u8),
        decreases 256 - counts@.len(),
    {
        let s: usize = counts.len();
        proof {
            assert(lane_sum(a@, b@, c@, d@, s as int) == frequency(src@, s as u8));
            assert(frequency(src@, s as u8) <= u32::MAX);
        }
        counts.push(a[s] + b[s] + c[s] + d[s]);
    }
    finish(counts, Ghost(src@))
}

/// Counts bytes, in lanes where there are many of them.
pub fn count_fast(src: &[u8]) -> (r: Histogram)
    requires
        src@.len() <= u32::MAX || tellable(src@),
    ensures
        r.is_of(src@),
{
    if src.len() < LANES_MIN_SIZE {
        count_simple(src)
    } else {
        count_parallel(src)
    }
}

/// Counts bytes none of which may exceed `max_symbol_value`.
pub fn count_checked(max_symbol_value: u32, src: &[u8]) -> (r: Result<Histogram>)
    requires
        src@.len() <= u32::MAX || tellable(src@),
    ensures
        (exists|i: int| 0 <= i < src@.len() && #[trigger] src@[i] > max_symbol_value) ==> r == Err::<
            Histogram,
            Error,
        >(Error::MaxSymbolValueTooSmall),
        (forall|i: int| 0 <= i < src@.len() ==> #[trigger] src@[i] <= max_symbol_value) ==> r is Ok,
        r matches Ok(h) ==> h.is_of(src@) && h.max_symbol <= max_symbol_value,
{
    let h = count_fast(src);
    proof {
        assert forall|i: int| 0 <= i < src@.len() implies #[trigger] src@[i] <= h.max_symbol by {
            lemma_frequency_positive(src@, i);
            assert(h.counts@[src@[i] as int] > 0);
        }
        if src@.len() > 0 {
            assert(h.counts@[h.max_symbol as int] == frequency(src@, h.max_symbol as u8));
            let i = lemma_occurrence(src@, h.max_symbol as u8, src@.len());
            assert(src@[i] == h.max_symbol);
        }
    }
    if h.max_symbol > max_symbol_value {
        return Err(Error::MaxSymbolValueTooSmall);
    }
    Ok(h)
}

} // verus!
