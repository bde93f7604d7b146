//! What the counts of some codes say.

use crate::entropy::hist;
use crate::entropy::hist::Histogram;
use crate::entropy::normalize;
use vstd::prelude::*;

verus! {

/// What the statistics of codes say.
pub struct Stats {
    pub counts: Seq<u32>,
    pub max: nat,
    pub most: nat,
    pub total: nat,
}

/// The largest of the codes.
pub open spec fn largest_code(codes: Seq<u8>) -> nat
    decreases codes.len(),
{
    if codes.len() == 0 {
        0
    } else {
        let rest = largest_code(codes.drop_last());
        if codes.last() as nat > rest {
            codes.last() as nat
        } else {
            rest
        }
    }
}

/// The largest of the first `n` counts.
pub open spec fn largest_count(counts: Seq<u32>, n: nat) -> nat
    decreases n,
{
    if n == 0 {
        0
    } else {
        let rest = largest_count(counts, (n - 1) as nat);
        if counts[n - 1] as nat > rest {
            counts[n - 1] as nat
        } else {
            rest
        }
    }
}

/// How often each code occurs.
pub open spec fn code_counts(codes: Seq<u8>) -> Seq<u32> {
    Seq::new(256, |s: int| hist::frequency(codes, s as u8) as u32)
}

/// The statistics of codes.
pub open spec fn stats_of(codes: Seq<u8>) -> Stats {
    Stats {
        counts: code_counts(codes),
        max: largest_code(codes),
        most: largest_count(code_counts(codes), 256),
        total: codes.len(),
    }
}

proof fn lemma_largest_code(codes: Seq<u8>, m: nat)
    requires
        forall|i: int| 0 <= i < codes.len() ==> #[trigger] codes[i] <= m,
        codes.len() == 0 ==> m == 0,
        codes.len() > 0 ==> exists|i: int| 0 <= i < codes.len() && #[trigger] codes[i] == m,
    ensures
        largest_code(codes) == m,
    decreases codes.len(),
{
    if codes.len() > 0 {
        let rest = codes.drop_last();
        lemma_codes_bounded(rest, m);
        if codes.last() != m {
            let i = choose|i: int| 0 <= i < codes.len() && #[trigger] codes[i] == m;
            assert(rest[i] == m);
            assert forall|k: int| 0 <= k < rest.len() implies #[trigger] rest[k] <= m by {
                assert(codes[k] <= m);
            }
            lemma_largest_code(rest, m);
        } else {
            assert forall|k: int| 0 <= k < rest.len() implies #[trigger] rest[k] <= m by {
                assert(codes[k] <= m);
            }
            lemma_codes_bounded(rest, m);
        }
    }
}

/// What bounds every code bounds the largest.
pub proof fn lemma_codes_bounded(codes: Seq<u8>, m: nat)
    ensures
        (forall|i: int| 0 <= i < codes.len() ==> #[trigger] codes[i] <= m) ==> largest_code(codes)
            <= m,
    decreases codes.len(),
{
    if codes.len() > 0 {
        lemma_codes_bounded(codes.drop_last(), m);
        if forall|i: int| 0 <= i < codes.len() ==> #[trigger] codes[i] <= m {
            assert forall|k: int| 0 <= k < codes.drop_last().len() implies #[trigger] codes.drop_last()[k]
                <= m by {
                assert(codes[k] <= m);
            }
            assert(codes[codes.len() - 1] <= m);
        }
    }
}

/// No code exceeds the largest.
pub proof fn lemma_largest_code_bounds(codes: Seq<u8>, i: int)
    requires
        0 <= i < codes.len(),
    ensures
        codes[i] <= largest_code(codes) <= 255,
    decreases codes.len(),
{
    if i < codes.len() - 1 {
        lemma_largest_code_bounds(codes.drop_last(), i);
    } else if codes.len() > 1 {
        lemma_largest_code_bounds(codes.drop_last(), 0);
    } else {
        assert(largest_code(codes.drop_last()) == 0);
    }
}

proof fn lemma_largest_count(counts: Seq<u32>, n: nat, m: nat)
    requires
        forall|s: int| 0 <= s < n ==> #[trigger] counts[s] <= m,
        m > 0 ==> exists|s: int| 0 <= s < n && #[trigger] counts[s] == m,
    ensures
        largest_count(counts, n) == m,
    decreases n,
{
    if n > 0 {
        lemma_counts_bounded(counts, (n - 1) as nat, m);
        if m > 0 && counts[n - 1] != m {
            let s = choose|s: int| 0 <= s < n && #[trigger] counts[s] == m;
            assert(0 <= s < n - 1 && counts[s] == m);
            lemma_largest_count(counts, (n - 1) as nat, m);
        }
    }
}

proof fn lemma_counts_bounded(counts: Seq<u32>, n: nat, m: nat)
    requires
        forall|s: int| 0 <= s < n ==> #[trigger] counts[s] <= m,
    ensures
        largest_count(counts, n) <= m,
    decreases n,
{
    if n > 0 {
        lemma_counts_bounded(counts, (n - 1) as nat, m);
    }
}

/// No count exceeds the largest.
pub proof fn lemma_largest_count_bounds(counts: Seq<u32>, n: nat, s: int)
    requires
        0 <= s < n,
    ensures
        counts[s] <= largest_count(counts, n),
    decreases n,
{
    if s < n - 1 {
        lemma_largest_count_bounds(counts, (n - 1) as nat, s);
    }
}

/// The largest count stands somewhere.
pub proof fn lemma_largest_count_at(counts: Seq<u32>, n: nat) -> (s: int)
    requires
        n > 0,
    ensures
        0 <= s < n,
        counts[s] == largest_count(counts, n),
    decreases n,
{
    if n == 1 || counts[n - 1] as nat > largest_count(counts, (n - 1) as nat) {
        assert(largest_count(counts, 0) == 0);
        n - 1
    } else {
        lemma_largest_count_at(counts, (n - 1) as nat)
    }
}

/// What holds of the statistics of any codes.
pub proof fn lemma_stats(codes: Seq<u8>)
    requires
        codes.len() <= u32::MAX,
    ensures
        ({
            let st = stats_of(codes);
            &&& hist::counts_of(st.counts, codes)
            &&& st.max <= 255
            &&& st.most <= st.total
            &&& forall|s: int| st.max < s < 256 ==> #[trigger] st.counts[s] == 0
            &&& forall|s: int| 0 <= s < 256 ==> #[trigger] st.counts[s] <= st.most
            &&& normalize::count_sum(st.counts, st.max + 1) == st.total
            &&& codes.len() > 0 ==> st.counts[st.max as int] > 0 && st.most > 0
        }),
{
    let st = stats_of(codes);
    assert forall|s: int| 0 <= s < 256 implies #[trigger] st.counts[s] == hist::frequency(
        codes,
        s as u8,
    ) && st.counts[s] <= st.most by {
        hist::lemma_occurrences_bound(codes, s as u8, codes.len());
        lemma_largest_count_bounds(st.counts, 256, s);
    }
    if codes.len() > 0 {
        lemma_largest_code_bounds(codes, 0);
        lemma_largest_code_occurs(codes);
    }
    assert forall|s: int| st.max < s < 256 implies #[trigger] st.counts[s] == 0 by {
        if st.counts[s] > 0 {
            let i = hist::lemma_occurrence(codes, s as u8, codes.len());
            lemma_largest_code_bounds(codes, i);
        }
    }
    assert forall|s: int| 0 <= s < 256 implies #[trigger] st.counts[s] <= st.total by {
        hist::lemma_occurrences_bound(codes, s as u8, codes.len());
    }
    lemma_counts_bounded(st.counts, 256, st.total);
    hist::law_counts_add_up(st.counts, codes, st.max + 1);
}

proof fn lemma_largest_code_occurs(codes: Seq<u8>)
    requires
        codes.len() > 0,
    ensures
        hist::frequency(codes, largest_code(codes) as u8) > 0,
        largest_code(codes) <= 255,
{
    let i = lemma_largest_code_at(codes);
    hist::lemma_frequency_positive(codes, i);
}

/// The largest code stands somewhere.
pub proof fn lemma_largest_code_at(codes: Seq<u8>) -> (i: int)
    requires
        codes.len() > 0,
    ensures
        0 <= i < codes.len(),
        codes[i] == largest_code(codes),
    decreases codes.len(),
{
    let rest = codes.drop_last();
    if codes.last() as nat > largest_code(rest) || rest.len() == 0 {
        codes.len() - 1
    } else {
        lemma_largest_code_at(rest)
    }
}

/// A histogram says what the statistics of its bytes say.
pub proof fn lemma_histogram(h: Histogram, src: Seq<u8>)
    requires
        h.is_of(src),
        src.len() <= u32::MAX,
    ensures
        h.counts@ == stats_of(src).counts,
        h.max_symbol == stats_of(src).max,
        h.largest == stats_of(src).most,
{
    assert forall|s: int| 0 <= s < 256 implies h.counts@[s] == #[trigger] code_counts(src)[s] by {
        hist::lemma_occurrences_bound(src, s as u8, src.len());
    }
    assert(h.counts@ =~= code_counts(src));
    assert forall|i: int| 0 <= i < src.len() implies #[trigger] src[i] <= h.max_symbol by {
        hist::lemma_frequency_positive(src, i);
        assert(h.counts@[src[i] as int] > 0);
    }
    if src.len() > 0 {
        assert(h.counts@[h.max_symbol as int] == hist::frequency(src, h.max_symbol as u8));
        let i = hist::lemma_occurrence(src, h.max_symbol as u8, src.len());
        assert(src[i] == h.max_symbol);
    }
    lemma_largest_code(src, h.max_symbol as nat);
    lemma_largest_count(h.counts@, 256, h.largest as nat);
}

} // verus!
