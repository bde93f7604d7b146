//! Statistics of the codes of a block's sequences.

use crate::entropy::hist;
use crate::entropy::hist::Histogram;
use crate::entropy::spread;
use crate::entropy::tally;
use crate::entropy::tally::Stats;
use crate::sequence::codes;
use crate::sequence::codes::EncodedSequence;
use crate::sequence::stream;
use crate::sequence::tables::SequencePart;
use vstd::arithmetic::mul::*;
use vstd::prelude::*;

verus! {

/// Blocks with this many sequences are counted in lanes.
pub const HISTOGRAM_LANE_MIN_SEQUENCES: usize = 2048;

/// How often each code occurs, the largest code, how often the most frequent
/// one occurs, and how many codes there are.
pub struct SequenceCodeStats {
    pub counts: Vec<u32>,
    pub max_symbol: u8,
    pub most_frequent: usize,
    pub total: usize,
}

impl View for SequenceCodeStats {
    type V = Stats;

    open spec fn view(&self) -> Stats {
        Stats {
            counts: self.counts@,
            max: self.max_symbol as nat,
            most: self.most_frequent as nat,
            total: self.total as nat,
        }
    }
}

/// Counts the codes of one part, in lanes where there are many.
pub fn analyze_codes(codes: &[u8]) -> (r: SequenceCodeStats)
    requires
        codes@.len() <= u32::MAX,
    ensures
        r@ == tally::stats_of(codes@),
{
    let h: Histogram = if codes.len() >= HISTOGRAM_LANE_MIN_SEQUENCES {
        hist::count_parallel(codes)
    } else {
        hist::count_simple(codes)
    };
    proof {
        tally::lemma_histogram(h, codes@);
    }
    let total: usize = codes.len();
    SequenceCodeStats {
        counts: h.counts,
        max_symbol: h.max_symbol as u8,
        most_frequent: h.largest as usize,
        total,
    }
}

/// Counts the codes of all three parts.
pub fn analyze_all_codes(literal_codes: &[u8], offset_codes: &[u8], match_codes: &[u8]) -> (r: (
    SequenceCodeStats,
    SequenceCodeStats,
    SequenceCodeStats,
))
    requires
        literal_codes@.len() <= u32::MAX,
        offset_codes@.len() <= u32::MAX,
        match_codes@.len() <= u32::MAX,
    ensures
        r.0@ == tally::stats_of(literal_codes@),
        r.1@ == tally::stats_of(offset_codes@),
        r.2@ == tally::stats_of(match_codes@),
{
    (analyze_codes(literal_codes), analyze_codes(offset_codes), analyze_codes(match_codes))
}

// ---------------------------------------------------------------------------
// Extra bits.

/// The extra bits of the first `k` codes.
pub open spec fn extra_width(part: SequencePart, codes: Seq<u8>, k: nat) -> nat
    decreases k,
{
    if k == 0 {
        0
    } else {
        extra_width(part, codes, (k - 1) as nat) + part.code_extra_bits(codes[k - 1] as nat)
    }
}

/// The extra bits of the codes below `n`, from how often they occur.
pub open spec fn counted_width(part: SequencePart, counts: Seq<u32>, n: nat) -> nat
    decreases n,
{
    if n == 0 {
        0
    } else {
        counted_width(part, counts, (n - 1) as nat) + counts[n - 1] as nat * part.code_extra_bits(
            (n - 1) as nat,
        )
    }
}

spec fn occurring_width(part: SequencePart, codes: Seq<u8>, k: nat, n: nat) -> nat
    decreases n,
{
    if n == 0 {
        0
    } else {
        occurring_width(part, codes, k, (n - 1) as nat) + spread::occurrences(
            codes,
            (n - 1) as u8,
            k,
        ) * part.code_extra_bits((n - 1) as nat)
    }
}

proof fn lemma_occurring_width_step(part: SequencePart, codes: Seq<u8>, k: nat, n: nat)
    requires
        0 < k <= codes.len(),
        n <= 256,
    ensures
        occurring_width(part, codes, k, n) == occurring_width(part, codes, (k - 1) as nat, n)
            + if codes[k - 1] < n {
            part.code_extra_bits(codes[k - 1] as nat)
        } else {
            0
        },
    decreases n,
{
    if n > 0 {
        lemma_occurring_width_step(part, codes, k, (n - 1) as nat);
        let w = part.code_extra_bits((n - 1) as nat) as int;
        let o = spread::occurrences(codes, (n - 1) as u8, (k - 1) as nat) as int;
        assert((o + 1) * w == o * w + w) by (nonlinear_arith);
    }
}

proof fn lemma_occurring_width(part: SequencePart, codes: Seq<u8>, k: nat, n: nat)
    requires
        k <= codes.len(),
        n <= 256,
        forall|i: int| 0 <= i < codes.len() ==> #[trigger] codes[i] < n,
    ensures
        occurring_width(part, codes, k, n) == extra_width(part, codes, k),
    decreases k,
{
    if k == 0 {
        lemma_occurring_width_none(part, codes, n);
    } else {
        lemma_occurring_width(part, codes, (k - 1) as nat, n);
        lemma_occurring_width_step(part, codes, k, n);
    }
}

proof fn lemma_occurring_width_none(part: SequencePart, codes: Seq<u8>, n: nat)
    ensures
        occurring_width(part, codes, 0, n) == 0,
    decreases n,
{
    if n > 0 {
        lemma_occurring_width_none(part, codes, (n - 1) as nat);
        assert(0 * part.code_extra_bits((n - 1) as nat) == 0);
    }
}

proof fn lemma_counted_is_occurring(part: SequencePart, codes: Seq<u8>, n: nat)
    requires
        hist::counts_of(tally::code_counts(codes), codes),
        n <= 256,
    ensures
        counted_width(part, tally::code_counts(codes), n) == occurring_width(
            part,
            codes,
            codes.len(),
            n,
        ),
    decreases n,
{
    if n > 0 {
        lemma_counted_is_occurring(part, codes, (n - 1) as nat);
        assert(tally::code_counts(codes)[n - 1] == hist::frequency(codes, (n - 1) as u8));
    }
}

/// The extra bits of codes follow from how often each code occurs.
pub proof fn law_extra_bits_from_counts(part: SequencePart, codes: Seq<u8>)
    requires
        codes.len() <= u32::MAX,
    ensures
        counted_width(part, tally::code_counts(codes), tally::largest_code(codes) + 1) == extra_width(
            part,
            codes,
            codes.len(),
        ),
{
    tally::lemma_stats(codes);
    let n = tally::largest_code(codes) + 1;
    assert forall|i: int| 0 <= i < codes.len() implies #[trigger] codes[i] < n by {
        tally::lemma_largest_code_bounds(codes, i);
    }
    lemma_counted_is_occurring(part, codes, n);
    lemma_occurring_width(part, codes, codes.len(), n);
}

/// The extra bits of few codes are few.
pub proof fn lemma_extra_width_bound(part: SequencePart, codes: Seq<u8>, k: nat)
    requires
        k <= codes.len(),
        forall|i: int| 0 <= i < codes.len() ==> #[trigger] codes[i] <= part.code_max(),
    ensures
        extra_width(part, codes, k) <= 31 * k,
        part != SequencePart::Offset ==> extra_width(part, codes, k) <= 16 * k,
    decreases k,
{
    if k > 0 {
        lemma_extra_width_bound(part, codes, (k - 1) as nat);
        let c = codes[k - 1] as nat;
        assert(codes[k - 1] <= part.code_max());
        match part {
            SequencePart::LiteralLength => {
                codes::lemma_literal_tables(c);
            },
            SequencePart::Offset => {},
            SequencePart::MatchLength => {
                codes::lemma_match_tables(c);
            },
        }
    }
}

proof fn lemma_counted_width_monotone(part: SequencePart, counts: Seq<u32>, m: nat, n: nat)
    requires
        m <= n,
    ensures
        counted_width(part, counts, m) <= counted_width(part, counts, n),
    decreases n,
{
    if m < n {
        lemma_counted_width_monotone(part, counts, m, (n - 1) as nat);
        lemma_mul_nonnegative(
            counts[n - 1] as int,
            part.code_extra_bits((n - 1) as nat) as int,
        );
    }
}

/// The number of extra bits of a code.
pub fn code_width(part: SequencePart, code: u8) -> (r: u32)
    requires
        code <= part.code_max(),
    ensures
        r == part.code_extra_bits(code as nat),
        r <= 31,
{
    match part {
        SequencePart::LiteralLength => codes::ll_bits(code),
        SequencePart::Offset => code as u32,
        SequencePart::MatchLength => codes::ml_bits(code),
    }
}

/// The extra bits of a part's codes, from their statistics.
pub fn extra_bits_of(part: SequencePart, stats: &SequenceCodeStats, Ghost(codes): Ghost<Seq<u8>>)
    -> (r: u64)
    requires
        stats@ == tally::stats_of(codes),
        codes.len() <= u32::MAX,
        forall|i: int| 0 <= i < codes.len() ==> #[trigger] codes[i] <= part.code_max(),
    ensures
        r == extra_width(part, codes, codes.len()),
        r <= 31 * codes.len(),
{
    let ghost n = tally::largest_code(codes) + 1;
    proof {
        tally::lemma_stats(codes);
        law_extra_bits_from_counts(part, codes);
        lemma_extra_width_bound(part, codes, codes.len());
        if codes.len() > 0 {
            let i = tally::lemma_largest_code_at(codes);
            assert(codes[i] <= part.code_max());
        }
    }
    let mut total: u64 = 0;
    let mut s: usize = 0;
    while s <= stats.max_symbol as usize
        invariant
            s <= n == stats.max_symbol as nat + 1,
            stats.max_symbol <= part.code_max(),
            stats.counts@ == tally::code_counts(codes),
            total == counted_width(part, stats.counts@, s as nat),
            counted_width(part, stats.counts@, n) <= 31 * codes.len(),
            codes.len() <= u32::MAX,
        decreases n - s,
    {
        let width: u32 = code_width(part, s as u8);
        proof {
            lemma_counted_width_monotone(part, stats.counts@, s as nat + 1, n);
            lemma_mul_nonnegative(stats.counts@[s as int] as int, width as int);
        }
        total = total + stats.counts[s] as u64 * width as u64;
        s = s + 1;
    }
    total
}

/// The codes of one part of coded sequences.
pub open spec fn part_codes(part: SequencePart, sequences: Seq<EncodedSequence>) -> Seq<u8> {
    Seq::new(
        sequences.len(),
        |i: int|
            match part {
                SequencePart::LiteralLength => sequences[i].ll_code,
                SequencePart::Offset => sequences[i].of_code,
                SequencePart::MatchLength => sequences[i].ml_code,
            },
    )
}

/// The extra bits of sequences are those of their parts.
pub proof fn lemma_extra_bits_by_part(sequences: Seq<EncodedSequence>)
    ensures
        stream::extra_bits(sequences) == extra_width(
            SequencePart::LiteralLength,
            part_codes(SequencePart::LiteralLength, sequences),
            sequences.len(),
        ) + extra_width(
            SequencePart::MatchLength,
            part_codes(SequencePart::MatchLength, sequences),
            sequences.len(),
        ) + extra_width(
            SequencePart::Offset,
            part_codes(SequencePart::Offset, sequences),
            sequences.len(),
        ),
    decreases sequences.len(),
{
    if sequences.len() > 0 {
        let rest = sequences.drop_last();
        lemma_extra_bits_by_part(rest);
        lemma_extra_width_prefix(SequencePart::LiteralLength, sequences);
        lemma_extra_width_prefix(SequencePart::MatchLength, sequences);
        lemma_extra_width_prefix(SequencePart::Offset, sequences);
    }
}

proof fn lemma_extra_width_prefix(part: SequencePart, sequences: Seq<EncodedSequence>)
    requires
        sequences.len() > 0,
    ensures
        extra_width(part, part_codes(part, sequences), (sequences.len() - 1) as nat)
            == extra_width(
            part,
            part_codes(part, sequences.drop_last()),
            (sequences.len() - 1) as nat,
        ),
{
    lemma_extra_width_agrees(
        part,
        part_codes(part, sequences),
        part_codes(part, sequences.drop_last()),
        (sequences.len() - 1) as nat,
    );
}

proof fn lemma_extra_width_agrees(part: SequencePart, a: Seq<u8>, b: Seq<u8>, k: nat)
    requires
        k <= a.len(),
        k <= b.len(),
        forall|i: int| 0 <= i < k ==> #[trigger] a[i] == b[i],
    ensures
        extra_width(part, a, k) == extra_width(part, b, k),
    decreases k,
{
    if k > 0 {
        lemma_extra_width_agrees(part, a, b, (k - 1) as nat);
    }
}

} // verus!
