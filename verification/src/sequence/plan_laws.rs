//! Every block's sequences have tables that they can be written with.

use crate::entropy::ncount;
use crate::entropy::ncount_laws;
use crate::entropy::normalize;
use crate::entropy::tally;
use crate::entropy::tally::Stats;
use crate::error::Error;
use crate::sequence::choice;
use crate::sequence::choice::{Kept, ParserStrategy};
use crate::sequence::codes::EncodedSequence;
use crate::sequence::cost;
use crate::sequence::encode;
use crate::sequence::stats;
use crate::sequence::stream;
use crate::sequence::tables::{CompressionMode, SequencePart};
use crate::sequence::write::KeptState;
use vstd::arithmetic::div_mod::*;
use vstd::arithmetic::power2::*;
use vstd::prelude::*;

verus! {

/// Where one count is not all, another symbol is counted too.
proof fn lemma_another(counts: Seq<u32>, n: nat, i: int) -> (j: int)
    requires
        counts[i] as nat + 1 <= normalize::count_sum(counts, n),
    ensures
        0 <= j < n,
        j != i,
        counts[j] > 0,
    decreases n,
{
    let k = n - 1;
    if k != i && counts[k] > 0 {
        k
    } else if k == i {
        lemma_some(counts, k as nat)
    } else {
        lemma_another(counts, k as nat, i)
    }
}

/// Where something is counted, some symbol is.
proof fn lemma_some(counts: Seq<u32>, n: nat) -> (j: int)
    requires
        normalize::count_sum(counts, n) > 0,
    ensures
        0 <= j < n,
        counts[j] > 0,
    decreases n,
{
    if counts[n - 1] > 0 {
        n - 1
    } else {
        lemma_some(counts, (n - 1) as nat)
    }
}

/// Counts of two symbols or more have a distribution, and only a lack of room
/// can keep its header from being written.
proof fn lemma_fit_exists(part: SequencePart, counts: Seq<u32>, max: nat, total: nat)
    requires
        max <= part.code_max(),
        max < counts.len(),
        normalize::count_sum(counts, max + 1) == total,
        2 <= total <= u32::MAX,
        counts[max as int] > 0,
        forall|i: int| 0 <= i < max + 1 ==> #[trigger] counts[i] != total,
    ensures
        cost::fitted(part, counts, max, total) matches Ok(Some((norm, log))) && (
        cost::distribution_header(norm, log) matches Err(e) ==> e == Error::DstSizeTooSmall),
{
    let log = normalize::best_table_log(part.log_max(), total, max);
    let low: int = if total >= 2048 {
        -1
    } else {
        1
    };
    lemma2_to64();
    cost::lemma_fitted(part, counts, max, total);
    normalize::lemma_two_states(part.log_max(), total, max);
    normalize::lemma_counted(counts, max + 1);
    normalize::law_distribution_exists(counts, max + 1, total, log, low);
    if let Ok(Some((norm, _))) = cost::fitted(part, counts, max, total) {
        ncount_laws::law_header_exists(
            norm,
            norm.len(),
            log,
            ncount::usual_room(norm.len(), log),
        );
    }
}

/// No code costs more than eight bits.
proof fn lemma_entropy_bound(counts: Seq<u32>, n: nat, total: nat)
    requires
        n <= counts.len(),
        0 < total,
        forall|i: int| 0 <= i < n ==> (#[trigger] counts[i]) as nat <= total - 1,
    ensures
        cost::entropy_cost_sum(counts, n, total) <= 2048 * normalize::count_sum(counts, n),
    decreases n,
{
    if n > 0 {
        lemma_entropy_bound(counts, (n - 1) as nat, total);
        let c = counts[n - 1] as nat;
        assert(c <= total - 1);
        let p = 256 * c / total;
        lemma_div_pos_is_pos((256 * c) as int, total as int);
        lemma_multiply_divide_lt((256 * c) as int, total as int, 256);
        let at = if p == 0 {
            1
        } else {
            p as int
        };
        cost::lemma_inverse_bound(at);
        let unit = cost::INVERSE_PROBABILITY_LOG256@[at] as nat;
        assert(c * unit <= c * 2048) by (nonlinear_arith)
            requires
                unit <= 2048,
        ;
    }
}

/// A table that holds every counted code holds every code.
proof fn lemma_holds_all(codes: Seq<u8>, prev: Kept)
    requires
        0 < codes.len() <= u32::MAX,
        choice::holds_counted(prev.source, tally::stats_of(codes)),
    ensures
        forall|i: int| 0 <= i < codes.len() ==> stream::holds_code(prev.source, #[trigger] codes[i]),
{
    let st = tally::stats_of(codes);
    assert forall|i: int| 0 <= i < codes.len() implies stream::holds_code(
        prev.source,
        #[trigger] codes[i],
    ) by {
        encode::lemma_counted(codes, i);
        let s = codes[i] as int;
        assert(st.counts[s] > 0 && s <= st.max);
        assert(s as u8 == codes[i]);
    }
}

/// A table of its own can be built for codes that are not all the same.
proof fn lemma_own_table(part: SequencePart, codes: Seq<u8>, prev: Option<Kept>)
    requires
        0 < codes.len() <= u32::MAX,
        forall|i: int| 0 <= i < codes.len() ==> #[trigger] codes[i] <= part.code_max(),
        tally::stats_of(codes).most != tally::stats_of(codes).total,
    ensures
        encode::built_choice(part, codes, prev, CompressionMode::FseCompressed) matches Err(e) ==> e
            == Error::DstSizeTooSmall,
{
    let st = tally::stats_of(codes);
    let eff = encode::effective_counts(codes);
    let total = encode::effective_total(codes);
    let max = st.max;
    tally::lemma_stats(codes);
    tally::lemma_codes_bounded(codes, part.code_max() as nat);
    encode::lemma_effective(codes);
    assert forall|i: int| 0 <= i < max + 1 implies #[trigger] eff[i] != total && total >= 2 by {
        assert(st.counts[i] <= st.most);
        let j = lemma_another(st.counts, max + 1, i);
        assert(eff[j] > 0);
        if i < j {
            normalize::lemma_two_counts(eff, max + 1, i, j);
        } else {
            normalize::lemma_two_counts(eff, max + 1, j, i);
        }
        if eff[i] == 0 {
            let k = max as int;
            assert(eff[k] > 0);
            let l = lemma_another(st.counts, max + 1, k);
            assert(st.counts[k] <= st.most);
            assert(eff[l] > 0);
            normalize::lemma_two_counts(eff, max + 1, l, k);
        }
    }
    assert(eff[max as int] != total);
    lemma_fit_exists(part, eff, max, total);
}

/// A part's codes have a table, and only a lack of room for its header can
/// keep them from being written.
proof fn lemma_part_choice(
    part: SequencePart,
    codes: Seq<u8>,
    prev: Option<Kept>,
    strategy: ParserStrategy,
)
    requires
        0 < codes.len() <= u32::MAX,
        forall|i: int| 0 <= i < codes.len() ==> #[trigger] codes[i] <= part.code_max(),
    ensures
        encode::part_choice(part, codes, prev, strategy) matches Err(e) ==> e
            == Error::DstSizeTooSmall,
{
    reveal(encode::part_choice);
    let st = tally::stats_of(codes);
    tally::lemma_stats(codes);
    if st.most != st.total {
        lemma_own_table(part, codes, prev);
        if let Some(kept) = prev {
            if choice::holds_counted(kept.source, st) {
                lemma_holds_all(codes, kept);
            }
        }
        if strategy.rank() >= ParserStrategy::Lazy.rank() {
            tally::lemma_codes_bounded(codes, part.code_max() as nat);
            assert forall|i: int| 0 <= i < st.max + 1 implies #[trigger] st.counts[i] != st.total
                && st.counts[i] as nat <= st.total - 1 by {
                assert(st.counts[i] <= st.most);
            }
            assert(st.counts[st.max as int] <= st.most);
            lemma_fit_exists(part, st.counts, st.max, st.total);
            lemma_entropy_bound(st.counts, st.max + 1, st.total);
            lemma_header_small(part, st);
        }
    }
}

/// A header that can be written is short.
proof fn lemma_header_small(part: SequencePart, st: Stats)
    requires
        st.max <= part.code_max(),
        st.max < st.counts.len(),
        normalize::count_sum(st.counts, st.max + 1) == st.total,
        2 <= st.total <= u32::MAX,
        st.counts[st.max as int] > 0,
    ensures
        cost::header_cost(part, st) matches Ok(header) ==> header <= 291,
{
    cost::lemma_fitted(part, st.counts, st.max, st.total);
    if let Ok(Some((norm, log))) = cost::fitted(part, st.counts, st.max, st.total) {
        let room = ncount::usual_room(norm.len(), log);
        ncount::lemma_header_fits(norm, norm.len(), log, room);
        assert(norm.len() * log <= 256 * 9) by (nonlinear_arith)
            requires
                norm.len() <= 256,
                log <= 9,
        ;
    }
}

/// Sequences have tables, and only a lack of room for a table's header can keep
/// them from being written.
pub proof fn law_section_plan_exists(
    sequences: Seq<EncodedSequence>,
    state: KeptState,
    strategy: ParserStrategy,
)
    requires
        0 < sequences.len() <= u32::MAX,
        forall|k: int| 0 <= k < sequences.len() ==> (#[trigger] sequences[k]).wf(),
    ensures
        crate::sequence::write::section_plan(sequences, state, strategy) matches Err(e) ==> e
            == Error::DstSizeTooSmall,
{
    let ll = stats::part_codes(SequencePart::LiteralLength, sequences);
    let of = stats::part_codes(SequencePart::Offset, sequences);
    let ml = stats::part_codes(SequencePart::MatchLength, sequences);
    assert forall|i: int| 0 <= i < ll.len() implies #[trigger] ll[i]
        <= SequencePart::LiteralLength.code_max() by {
        assert(sequences[i].wf());
    }
    assert forall|i: int| 0 <= i < of.len() implies #[trigger] of[i]
        <= SequencePart::Offset.code_max() by {
        assert(sequences[i].wf());
    }
    assert forall|i: int| 0 <= i < ml.len() implies #[trigger] ml[i]
        <= SequencePart::MatchLength.code_max() by {
        assert(sequences[i].wf());
    }
    lemma_part_choice(SequencePart::LiteralLength, ll, state.ll, strategy);
    lemma_part_choice(SequencePart::Offset, of, state.of, strategy);
    lemma_part_choice(SequencePart::MatchLength, ml, state.ml, strategy);
}

} // verus!
