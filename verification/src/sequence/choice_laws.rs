//! Laws of choosing tables: what codes cost, that the cheapest table is taken,
//! and what the table of a choice is made from.

use crate::entropy::hist;
use crate::entropy::huff_compress;
use crate::entropy::huff_table::Code;
use crate::entropy::normalize;
use crate::entropy::tally;
use crate::entropy::tally::Stats;
use crate::error::Error;
use crate::sequence::choice;
use crate::sequence::choice::{Kept, ParserStrategy, SequenceRepeatMode};
use crate::sequence::cost;
use crate::sequence::cost::INVERSE_PROBABILITY_LOG256;
use crate::sequence::encode;
use crate::sequence::estimate;
use crate::sequence::stats;
use crate::sequence::stream;
use crate::sequence::tables::{CompressionMode, SequencePart, TableSource};
use crate::sequence::write::KeptState;
use vstd::arithmetic::power2::*;
use vstd::prelude::*;

verus! {

// ---------------------------------------------------------------------------
// Costs.

spec fn halves_hold(n: nat) -> bool
    decreases n,
{
    n <= 1 || {
        let i = n - 1;
        &&& halves_hold((n - 1) as nat)
        &&& INVERSE_PROBABILITY_LOG256@[2 * i] + 256 == INVERSE_PROBABILITY_LOG256@[i]
    }
}

proof fn lemma_halves_hold(n: nat, i: int)
    requires
        halves_hold(n),
        1 <= i < n,
    ensures
        INVERSE_PROBABILITY_LOG256@[2 * i] + 256 == INVERSE_PROBABILITY_LOG256@[i],
    decreases n,
{
    if i + 1 < n {
        lemma_halves_hold((n - 1) as nat, i);
    }
}

spec fn costs_fall(n: nat) -> bool
    decreases n,
{
    n <= 1 || {
        let i = n - 1;
        &&& costs_fall((n - 1) as nat)
        &&& INVERSE_PROBABILITY_LOG256@[i] > INVERSE_PROBABILITY_LOG256@[i + 1]
    }
}

proof fn lemma_costs_fall(n: nat, i: int)
    requires
        costs_fall(n),
        1 <= i < n,
    ensures
        INVERSE_PROBABILITY_LOG256@[i] > INVERSE_PROBABILITY_LOG256@[i + 1],
    decreases n,
{
    if i + 1 < n {
        lemma_costs_fall((n - 1) as nat, i);
    }
}

/// A probability of 1/256 costs eight bits, twice the probability costs one
/// bit less, and a greater one always costs less.
#[verifier::rlimit(60)]
pub proof fn law_costs_are_logarithms(i: int)
    requires
        1 <= i < 255,
    ensures
        INVERSE_PROBABILITY_LOG256@[1] == 8 * 256,
        i < 128 ==> INVERSE_PROBABILITY_LOG256@[2 * i] + 256 == INVERSE_PROBABILITY_LOG256@[i],
        INVERSE_PROBABILITY_LOG256@[i] > INVERSE_PROBABILITY_LOG256@[i + 1],
{
    assert(halves_hold(32)) by {
        reveal_with_fuel(halves_hold, 33);
    }
    assert(halves_hold(64)) by {
        reveal_with_fuel(halves_hold, 33);
    }
    assert(halves_hold(96)) by {
        reveal_with_fuel(halves_hold, 33);
    }
    assert(halves_hold(128)) by {
        reveal_with_fuel(halves_hold, 33);
    }
    if i < 128 {
        lemma_halves_hold(128, i);
    }
    lemma_all_costs_fall();
    lemma_costs_fall(255, i);
}

#[verifier::rlimit(60)]
proof fn lemma_all_costs_fall()
    ensures
        costs_fall(255),
{
    assert(costs_fall(32)) by {
        reveal_with_fuel(costs_fall, 33);
    }
    assert(costs_fall(64)) by {
        reveal_with_fuel(costs_fall, 33);
    }
    assert(costs_fall(96)) by {
        reveal_with_fuel(costs_fall, 33);
    }
    assert(costs_fall(128)) by {
        reveal_with_fuel(costs_fall, 33);
    }
    assert(costs_fall(160)) by {
        reveal_with_fuel(costs_fall, 33);
    }
    assert(costs_fall(192)) by {
        reveal_with_fuel(costs_fall, 33);
    }
    assert(costs_fall(224)) by {
        reveal_with_fuel(costs_fall, 33);
    }
    assert(costs_fall(255)) by {
        reveal_with_fuel(costs_fall, 33);
    }
}

/// Each code adds to a cost as often as it occurs: by its share of the input,
/// of at least 1/256, where codes are measured by themselves, and by its share
/// of the states in the format's own table.
pub proof fn law_costs_add_up(part: SequencePart, counts: Seq<u32>, n: nat, total: nat)
    requires
        n < part.predefined().len(),
    ensures
        cost::entropy_cost_sum(counts, 0, total) == 0,
        counts[n as int] == 0 ==> cost::entropy_cost_sum(counts, n + 1, total)
            == cost::entropy_cost_sum(counts, n, total),
        counts[n as int] > 0 && 256 * counts[n as int] as nat / total >= 1
            ==> cost::entropy_cost_sum(counts, n + 1, total) == cost::entropy_cost_sum(
            counts,
            n,
            total,
        ) + counts[n as int] * INVERSE_PROBABILITY_LOG256@[(256 * counts[n as int] as nat
            / total) as int],
        counts[n as int] > 0 && 256 * counts[n as int] as nat / total == 0
            ==> cost::entropy_cost_sum(counts, n + 1, total) == cost::entropy_cost_sum(
            counts,
            n,
            total,
        ) + counts[n as int] * 2048,
        cost::predefined_cost_sum(part, counts, 0) == 0,
        cost::predefined_cost_sum(part, counts, n + 1) == cost::predefined_cost_sum(
            part,
            counts,
            n,
        ) + counts[n as int] * INVERSE_PROBABILITY_LOG256@[(if part.predefined()[n as int] == -1 {
            1int
        } else {
            part.predefined()[n as int] as int
        }) * if part == SequencePart::Offset {
            8int
        } else {
            4
        }],
{
    crate::sequence::tables::lemma_predefined(part);
    lemma2_to64();
    assert(part.predefined()[n as int] >= -1 && part.predefined()[n as int] != 0);
}

// ---------------------------------------------------------------------------
// Choices.

/// One code alone is written as such, unless two sequences or one are so few
/// that the format's own table is as good.
pub proof fn law_one_code_is_not_coded(
    part: SequencePart,
    st: Stats,
    prev: Option<Kept>,
    strategy: ParserStrategy,
)
    requires
        st.most == st.total,
    ensures
        choice::table_choice(part, st, prev, strategy) == Ok::<CompressionMode, Error>(
            if st.total <= 2 && st.max < part.predefined().len() {
                CompressionMode::Predefined
            } else {
                CompressionMode::Rle
            },
        ),
{
}

/// From the lazy strategies on the table is taken that is expected to cost the
/// least, with its header. Where two cost the same, the format's own table goes
/// first, and then that of the block before.
pub proof fn law_cheapest_table_is_taken(
    part: SequencePart,
    st: Stats,
    prev: Option<Kept>,
    strategy: ParserStrategy,
)
    requires
        st.most != st.total,
        !(strategy is Fast || strategy is DoubleFast || strategy is Greedy),
        cost::header_cost(part, st) is Ok,
    ensures
        ({
            let own = choice::basic_cost(part, st);
            let last = choice::repeat_cost(st, prev);
            let new = 8 * cost::header_cost(part, st)->Ok_0 + cost::entropy_cost(st);
            match choice::table_choice(part, st, prev, strategy) {
                Ok(CompressionMode::Predefined) => own <= last && own <= new,
                Ok(CompressionMode::Repeat) => last < own && last <= new || (last <= new && own
                    > new),
                Ok(CompressionMode::FseCompressed) => new < last && (new < own || own > last),
                _ => false,
            }
        }),
{
}

/// A table that may not be used again, or that does not hold a code that
/// occurs, costs without bound, and so does the format's own for codes that it
/// does not reach.
pub proof fn law_unusable_tables_cost_without_bound(
    part: SequencePart,
    st: Stats,
    prev: Option<Kept>,
)
    ensures
        prev is None ==> choice::repeat_cost(st, prev) == u64::MAX,
        prev matches Some(k) ==> {
            &&& k.mode == SequenceRepeatMode::Never ==> choice::repeat_cost(st, prev) == u64::MAX
            &&& forall|s: int|
                0 <= s <= st.max && #[trigger] st.counts[s] > 0 && !stream::holds_code(
                    k.source,
                    s as u8,
                ) ==> choice::repeat_cost(st, prev) == u64::MAX
        },
        st.max >= part.predefined().len() ==> choice::basic_cost(part, st) == u64::MAX,
{
}

/// A table holds a code where the code has a state in it.
pub proof fn law_tables_hold_codes_with_states(counts: Seq<i16>, n: nat, log: nat, s: u8)
    ensures
        stream::holds_code(TableSource::Distribution { counts, n, log }, s) ==> s < n
            && counts[s as int] != 0,
        s < n && counts[s as int] >= -1 && counts[s as int] != 0 ==> stream::holds_code(
            TableSource::Distribution { counts, n, log },
            s,
        ),
        forall|code: u8|
            #[trigger] stream::holds_code(TableSource::Only { code }, s) <==> code == s,
{
}

/// The quick strategies do not measure. Codes that the format's own table does
/// not reach get a table of their own; a table that surely holds all codes is
/// used again below a thousand sequences; few sequences, fewer the harder the
/// strategy, and sequences without a frequent code keep the format's own.
pub proof fn law_quick_choice(
    part: SequencePart,
    st: Stats,
    prev: Option<Kept>,
    strategy: ParserStrategy,
)
    requires
        st.most != st.total,
        strategy is Fast || strategy is DoubleFast || strategy is Greedy,
    ensures
        ({
            let effort = if strategy is Fast {
                9nat
            } else if strategy is DoubleFast {
                8
            } else {
                7
            };
            let states = if part == SequencePart::Offset {
                32nat
            } else {
                64
            };
            let again = prev matches Some(k) && k.mode == SequenceRepeatMode::Valid
                && choice::holds_counted(k.source, st) && st.total < 1000;
            let r = choice::table_choice(part, st, prev, strategy);
            &&& st.max >= part.predefined().len() ==> r == Ok::<CompressionMode, Error>(
                CompressionMode::FseCompressed,
            )
            &&& st.max < part.predefined().len() && again ==> r == Ok::<CompressionMode, Error>(
                CompressionMode::Repeat,
            )
            &&& st.max < part.predefined().len() && !again ==> r == Ok::<CompressionMode, Error>(
                if st.total < states * effort / 8 || st.most < st.total / (states / 2) {
                    CompressionMode::Predefined
                } else {
                    CompressionMode::FseCompressed
                },
            )
        }),
{
    lemma2_to64();
}

// ---------------------------------------------------------------------------
// Tables.

/// The last code of a block needs no step, so it counts once less, unless it
/// would not count at all.
pub proof fn law_last_code_counts_less(codes: Seq<u8>, s: u8)
    requires
        0 < codes.len() <= u32::MAX,
    ensures
        ({
            let f = hist::frequency(codes, s);
            let eff = encode::effective_counts(codes)[s as int];
            &&& s != codes.last() || f == 1 ==> eff == f
            &&& s == codes.last() && f > 1 ==> eff == f - 1
            &&& f > 0 ==> eff > 0
        }),
        hist::frequency(codes, codes.last()) == 1 ==> encode::effective_total(codes) == codes.len(),
        hist::frequency(codes, codes.last()) > 1 ==> encode::effective_total(codes) == codes.len()
            - 1,
{
    tally::lemma_stats(codes);
    assert(tally::stats_of(codes).counts[s as int] == hist::frequency(codes, s));
    assert(tally::stats_of(codes).counts[codes.last() as int] == hist::frequency(
        codes,
        codes.last(),
    ));
    hist::lemma_frequency_positive(codes, codes.len() - 1);
}

/// The choices without a distribution: the format's own table has no header
/// and is not kept; a single code is its own header; a table from the block
/// before needs none and stays as it was, if it may be used and holds all
/// codes.
pub proof fn law_choices_without_distribution(
    part: SequencePart,
    codes: Seq<u8>,
    prev: Option<Kept>,
)
    requires
        0 < codes.len() <= u32::MAX,
    ensures
        encode::built_choice(part, codes, prev, CompressionMode::Predefined) matches Ok(c)
            && c.mode == CompressionMode::Predefined && c.header.len() == 0 && c.keep is None
            && c.source == (TableSource::Distribution {
            counts: part.predefined(),
            n: part.predefined().len(),
            log: part.predefined_log(),
        }),
        (forall|i: int| 0 <= i < codes.len() ==> #[trigger] codes[i] == codes[0]) ==> (
        encode::built_choice(part, codes, prev, CompressionMode::Rle) matches Ok(c) && c.mode
            == CompressionMode::Rle && c.header == seq![codes[0]] && c.keep is None && c.source == (
        TableSource::Only { code: codes[0] })),
        encode::built_choice(part, codes, prev, CompressionMode::Repeat) matches Ok(c) ==> {
            &&& prev is Some
            &&& prev->0.mode != SequenceRepeatMode::Never
            &&& forall|i: int|
                0 <= i < codes.len() ==> stream::holds_code(prev->0.source, #[trigger] codes[i])
            &&& c.source == prev->0.source
            &&& c.header.len() == 0
            &&& c.keep == Some(prev->0.mode)
        },
        encode::built_choice(part, codes, prev, CompressionMode::FseCompressed) matches Ok(c) ==> {
            &&& c.mode == CompressionMode::FseCompressed
            &&& c.keep == Some(SequenceRepeatMode::Check)
            &&& c.source is Distribution
        },
{
    if forall|i: int| 0 <= i < codes.len() ==> #[trigger] codes[i] == codes[0] {
        lemma_all_the_same(codes);
    }
}

proof fn lemma_all_the_same(codes: Seq<u8>)
    requires
        0 < codes.len(),
        forall|i: int| 0 <= i < codes.len() ==> #[trigger] codes[i] == codes[0],
    ensures
        tally::largest_code(codes) == codes[0],
    decreases codes.len(),
{
    if codes.len() > 1 {
        let front = codes.drop_last();
        assert forall|i: int| 0 <= i < front.len() implies #[trigger] front[i] == front[0] by {
            assert(front[i] == codes[i]);
        }
        lemma_all_the_same(front);
        assert(front[0] == codes[0]);
    } else {
        reveal_with_fuel(tally::largest_code, 2);
    }
}

/// Many sequences let codes that are too rare for a state be marked as such;
/// few do not.
pub proof fn law_rare_codes_are_marked_in_long_blocks(
    part: SequencePart,
    counts: Seq<u32>,
    max: nat,
    total: nat,
)
    requires
        cost::fitted(part, counts, max, total) matches Ok(Some(_)),
    ensures
        ({
            let (norm, log) = cost::fitted(part, counts, max, total)->Ok_0->0;
            let d = normalize::distribution(
                counts,
                max + 1,
                total,
                log,
                if total >= 2048 {
                    -1
                } else {
                    1
                },
            );
            &&& d is Ok
            &&& log == normalize::best_table_log(part.log_max(), total, max)
            &&& norm.len() == max + 1
            &&& forall|i: int| 0 <= i <= max ==> #[trigger] norm[i] == d->Ok_0[i] as i16
        }),
{
}

// ---------------------------------------------------------------------------
// Estimates.

/// What a part is estimated to take is no more than with any table that could
/// be taken, by what is expected of each; extra bits come on top. A table of
/// its own brings its header.
pub proof fn law_part_estimate(part: SequencePart, codes: Seq<u8>, prev: Option<Kept>)
    requires
        0 < codes.len() <= u32::MAX,
    ensures
        ({
            let st = tally::stats_of(codes);
            let extra = stats::extra_width(part, codes, codes.len());
            let own = choice::basic_cost(part, st);
            let last = choice::repeat_cost(st, prev);
            let new = estimate::expected_cost(part, st);
            let r = estimate::part_cost(part, codes, prev);
            &&& st.most < st.total && own <= last && own <= new && own + extra <= u64::MAX
                ==> r.symbols == (own + extra) / 8 && r.header == 0
            &&& st.most < st.total && last < own && last <= new && last + extra <= u64::MAX
                ==> r.symbols == (last + extra) / 8 && r.header == 0
            &&& st.most < st.total && new < own && new < last && cost::header_cost(part, st) is Ok
                ==> r.header == cost::header_cost(part, st)->Ok_0 && (estimate::fitted_cost(part, st)
                + extra <= u64::MAX ==> r.symbols == (estimate::fitted_cost(part, st) + extra) / 8)
            &&& st.most == st.total && (st.total > 2 || st.max >= part.predefined().len())
                ==> r.symbols == extra / 8 && r.header == 0
        }),
{
    tally::lemma_stats(codes);
}

/// The expected cost of a table of its own is that of its header and that of
/// the codes by themselves.
pub proof fn law_expected_cost(part: SequencePart, st: Stats)
    ensures
        cost::header_cost(part, st) matches Ok(n) ==> estimate::expected_cost(part, st) == 8 * n
            + cost::entropy_cost(st),
        cost::header_cost(part, st) is Err ==> estimate::expected_cost(part, st) == u64::MAX,
{
}

/// A block is estimated to take what its parts take, with the headers of
/// their tables, its literals, and the headers of the sections and of the block
/// itself. Without sequences it is estimated as it is, with two headers.
pub proof fn law_block_estimate(
    literal_codes: Seq<u8>,
    offset_codes: Seq<u8>,
    match_codes: Seq<u8>,
    literals: Seq<u8>,
    tables: KeptState,
    prev: Option<Code>,
    disabled: bool,
)
    ensures
        ({
            let n = literal_codes.len();
            let ll = estimate::part_cost(SequencePart::LiteralLength, literal_codes, tables.ll);
            let of = estimate::part_cost(SequencePart::Offset, offset_codes, tables.of);
            let ml = estimate::part_cost(SequencePart::MatchLength, match_codes, tables.ml);
            let lits = if literals.len() == 0 {
                0
            } else {
                estimate::literal_cost(literals, prev, disabled)
            };
            let count: nat = if n < 128 {
                1
            } else if n < 32512 {
                2
            } else {
                3
            };
            let bytes = ll.symbols + ll.header + of.symbols + of.header + ml.symbols + ml.header
                + lits + count + 4;
            let r = estimate::block_cost(
                literal_codes,
                offset_codes,
                match_codes,
                literals,
                tables,
                prev,
                disabled,
            );
            &&& n == 0 ==> r == 8 * literals.len() + 48
            &&& n > 0 && 8 * bytes <= u64::MAX ==> r == 8 * bytes
        }),
{
}

/// Literals are estimated as what a section of them takes, with its header of
/// three to five bytes; as they are, where coding gains nothing or is disabled.
pub proof fn law_literal_estimate(
    literals: Seq<u8>,
    prev: Option<Code>,
)
    ensures
        estimate::literal_cost(literals, prev, true) == literals.len(),
        estimate::literal_cost(literals, prev, false) == (match huff_compress::section_estimate(
            literals,
            prev,
        ) {
            Some(size) => size,
            None => literals.len(),
        }) + if literals.len() < 1024 {
            3nat
        } else if literals.len() < 16384 {
            4
        } else {
            5
        },
{
}

// ---------------------------------------------------------------------------
// Costs in a table.

/// A table holds the codes of a block where it holds each of them.
pub proof fn law_tables_that_hold_all_codes(source: TableSource, codes: Seq<u8>)
    requires
        0 < codes.len() <= u32::MAX,
    ensures
        choice::holds_counted(source, tally::stats_of(codes)) <==> forall|i: int|
            0 <= i < codes.len() ==> stream::holds_code(source, #[trigger] codes[i]),
{
    let st = tally::stats_of(codes);
    tally::lemma_stats(codes);
    if choice::holds_counted(source, st) {
        assert forall|i: int| 0 <= i < codes.len() implies stream::holds_code(
            source,
            #[trigger] codes[i],
        ) by {
            hist::lemma_frequency_positive(codes, i);
            tally::lemma_largest_code_bounds(codes, i);
            assert(st.counts[codes[i] as int] > 0);
        }
    }
    if forall|i: int| 0 <= i < codes.len() ==> stream::holds_code(source, #[trigger] codes[i]) {
        assert forall|s: int|
            0 <= s <= st.max && #[trigger] st.counts[s] > 0 implies stream::holds_code(
            source,
            s as u8,
        ) by {
            let i = hist::lemma_occurrence(codes, s as u8, codes.len());
            assert(codes[i] == s as u8);
        }
    }
}

/// What codes cost in a table: each as often as it occurs, in whole bits. The
/// cost is without bound where a code is behind the table's last symbol, and
/// where one that occurs costs as much as a symbol without states.
pub proof fn law_cost_in_a_table(norm: Seq<i16>, n: nat, log: nat, st: Stats, k: nat)
    requires
        k < n,
    ensures
        ({
            let all = cost::table_cost(norm, n, log, st);
            let sum = cost::table_cost_sum(norm, n, log, st.counts, st.max + 1);
            let costly = exists|s: int|
                0 <= s <= st.max && #[trigger] st.counts[s] > 0 && cost::table_code_cost(
                    norm,
                    n,
                    log,
                    s,
                ) >= 256 * log + 256;
            &&& st.max >= n || costly ==> all == u64::MAX
            &&& st.max < n && !costly ==> 256 * all <= sum < 256 * all + 256
        }),
        cost::table_cost_sum(norm, n, log, st.counts, 0) == 0,
        cost::table_code_cost(norm, n, log, k as int) >= 0 ==> cost::table_cost_sum(
            norm,
            n,
            log,
            st.counts,
            k + 1,
        ) == cost::table_cost_sum(norm, n, log, st.counts, k) + st.counts[k as int]
            * cost::table_code_cost(norm, n, log, k as int),
{
    let c = st.counts[k as int] as int;
    let each = cost::table_code_cost(norm, n, log, k as int);
    if each >= 0 {
        assert(c * each >= 0) by (nonlinear_arith)
            requires
                c >= 0,
                each >= 0,
        ;
        if c == 0 {
            assert(c * each == 0) by (nonlinear_arith)
                requires
                    c == 0,
            ;
        }
    }
    assert((log + 1) * 256 == 256 * log + 256);
}

/// What codes cost in a table made for them is what they cost in the table of
/// the distribution that is fitted to them, over all codes up to the largest.
pub proof fn law_cost_in_a_fitted_table(part: SequencePart, st: Stats)
    ensures
        cost::fitted(part, st.counts, st.max, st.total) matches Ok(Some((norm, log))) ==> {
            &&& norm.len() == st.max + 1
            &&& estimate::fitted_cost(part, st) == cost::table_cost(norm, norm.len(), log, st)
        },
        cost::fitted(part, st.counts, st.max, st.total) is Err ==> estimate::fitted_cost(part, st)
            == u64::MAX,
{
}

/// The distribution that is fitted to counts: its table log is the one that
/// suits, and rare codes are marked as such from 2048 sequences on. There is
/// none for a single code.
pub proof fn law_fitted_distribution(
    part: SequencePart,
    counts: Seq<u32>,
    max: nat,
    total: nat,
    i: int,
)
    requires
        0 <= i <= max,
    ensures
        ({
            let r = cost::fitted(part, counts, max, total);
            let log = normalize::best_table_log(part.log_max(), total, max);
            let low: int = if total < 2048 {
                1
            } else {
                -1
            };
            let d = normalize::distribution(counts, max + 1, total, log, low);
            &&& counts[i] == total ==> r == Ok::<Option<(Seq<i16>, nat)>, Error>(None)
            &&& (forall|k: int| 0 <= k <= max ==> #[trigger] counts[k] != total) ==> {
                &&& r is Ok <==> d is Ok
                &&& r matches Ok(fit) ==> (fit matches Some((norm, k)) && k == log && norm[i]
                    == d->Ok_0[i] as i16)
            }
        }),
{
}

} // verus!
