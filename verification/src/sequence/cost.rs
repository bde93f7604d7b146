//! What it costs to write a part's codes with one table or another.

use crate::entropy::fse;
use crate::entropy::fse::CTable;
use crate::entropy::fse_cost;
use crate::entropy::mem;
use crate::entropy::ncount;
use crate::entropy::normalize;
use crate::entropy::spread;
use crate::entropy::tally;
use crate::entropy::tally::Stats;
use crate::error::{Error, Result};
use crate::sequence::stats;
use crate::sequence::stats::SequenceCodeStats;
use crate::sequence::tables;
use crate::sequence::tables::SequencePart;
use vstd::arithmetic::div_mod::*;
use vstd::arithmetic::mul::*;
use vstd::arithmetic::power2::*;
use vstd::prelude::*;

verus! {

/// Costs are reckoned in units of `1/2^8` bits.
pub const COST_ACCURACY_LOG: u32 = 8;

/// The cost of a symbol whose probability is `i/256`, in units of `1/2^8`
/// bits.
pub const INVERSE_PROBABILITY_LOG256: [u16; 256] = [
    0, 2048, 1792, 1642, 1536, 1453, 1386, 1329, 1280, 1236, 1197, 1162, 1130, 1100, 1073, 1047,
    1024, 1001, 980, 960, 941, 923, 906, 889, 874, 859, 844, 830, 817, 804, 791, 779, 768, 756,
    745, 734, 724, 714, 704, 694, 685, 676, 667, 658, 650, 642, 633, 626, 618, 610, 603, 595, 588,
    581, 574, 567, 561, 554, 548, 542, 535, 529, 523, 517, 512, 506, 500, 495, 489, 484, 478, 473,
    468, 463, 458, 453, 448, 443, 438, 434, 429, 424, 420, 415, 411, 407, 402, 398, 394, 390, 386,
    382, 377, 373, 370, 366, 362, 358, 354, 350, 347, 343, 339, 336, 332, 329, 325, 322, 318, 315,
    311, 308, 305, 302, 298, 295, 292, 289, 286, 282, 279, 276, 273, 270, 267, 264, 261, 258, 256,
    253, 250, 247, 244, 241, 239, 236, 233, 230, 228, 225, 222, 220, 217, 215, 212, 209, 207, 204,
    202, 199, 197, 194, 192, 190, 187, 185, 182, 180, 178, 175, 173, 171, 168, 166, 164, 162, 159,
    157, 155, 153, 151, 149, 146, 144, 142, 140, 138, 136, 134, 132, 130, 128, 126, 123, 121, 119,
    117, 115, 114, 112, 110, 108, 106, 104, 102, 100, 98, 96, 94, 93, 91, 89, 87, 85, 83, 82, 80,
    78, 76, 74, 73, 71, 69, 67, 66, 64, 62, 61, 59, 57, 55, 54, 52, 50, 49, 47, 46, 44, 42, 41, 39,
    37, 36, 34, 33, 31, 30, 28, 26, 25, 23, 22, 20, 19, 17, 16, 14, 13, 11, 10, 8, 7, 5, 4, 2, 1,
];

spec fn costs_bounded(n: nat) -> bool
    decreases n,
{
    n == 0 || (costs_bounded((n - 1) as nat) && INVERSE_PROBABILITY_LOG256@[n - 1] <= 2048)
}

proof fn lemma_costs_bounded(n: nat, i: int)
    requires
        costs_bounded(n),
        0 <= i < n,
    ensures
        INVERSE_PROBABILITY_LOG256@[i] <= 2048,
    decreases n,
{
    if i + 1 < n {
        lemma_costs_bounded((n - 1) as nat, i);
    }
}

/// No probability costs more than eight bits.
#[verifier::rlimit(30)]
pub proof fn lemma_inverse_bound(i: int)
    requires
        0 <= i < 256,
    ensures
        INVERSE_PROBABILITY_LOG256@[i] <= 2048,
{
    assert(costs_bounded(32)) by {
        reveal_with_fuel(costs_bounded, 33);
    }
    assert(costs_bounded(64)) by {
        reveal_with_fuel(costs_bounded, 33);
    }
    assert(costs_bounded(96)) by {
        reveal_with_fuel(costs_bounded, 33);
    }
    assert(costs_bounded(128)) by {
        reveal_with_fuel(costs_bounded, 33);
    }
    assert(costs_bounded(160)) by {
        reveal_with_fuel(costs_bounded, 33);
    }
    assert(costs_bounded(192)) by {
        reveal_with_fuel(costs_bounded, 33);
    }
    assert(costs_bounded(224)) by {
        reveal_with_fuel(costs_bounded, 33);
    }
    assert(costs_bounded(256)) by {
        reveal_with_fuel(costs_bounded, 33);
    }
    lemma_costs_bounded(256, i);
}

/// One count's part in a sum of costs stays in bounds.
proof fn lemma_cost_step(sum: nat, before: nat, count: u32, cost: nat, most: nat)
    requires
        sum <= most * before,
        cost <= most <= 4096,
        before + count <= u32::MAX,
    ensures
        sum + count as nat * cost <= most * (before + count as nat),
        0 <= count as nat * cost,
        sum + count as nat * cost <= 4096 * 0xFFFF_FFFF,
{
    assert(sum + count * cost <= most * (before + count)) by (nonlinear_arith)
        requires
            sum <= most * before,
            cost <= most,
            count >= 0,
    ;
    assert(most * (before + count) <= 4096 * 0xFFFF_FFFF) by (nonlinear_arith)
        requires
            most <= 4096,
            before + count <= 0xFFFF_FFFF,
            before >= 0,
            count >= 0,
    ;
    assert(0 <= count as nat * cost) by (nonlinear_arith);
}

// ---------------------------------------------------------------------------
// The format's own table.

/// The cost of the first `n` codes in the format's own table, in units of
/// `1/2^8` bits.
pub open spec fn predefined_cost_sum(part: SequencePart, counts: Seq<u32>, n: nat) -> nat
    decreases n,
{
    if n == 0 {
        0
    } else {
        let p = spread::slots(part.predefined()[n - 1]) * pow2(
            (COST_ACCURACY_LOG - part.predefined_log()) as nat,
        );
        predefined_cost_sum(part, counts, (n - 1) as nat) + counts[n - 1] as nat
            * INVERSE_PROBABILITY_LOG256@[p as int] as nat
    }
}

/// What the codes cost in the format's own table, in bits.
pub open spec fn predefined_cost(part: SequencePart, st: Stats) -> nat {
    predefined_cost_sum(part, st.counts, st.max + 1) / 256
}

spec fn shares_small(d: Seq<i16>, n: nat) -> bool
    decreases n,
{
    n == 0 || (shares_small(d, (n - 1) as nat) && spread::slots(d[n - 1]) <= 4)
}

proof fn lemma_shares_small(d: Seq<i16>, n: nat, i: int)
    requires
        shares_small(d, n),
        0 <= i < n,
    ensures
        spread::slots(d[i]) <= 4,
    decreases n,
{
    if i + 1 < n {
        lemma_shares_small(d, (n - 1) as nat, i);
    }
}

/// The format's own tables give no code more than four states.
proof fn lemma_predefined_shares(part: SequencePart, i: int)
    requires
        0 <= i < part.predefined().len(),
    ensures
        0 < spread::slots(part.predefined()[i]) <= 4,
{
    let d = part.predefined();
    assert(shares_small(d, d.len())) by {
        reveal_with_fuel(shares_small, 54);
    }
    lemma_shares_small(d, d.len(), i);
    tables::lemma_predefined(part);
    assert(d[i] >= -1 && d[i] != 0);
}

/// What the codes cost in the format's own table, in bits.
pub fn cross_entropy_cost_bits(part: SequencePart, st: &SequenceCodeStats, Ghost(codes): Ghost<
    Seq<u8>,
>) -> (r: u64)
    requires
        st@ == tally::stats_of(codes),
        codes.len() <= u32::MAX,
        st.max_symbol < part.predefined().len(),
    ensures
        r == predefined_cost(part, st@),
        r <= 8 * codes.len(),
{
    let (norm, log) = part.default_distribution();
    proof {
        tally::lemma_stats(codes);
        lemma2_to64();
    }
    let scale: u64 = mem::power_of_two(COST_ACCURACY_LOG - log);
    let mut cost: u64 = 0;
    let mut s: usize = 0;
    while s <= st.max_symbol as usize
        invariant
            s <= st.max_symbol + 1 <= part.predefined().len(),
            norm@ == part.predefined(),
            log == part.predefined_log(),
            scale == pow2((COST_ACCURACY_LOG - part.predefined_log()) as nat),
            scale == 4 || scale == 8,
            st.counts@.len() == 256,
            normalize::count_sum(st.counts@, st.max_symbol as nat + 1) == codes.len(),
            codes.len() <= u32::MAX,
            cost == predefined_cost_sum(part, st.counts@, s as nat),
            cost <= 2048 * normalize::count_sum(st.counts@, s as nat),
        decreases st.max_symbol + 1 - s,
    {
        proof {
            lemma_predefined_shares(part, s as int);
            normalize::lemma_count_sum_monotone(st.counts@, s as nat + 1, st.max_symbol as nat + 1);
        }
        let share: u64 = if norm[s] == -1 {
            1
        } else {
            norm[s] as u64
        };
        proof {
            assert(0 < share <= 4);
            assert(share as int * scale as int <= 32) by (nonlinear_arith)
                requires
                    0 <= share <= 4,
                    0 <= scale <= 8,
            ;
        }
        let p: usize = (share * scale) as usize;
        let unit: u64 = INVERSE_PROBABILITY_LOG256[p] as u64;
        proof {
            lemma_inverse_bound(p as int);
            lemma_cost_step(
                cost as nat,
                normalize::count_sum(st.counts@, s as nat),
                st.counts@[s as int],
                unit as nat,
                2048,
            );
        }
        cost = cost + st.counts[s] as u64 * unit;
        s = s + 1;
    }
    cost / 256
}

// ---------------------------------------------------------------------------
// A table made to measure.

/// The cost of the first `n` codes by their own probabilities, in units of
/// `1/2^8` bits.
pub open spec fn entropy_cost_sum(counts: Seq<u32>, n: nat, total: nat) -> nat
    decreases n,
{
    if n == 0 {
        0
    } else {
        let c = counts[n - 1] as nat;
        let p = if 256 * c / total == 0 {
            1
        } else {
            256 * c / total
        };
        entropy_cost_sum(counts, (n - 1) as nat, total) + if c == 0 {
            0
        } else {
            c * INVERSE_PROBABILITY_LOG256@[p as int] as nat
        }
    }
}

/// What the codes cost by their own probabilities, in bits.
pub open spec fn entropy_cost(st: Stats) -> nat {
    entropy_cost_sum(st.counts, st.max + 1, st.total) / 256
}

/// What the codes cost by their own probabilities, in bits. One code alone has
/// no such cost.
pub fn entropy_cost_bits(st: &SequenceCodeStats, Ghost(codes): Ghost<Seq<u8>>) -> (r: u64)
    requires
        st@ == tally::stats_of(codes),
        0 < codes.len() <= u32::MAX,
        st.most_frequent < st.total,
    ensures
        r == entropy_cost(st@),
        r <= 8 * codes.len(),
{
    proof {
        tally::lemma_stats(codes);
    }
    let total: u64 = st.total as u64;
    let mut cost: u64 = 0;
    let mut s: usize = 0;
    while s <= st.max_symbol as usize
        invariant
            s <= st.max_symbol + 1,
            st.counts@.len() == 256,
            total == st.total == codes.len(),
            0 < total <= u32::MAX,
            st.most_frequent < st.total,
            forall|k: int| 0 <= k < 256 ==> #[trigger] st.counts@[k] <= st.most_frequent,
            normalize::count_sum(st.counts@, st.max_symbol as nat + 1) == codes.len(),
            cost == entropy_cost_sum(st.counts@, s as nat, total as nat),
            cost <= 2048 * normalize::count_sum(st.counts@, s as nat),
        decreases st.max_symbol + 1 - s,
    {
        let count: u64 = st.counts[s] as u64;
        proof {
            assert(st.counts@[s as int] <= st.most_frequent);
            normalize::lemma_count_sum_monotone(st.counts@, s as nat + 1, st.max_symbol as nat + 1);
        }
        if count > 0 {
            let share: u64 = (256 * count) / total;
            proof {
                assert(share < 256) by (nonlinear_arith)
                    requires
                        share == (256 * count) / total as int,
                        count < total,
                        total > 0,
                ;
            }
            let p: usize = if share == 0 {
                1
            } else {
                share as usize
            };
            let unit: u64 = INVERSE_PROBABILITY_LOG256[p] as u64;
            proof {
                lemma_inverse_bound(p as int);
                lemma_cost_step(
                    cost as nat,
                    normalize::count_sum(st.counts@, s as nat),
                    st.counts@[s as int],
                    unit as nat,
                    2048,
                );
            }
            cost = cost + count * unit;
        }
        s = s + 1;
    }
    cost / 256
}

/// The distribution that suits counts, and its table log; `None` where one
/// code is all there is.
pub open spec fn fitted(part: SequencePart, counts: Seq<u32>, max: nat, total: nat) -> Result<
    Option<(Seq<i16>, nat)>,
> {
    let log = normalize::best_table_log(part.log_max(), total, max);
    if exists|i: int| 0 <= i < max + 1 && #[trigger] counts[i] == total {
        Ok(None)
    } else {
        match normalize::distribution(
            counts,
            max + 1,
            total,
            log,
            if total >= 2048 {
                -1
            } else {
                1
            },
        ) {
            Err(e) => Err(e),
            Ok(d) => Ok(Some((Seq::new(max + 1, |i: int| d[i] as i16), log))),
        }
    }
}

/// A fitted distribution fills its table, gives states to what is counted and
/// to nothing else, and ends with a code that has some.
pub proof fn lemma_fitted(part: SequencePart, counts: Seq<u32>, max: nat, total: nat)
    requires
        max <= part.code_max(),
        max < counts.len(),
        normalize::count_sum(counts, max + 1) == total,
        2 <= total <= u32::MAX,
        counts[max as int] > 0,
    ensures
        normalize::countable(
            counts,
            max + 1,
            total,
            normalize::best_table_log(part.log_max(), total, max),
        ),
        fitted(part, counts, max, total) matches Ok(Some((norm, log))) ==> {
            &&& norm.len() == max + 1
            &&& log == normalize::best_table_log(part.log_max(), total, max)
            &&& 5 <= log <= part.log_max()
            &&& spread::walkable(log)
            &&& spread::counts_fill(norm, max + 1, log)
            &&& forall|i: int| 0 <= i < max + 1 ==> #[trigger] norm[i] >= -1
            &&& forall|i: int| 0 <= i < max + 1 ==> (#[trigger] norm[i] == 0 <==> counts[i] == 0)
        },
{
    lemma2_to64();
    normalize::lemma_best_table_log(part.log_max(), total, max);
    normalize::lemma_counted(counts, max + 1);
    if let Ok(Some((norm, log))) = fitted(part, counts, max, total) {
        let low: int = if total >= 2048 {
            -1
        } else {
            1
        };
        let d = normalize::distribution(counts, max + 1, total, log, low)->Ok_0;
        normalize::lemma_distribution_range(counts, max + 1, total, log, low);
        assert forall|i: int| 0 <= i < max + 1 implies #[trigger] norm[i] == d[i] by {}
        normalize::law_distribution_fills(counts, max + 1, total, log, low, norm);
    }
}

/// Fits a distribution to counts.
pub fn fit_distribution(part: SequencePart, counts: &[u32], max_symbol: u8, total: usize) -> (r:
    Result<Option<(Vec<i16>, u32)>>)
    requires
        max_symbol <= part.code_max(),
        counts@.len() == 256,
        normalize::count_sum(counts@, max_symbol as nat + 1) == total,
        2 <= total <= u32::MAX,
        counts@[max_symbol as int] > 0,
    ensures
        match fitted(part, counts@, max_symbol as nat, total as nat) {
            Err(e) => r == Err::<Option<(Vec<i16>, u32)>, Error>(e),
            Ok(None) => r is Ok && r->Ok_0 is None,
            Ok(Some((norm, log))) => r matches Ok(Some(p)) && p.0@ == norm && p.1 == log,
        },
{
    proof {
        lemma_fitted(part, counts@, max_symbol as nat, total as nat);
    }
    let n: usize = max_symbol as usize + 1;
    let log: u32 = normalize::optimal_table_log(
        part.max_accuracy_log() as u32,
        total,
        max_symbol as u32,
    );
    let mut norm: Vec<i16> = vec![0i16; n];
    let fitted_log: u32 = normalize::normalize_count(
        &mut norm,
        log,
        counts,
        total,
        max_symbol as u32,
        total >= 2048,
    )?;
    if fitted_log == 0 {
        return Ok(None);
    }
    proof {
        let target = fitted(part, counts@, max_symbol as nat, total as nat);
        if let Ok(Some((expected, k))) = target {
            assert(norm@ =~= expected);
        }
    }
    Ok(Some((norm, log)))
}

/// The header of a distribution.
pub open spec fn distribution_header(norm: Seq<i16>, log: nat) -> Result<Seq<u8>> {
    match ncount::header_bits(norm, norm.len(), log, ncount::usual_room(norm.len(), log)) {
        Ok(b) => Ok(ncount::header_bytes(b)),
        Err(e) => Err(e),
    }
}

/// Writes the header of a distribution.
pub fn write_distribution(norm: &[i16], log: u32) -> (r: Result<Vec<u8>>)
    requires
        0 < norm@.len() <= 256,
        5 <= log <= 9,
        forall|i: int| 0 <= i < norm@.len() ==> #[trigger] norm@[i] >= -1,
    ensures
        match distribution_header(norm@, log as nat) {
            Ok(bytes) => r is Ok && r->Ok_0@ == bytes && bytes.len() <= 291,
            Err(e) => r == Err::<Vec<u8>, Error>(e),
        },
{
    let max_symbol: u32 = (norm.len() - 1) as u32;
    let bound: usize = ncount::ncount_write_bound(max_symbol, log)?;
    proof {
        ncount::lemma_header_fits(norm@, norm@.len(), log as nat, bound as nat);
    }
    ncount::write_ncount(bound, norm, max_symbol, log)
}

/// How many bytes the header of a fitted distribution takes.
pub open spec fn header_cost(part: SequencePart, st: Stats) -> Result<nat> {
    match fitted(part, st.counts, st.max, st.total) {
        Err(e) => Err(e),
        Ok(None) => Err(Error::Generic),
        Ok(Some((norm, log))) => match distribution_header(norm, log) {
            Ok(bytes) => Ok(bytes.len()),
            Err(e) => Err(e),
        },
    }
}

/// How many bytes the header of a fitted distribution takes.
pub fn ncount_cost_bytes(part: SequencePart, st: &SequenceCodeStats, Ghost(codes): Ghost<
    Seq<u8>,
>) -> (r: Result<usize>)
    requires
        st@ == tally::stats_of(codes),
        2 <= codes.len() <= u32::MAX,
        st.max_symbol <= part.code_max(),
    ensures
        match header_cost(part, st@) {
            Ok(n) => r is Ok && r->Ok_0 == n && n <= 291,
            Err(e) => r == Err::<usize, Error>(e),
        },
{
    proof {
        tally::lemma_stats(codes);
        lemma_fitted(part, st.counts@, st.max_symbol as nat, st.total as nat);
    }
    match fit_distribution(part, st.counts.as_slice(), st.max_symbol, st.total)? {
        None => Err(Error::Generic),
        Some((norm, log)) => {
            let header: Vec<u8> = write_distribution(norm.as_slice(), log)?;
            Ok(header.len())
        },
    }
}

// ---------------------------------------------------------------------------
// A table that is there.

/// What a code costs in the table of a distribution, in units of `1/2^8` bits.
pub open spec fn table_code_cost(norm: Seq<i16>, n: nat, log: nat, code: int) -> int {
    fse_cost::delta_cost(
        fse::transform(norm, n, log, code).delta_nb_bits as int,
        log,
        COST_ACCURACY_LOG as nat,
    )
}

/// A code that occurs costs as much as one without states.
pub open spec fn has_costly_code(norm: Seq<i16>, n: nat, log: nat, counts: Seq<u32>, max: nat) -> bool {
    exists|s: int|
        0 <= s <= max && #[trigger] counts[s] > 0 && table_code_cost(norm, n, log, s) >= (log + 1)
            * 256
}

/// The cost of the first `k` codes in the table, in units of `1/2^8` bits.
pub open spec fn table_cost_sum(norm: Seq<i16>, n: nat, log: nat, counts: Seq<u32>, k: nat) -> nat
    decreases k,
{
    if k == 0 {
        0
    } else {
        table_cost_sum(norm, n, log, counts, (k - 1) as nat) + if counts[k - 1] == 0 {
            0
        } else {
            (counts[k - 1] * table_code_cost(norm, n, log, k - 1)) as nat
        }
    }
}

/// What the codes cost in the table, in bits; without bound where the table
/// cannot write one of them.
pub open spec fn table_cost(norm: Seq<i16>, n: nat, log: nat, st: Stats) -> nat {
    if st.max >= n || has_costly_code(norm, n, log, st.counts, st.max) {
        u64::MAX as nat
    } else {
        table_cost_sum(norm, n, log, st.counts, st.max + 1) / 256
    }
}

/// What the codes cost in a table, in bits.
pub fn sequence_table_cost_bits(
    ct: &CTable,
    st: &SequenceCodeStats,
    Ghost(codes): Ghost<Seq<u8>>,
    Ghost(norm): Ghost<Seq<i16>>,
    Ghost(n): Ghost<nat>,
    Ghost(log): Ghost<nat>,
) -> (r: u64)
    requires
        st@ == tally::stats_of(codes),
        codes.len() <= u32::MAX,
        fse::encodes_with(*ct, norm, n, log),
    ensures
        r == table_cost(norm, n, log, st@),
        r == u64::MAX || r <= 11 * codes.len(),
{
    proof {
        fse::lemma_encodes_with(*ct, norm, n, log);
        fse_cost::lemma_distribution_graded(*ct, norm, n, log);
        tally::lemma_stats(codes);
        lemma2_to64();
    }
    if ct.max_symbol_value < st.max_symbol as u32 {
        return u64::MAX;
    }
    let bad_cost: u32 = (ct.table_log + 1) * 256;
    let mut cost: u64 = 0;
    let mut s: usize = 0;
    while s <= st.max_symbol as usize
        invariant
            s <= st.max_symbol + 1,
            st.max_symbol <= ct.max_symbol_value,
            ct.wf(),
            ct.graded(),
            fse::encodes_with(*ct, norm, n, log),
            ct.table_log == log,
            ct.max_symbol_value == n - 1,
            bad_cost == (ct.table_log + 1) * 256,
            pow2(8) == 256,
            st.counts@.len() == 256,
            codes.len() <= u32::MAX,
            normalize::count_sum(st.counts@, st.max_symbol as nat + 1) == codes.len(),
            forall|k: int|
                0 <= k < s && #[trigger] st.counts@[k] > 0 ==> table_code_cost(norm, n, log, k)
                    < bad_cost,
            cost == table_cost_sum(norm, n, log, st.counts@, s as nat),
            cost <= 2816 * normalize::count_sum(st.counts@, s as nat),
        decreases st.max_symbol + 1 - s,
    {
        proof {
            normalize::lemma_count_sum_monotone(st.counts@, s as nat + 1, st.max_symbol as nat + 1);
        }
        if st.counts[s] > 0 {
            let code_cost: u32 = match fse_cost::ctable_bit_cost(ct, s as u8, COST_ACCURACY_LOG) {
                Ok(c) => c,
                Err(_) => {
                    return u64::MAX;
                },
            };
            proof {
                reveal(fse::encodes_with);
                assert(ct.symbol_tt@[s as int] == fse::transform(norm, n, log, s as int));
                assert(code_cost == table_code_cost(norm, n, log, s as int));
            }
            if code_cost >= bad_cost {
                return u64::MAX;
            }
            proof {
                lemma_cost_step(
                    cost as nat,
                    normalize::count_sum(st.counts@, s as nat),
                    st.counts@[s as int],
                    code_cost as nat,
                    2816,
                );
            }
            cost = cost + st.counts[s] as u64 * code_cost as u64;
        }
        s = s + 1;
    }
    cost / 256
}

} // verus!
