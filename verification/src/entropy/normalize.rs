//! From symbol counts to a distribution that fills a table.

use crate::entropy::fse::{MIN_TABLELOG, SYMBOLVALUE_MAX, TABLELOG_MAX};
use crate::entropy::mem;
use crate::entropy::spread;
use crate::error::{Error, Result};
use vstd::arithmetic::div_mod::*;
use vstd::arithmetic::mul::*;
use vstd::arithmetic::power2::*;
use vstd::prelude::*;

verus! {

/// What the fractional part of a small probability has to beat for it to be
/// rounded up, in parts of 2^20.
pub const RTB_TABLE: [u32; 8] = [0, 473_195, 504_333, 520_860, 550_000, 700_000, 750_000, 830_000];

/// The table log that suits an input of this size over this alphabet: small
/// enough for the input, large enough for the alphabet.
pub open spec fn best_table_log(max_table_log: nat, src_size: nat, max_symbol_value: nat) -> nat {
    let cap = clamp(max_table_log, MIN_TABLELOG as nat, TABLELOG_MAX as nat);
    let size = if src_size < 2 {
        2nat
    } else {
        src_size
    };
    let source_bits = mem::floor_log2((size - 1) as nat);
    let for_source = if source_bits >= 2 {
        (source_bits - 2) as nat
    } else {
        0
    };
    let for_symbols = if max_symbol_value == 0 {
        1
    } else {
        mem::floor_log2(max_symbol_value) + 2
    };
    let fitted = if for_source < cap {
        if for_source < MIN_TABLELOG {
            MIN_TABLELOG as nat
        } else {
            for_source
        }
    } else {
        cap
    };
    if for_symbols > fitted {
        clamp(
            if for_symbols < cap {
                for_symbols
            } else {
                cap
            },
            MIN_TABLELOG as nat,
            cap,
        )
    } else {
        clamp(fitted, MIN_TABLELOG as nat, cap)
    }
}

/// `x` moved into the range from `low` to `high`.
pub open spec fn clamp(x: nat, low: nat, high: nat) -> nat {
    if x < low {
        low
    } else if x > high {
        high
    } else {
        x
    }
}

fn clamp_u32(x: u32, low: u32, high: u32) -> (r: u32)
    requires
        low <= high,
    ensures
        r == clamp(x as nat, low as nat, high as nat),
        low <= r <= high,
{
    if x < low {
        low
    } else if x > high {
        high
    } else {
        x
    }
}

/// The table log leaves a state for every symbol wherever the cap allows it.
pub proof fn lemma_best_table_log(max_table_log: nat, src_size: nat, max_symbol_value: nat)
    requires
        MIN_TABLELOG <= max_table_log <= TABLELOG_MAX,
        max_symbol_value < pow2(max_table_log),
    ensures
        max_symbol_value < pow2(best_table_log(max_table_log, src_size, max_symbol_value)),
        MIN_TABLELOG <= best_table_log(max_table_log, src_size, max_symbol_value) <= max_table_log,
{
    let log = best_table_log(max_table_log, src_size, max_symbol_value);
    lemma2_to64();
    if max_symbol_value > 0 {
        mem::lemma_floor_log2(max_symbol_value);
        let need = mem::floor_log2(max_symbol_value) + 1;
        if log < max_table_log {
            assert(log >= need);
            mem::lemma_pow2_monotone(need, log);
        }
    } else {
        lemma_pow2_pos(log);
    }
}

/// The table log leaves two states for every symbol wherever the cap allows
/// it.
pub proof fn lemma_two_states(max_table_log: nat, src_size: nat, max_symbol_value: nat)
    requires
        MIN_TABLELOG <= max_table_log <= TABLELOG_MAX,
        2 * (max_symbol_value + 1) <= pow2(max_table_log),
    ensures
        2 * (max_symbol_value + 1) <= pow2(
            best_table_log(max_table_log, src_size, max_symbol_value),
        ),
{
    let log = best_table_log(max_table_log, src_size, max_symbol_value);
    lemma2_to64();
    if max_symbol_value > 0 {
        mem::lemma_floor_log2(max_symbol_value);
        let need = mem::floor_log2(max_symbol_value) + 2;
        lemma_pow2_unfold(need);
        if log < max_table_log {
            assert(log >= need);
            mem::lemma_pow2_monotone(need, log);
        }
    } else {
        mem::lemma_pow2_monotone(5, log);
    }
}

/// A size, of which only as much is seen as the low 32 bits of its last index
/// tell.
pub open spec fn seen_size(src_size: nat) -> nat {
    if src_size == 0 {
        0
    } else {
        (src_size - 1) as nat % 0x1_0000_0000 + 1
    }
}

/// The table log that suits an input of this size over this alphabet.
pub fn optimal_table_log(max_table_log: u32, src_size: usize, max_symbol_value: u32) -> (r: u32)
    requires
        src_size <= u32::MAX || seen_size(src_size as nat) > 1,
    ensures
        r == best_table_log(
            max_table_log as nat,
            seen_size(src_size as nat),
            max_symbol_value as nat,
        ),
        src_size <= u32::MAX ==> r == best_table_log(
            max_table_log as nat,
            src_size as nat,
            max_symbol_value as nat,
        ),
        MIN_TABLELOG <= r <= TABLELOG_MAX,
{
    let size: usize = if src_size < 2 {
        2
    } else {
        src_size
    };
    let cap: u32 = clamp_u32(max_table_log, MIN_TABLELOG as u32, TABLELOG_MAX as u32);
    let source_bits: u32 = mem::highbit32(((size - 1) as u64 % 0x1_0000_0000) as u32);
    let for_source: u32 = if source_bits >= 2 {
        source_bits - 2
    } else {
        0
    };
    let for_symbols: u32 = if max_symbol_value == 0 {
        1
    } else {
        mem::highbit32(max_symbol_value) + 2
    };
    let mut log: u32 = cap;
    if for_source < log {
        log = if for_source < MIN_TABLELOG as u32 {
            MIN_TABLELOG as u32
        } else {
            for_source
        };
    }
    if for_symbols > log {
        log = if for_symbols < cap {
            for_symbols
        } else {
            cap
        };
    }
    clamp_u32(log, MIN_TABLELOG as u32, cap)
}

/// The sum of the first `n` counts.
pub open spec fn count_sum(count: Seq<u32>, n: nat) -> nat
    decreases n,
{
    if n == 0 {
        0
    } else {
        count_sum(count, (n - 1) as nat) + count[n - 1] as nat
    }
}

/// How many of the first `n` symbols are counted.
pub open spec fn symbols_counted(count: Seq<u32>, n: nat) -> nat
    decreases n,
{
    if n == 0 {
        0
    } else {
        symbols_counted(count, (n - 1) as nat) + if count[n - 1] > 0 {
            1nat
        } else {
            0
        }
    }
}

/// A count's share of the table, rounded; small shares are rounded up more
/// readily.
pub open spec fn share(c: nat, total: nat, log: nat) -> nat {
    let unit = pow2((62 - log) as nat);
    let scaled = c * (pow2(62) / total);
    let whole = scaled / unit;
    if whole < 8 && scaled % unit > pow2((42 - log) as nat) * RTB_TABLE@[whole as int] as nat {
        whole + 1
    } else {
        whole
    }
}

/// The first estimate of a normalized count.
pub open spec fn estimate(c: nat, total: nat, log: nat, low_prob: int) -> int {
    if c == 0 {
        0
    } else if c <= total / pow2(log) {
        low_prob
    } else {
        share(c, total, log) as int
    }
}

/// The states that the first estimates of `n` symbols take.
pub open spec fn estimated_slots(count: Seq<u32>, n: nat, total: nat, log: nat) -> nat
    decreases n,
{
    if n == 0 {
        0
    } else {
        let c = count[n - 1] as nat;
        estimated_slots(count, (n - 1) as nat, total, log) + if c == 0 {
            0
        } else if c <= total / pow2(log) {
            1
        } else {
            share(c, total, log)
        }
    }
}

/// The first of the first `n` symbols with the largest share, and that share;
/// symbols that are too rare for a share do not count.
pub open spec fn largest_share(count: Seq<u32>, n: nat, total: nat, log: nat) -> (nat, nat)
    decreases n,
{
    if n == 0 {
        (0, 0)
    } else {
        let (at, most) = largest_share(count, (n - 1) as nat, total, log);
        let c = count[n - 1] as nat;
        if c > total / pow2(log) && share(c, total, log) > most {
            ((n - 1) as nat, share(c, total, log))
        } else {
            (at, most)
        }
    }
}

/// The first estimates of the first `n` symbols.
pub open spec fn estimates(count: Seq<u32>, n: nat, total: nat, log: nat, low_prob: int) -> Seq<
    int,
> {
    Seq::new(n, |i: int| estimate(count[i] as nat, total, log, low_prob))
}

// ---------------------------------------------------------------------------
// The second method, for distributions whose estimates take far too much.

/// A count that is not fixed yet.
pub const NOT_YET_ASSIGNED: i16 = -2;

/// Rare symbols are fixed first.
pub open spec fn rough(c: nat, total: nat, log: nat, low_prob: int) -> int {
    if c == 0 {
        0
    } else if c <= total / pow2(log) {
        low_prob
    } else if c <= (total * 3) / pow2(log + 1) {
        1
    } else {
        NOT_YET_ASSIGNED as int
    }
}

/// The rare symbols fixed, the others open.
pub open spec fn rough_counts(count: Seq<u32>, n: nat, total: nat, log: nat, low_prob: int) -> Seq<
    int,
> {
    Seq::new(n, |i: int| rough(count[i] as nat, total, log, low_prob))
}

/// How many symbols hold a state for good.
pub open spec fn fixed_slots(norm: Seq<int>, n: nat) -> nat
    decreases n,
{
    if n == 0 {
        0
    } else {
        fixed_slots(norm, (n - 1) as nat) + if norm[n - 1] != 0 && norm[n - 1]
            != NOT_YET_ASSIGNED {
            1nat
        } else {
            0
        }
    }
}

/// What the symbols that are still open were counted.
pub open spec fn open_total(norm: Seq<int>, count: Seq<u32>, n: nat) -> nat
    decreases n,
{
    if n == 0 {
        0
    } else {
        open_total(norm, count, (n - 1) as nat) + if norm[n - 1] == NOT_YET_ASSIGNED {
            count[n - 1] as nat
        } else {
            0
        }
    }
}

/// Open symbols that were counted at most `low` times fixed to one state.
pub open spec fn fix_below(norm: Seq<int>, count: Seq<u32>, low: nat) -> Seq<int> {
    Seq::new(
        norm.len(),
        |i: int|
            if norm[i] == NOT_YET_ASSIGNED && count[i] as nat <= low {
                1
            } else {
                norm[i]
            },
    )
}

/// The counts after rare symbols were fixed, a second time where the open ones
/// would otherwise get too much each.
pub open spec fn fixed_counts(count: Seq<u32>, n: nat, total: nat, log: nat, low_prob: int) -> Seq<
    int,
> {
    let a = rough_counts(count, n, total, log, low_prob);
    let states = (pow2(log) - fixed_slots(a, n)) as nat;
    let left = open_total(a, count, n);
    if states > 0 && left / states > (total * 3) / pow2(log + 1) {
        fix_below(a, count, (left * 3) / (states * 2))
    } else {
        a
    }
}

/// The first of the first `n` symbols that was counted most often, and how
/// often.
pub open spec fn most_counted(count: Seq<u32>, n: nat) -> (nat, nat)
    decreases n,
{
    if n == 0 {
        (0, 0)
    } else {
        let (at, most) = most_counted(count, (n - 1) as nat);
        if count[n - 1] as nat > most {
            ((n - 1) as nat, count[n - 1] as nat)
        } else {
            (at, most)
        }
    }
}

/// How many of the first `n` counts are positive.
pub open spec fn positive_before(norm: Seq<int>, n: nat) -> nat
    decreases n,
{
    if n == 0 {
        0
    } else {
        positive_before(norm, (n - 1) as nat) + if norm[n - 1] > 0 {
            1nat
        } else {
            0
        }
    }
}

/// `states` dealt out one by one, in turn, to the symbols with positive
/// counts.
pub open spec fn dealt(norm: Seq<int>, states: nat) -> Seq<int> {
    let k = positive_before(norm, norm.len());
    Seq::new(
        norm.len(),
        |i: int|
            if norm[i] > 0 {
                norm[i] + states / k + if positive_before(norm, i as nat) < states % k {
                    1int
                } else {
                    0
                }
            } else {
                norm[i]
            },
    )
}

/// Where the symbol `i` starts on a line on which the open symbols share
/// `states` states of `2^(62 - log)` points each.
pub open spec fn line_start(norm: Seq<int>, count: Seq<u32>, log: nat, states: nat, i: nat) -> nat {
    let unit = pow2((62 - log) as nat);
    let mid = (unit / 2 - 1) as nat;
    mid + open_total(norm, count, i) * ((unit * states + mid) / open_total(
        norm,
        count,
        norm.len(),
    ))
}

/// The states that the open symbol `i` crosses on the line.
pub open spec fn line_states(norm: Seq<int>, count: Seq<u32>, log: nat, states: nat, i: int) -> int {
    let unit = pow2((62 - log) as nat);
    line_start(norm, count, log, states, (i + 1) as nat) / unit - line_start(
        norm,
        count,
        log,
        states,
        i as nat,
    ) / unit
}

/// The distribution that the second method gives.
pub open spec fn second_method(count: Seq<u32>, n: nat, total: nat, log: nat, low_prob: int) -> Result<
    Seq<int>,
> {
    let b = fixed_counts(count, n, total, log, low_prob);
    let states = (pow2(log) - fixed_slots(b, n)) as nat;
    let a = rough_counts(count, n, total, log, low_prob);
    if fixed_slots(a, n) == pow2(log) {
        Ok(a)
    } else if fixed_slots(b, n) == n {
        let at = most_counted(count, n).0 as int;
        Ok(b.update(at, b[at] + states))
    } else if open_total(b, count, n) == 0 {
        Ok(dealt(b, states))
    } else if exists|i: int|
        0 <= i < n && b[i] == NOT_YET_ASSIGNED && #[trigger] line_states(b, count, log, states, i)
            < 1 {
        Err(Error::Generic)
    } else {
        Ok(
            Seq::new(
                n,
                |i: int|
                    if b[i] == NOT_YET_ASSIGNED {
                        line_states(b, count, log, states, i)
                    } else {
                        b[i]
                    },
            ),
        )
    }
}

/// The distribution of an input of `total` symbols: the estimates, with the
/// largest one taking up the difference, unless it would have to give up half
/// of its states or more.
pub open spec fn distribution(count: Seq<u32>, n: nat, total: nat, log: nat, low_prob: int) -> Result<
    Seq<int>,
> {
    let first = estimates(count, n, total, log, low_prob);
    let left = pow2(log) - estimated_slots(count, n, total, log);
    let at = largest_share(count, n, total, log).0 as int;
    if -left >= first[at] / 2 {
        second_method(count, n, total, log, low_prob)
    } else {
        Ok(first.update(at, first[at] + left))
    }
}

/// What the counts of an input have to meet: they add up to its size, which
/// fits in 32 bits, and the table has a state for every symbol that is counted.
pub open spec fn countable(count: Seq<u32>, n: nat, total: nat, log: nat) -> bool {
    &&& 0 < n <= 256
    &&& n <= count.len()
    &&& count_sum(count, n) == total
    &&& 2 <= total <= u32::MAX
    &&& MIN_TABLELOG <= log <= TABLELOG_MAX
    &&& symbols_counted(count, n) <= pow2(log)
}

// ---------------------------------------------------------------------------
// Bounds.

pub proof fn lemma_count_sum_monotone(count: Seq<u32>, m: nat, n: nat)
    requires
        m <= n,
    ensures
        count_sum(count, m) <= count_sum(count, n),
    decreases n,
{
    if m < n {
        lemma_count_sum_monotone(count, m, (n - 1) as nat);
    }
}

proof fn lemma_single_count(count: Seq<u32>, n: nat, i: int)
    requires
        0 <= i < n,
    ensures
        count[i] as nat <= count_sum(count, n),
{
    lemma_count_sum_monotone(count, i as nat + 1, n);
}

/// Two counts are at most all of them.
pub proof fn lemma_two_counts(count: Seq<u32>, n: nat, i: int, j: int)
    requires
        0 <= i < j < n,
    ensures
        count[i] as nat + count[j] as nat <= count_sum(count, n),
{
    lemma_count_sum_monotone(count, i as nat + 1, j as nat);
    lemma_count_sum_monotone(count, j as nat + 1, n);
}

/// A share is at least one state and at most all of them.
proof fn lemma_share(c: nat, total: nat, log: nat)
    requires
        0 < c < total <= u32::MAX,
        MIN_TABLELOG <= log <= TABLELOG_MAX,
        c > total / pow2(log),
    ensures
        1 <= share(c, total, log) <= pow2(log),
        c * (pow2(62) / total) < pow2(62),
        pow2(62) / total >= 1,
{
    lemma2_to64();
    lemma2_to64_rest();
    let step = pow2(62) / total;
    lemma_fundamental_div_mod(pow2(62) as int, total as int);
    assert(step >= 1 && c * step < pow2(62) && c * step >= step) by (nonlinear_arith)
        requires
            0 < c < total,
            pow2(62) == total * step + pow2(62) as int % total as int,
            0 <= pow2(62) as int % total as int,
            pow2(62) as int % (total as int) < total,
            pow2(62) >= 2 * total,
    ;
    let unit = pow2((62 - log) as nat);
    lemma_pow2_adds((62 - log) as nat, log);
    lemma_pow2_pos((62 - log) as nat);
    lemma_multiply_divide_lt((c * step) as int, unit as int, pow2(log) as int);
    lemma_fundamental_div_mod((c * step) as int, unit as int);
    if (c * step) / unit == 0 {
        assert(unit * 0 == 0);
        assert((c * step) % unit > 0);
        assert(pow2((42 - log) as nat) * RTB_TABLE@[0] as nat == 0) by (nonlinear_arith)
            requires
                RTB_TABLE@[0] == 0,
        ;
    }
}

proof fn lemma_estimated_bound(count: Seq<u32>, n: nat, total: nat, log: nat, m: nat)
    requires
        countable(count, n, total, log),
        forall|i: int| 0 <= i < n ==> #[trigger] count[i] != total,
        m <= n,
    ensures
        estimated_slots(count, m, total, log) <= 512 * m,
        largest_share(count, m, total, log).1 <= pow2(log),
        m > 0 ==> largest_share(count, m, total, log).0 < m,
        largest_share(count, m, total, log).1 > 0 ==> {
            let at = largest_share(count, m, total, log).0 as int;
            &&& count[at] > total / pow2(log)
            &&& largest_share(count, m, total, log).1 == share(count[at] as nat, total, log)
        },
        largest_share(count, m, total, log).1 == 0 ==> {
            &&& largest_share(count, m, total, log).0 == 0
            &&& forall|i: int| 0 <= i < m ==> (#[trigger] count[i]) as nat <= total / pow2(log)
        },
    decreases m,
{
    lemma2_to64();
    mem::lemma_pow2_monotone(log, 9);
    if m > 0 {
        lemma_estimated_bound(count, n, total, log, (m - 1) as nat);
        lemma_single_count(count, n, m - 1);
        let c = count[m - 1] as nat;
        if c > total / pow2(log) {
            lemma_share(c, total, log);
        }
    }
}

/// The share of a count.
fn share_of(c: u32, total: usize, table_log: u32) -> (r: u32)
    requires
        0 < c < total <= u32::MAX,
        MIN_TABLELOG <= table_log <= TABLELOG_MAX,
        c as nat > total as nat / pow2(table_log as nat),
    ensures
        r == share(c as nat, total as nat, table_log as nat),
        1 <= r <= 512,
{
    let ghost log = table_log as nat;
    proof {
        lemma_share(c as nat, total as nat, log);
        lemma2_to64();
        lemma2_to64_rest();
        mem::lemma_pow2_monotone(log, 9);
        mem::lemma_pow2_monotone((42 - log) as nat, 37);
        lemma_pow2_pos((62 - log) as nat);
        mem::lemma_pow2_monotone(log, 62);
        mem::lemma_pow2_monotone((62 - log) as nat, 62);
    }
    let step: u64 = mem::power_of_two(62) / total as u64;
    let scaled: u64 = c as u64 * step;
    let unit: u64 = mem::power_of_two(62 - table_log);
    let whole: u64 = scaled / unit;
    if whole < 8 {
        let beat: u64 = RTB_TABLE[whole as usize] as u64;
        proof {
            let v = pow2((42 - log) as nat);
            assert(v * beat <= 137438953472 * 830000) by (nonlinear_arith)
                requires
                    v <= 137438953472,
                    beat <= 830000,
            ;
        }
        let to_beat: u64 = mem::power_of_two(42 - table_log) * beat;
        if scaled % unit > to_beat {
            return (whole + 1) as u32;
        }
    }
    whole as u32
}

/// `list` with its first entries replaced.
pub open spec fn with_front(list: Seq<i16>, front: Seq<i16>) -> Seq<i16> {
    front + list.skip(front.len() as int)
}

/// Replaces the first entries of a list.
pub fn put_front(list: &mut Vec<i16>, front: &[i16])
    requires
        front@.len() <= old(list)@.len(),
    ensures
        final(list)@ == with_front(old(list)@, front@),
{
    let ghost before = list@;
    let mut i: usize = 0;
    proof {
        assert(list@ =~= front@.take(0) + before.skip(0));
    }
    while i < front.len()
        invariant
            i <= front@.len() <= before.len(),
            list@ == front@.take(i as int) + before.skip(i as int),
        decreases front@.len() - i,
    {
        list.set(i, front[i]);
        i = i + 1;
        proof {
            assert(list@ =~= front@.take(i as int) + before.skip(i as int));
        }
    }
    proof {
        assert(front@.take(i as int) =~= front@);
    }
}

/// Turns symbol counts into a distribution that fills a table of
/// `2^table_log` states, stored in the first `max_symbol_value + 1` entries of
/// `normalized`. Returns the table log, or zero where one symbol is all there
/// is; the entries before that symbol's are zeros. An error changes nothing.
pub fn normalize_count(
    normalized: &mut Vec<i16>,
    table_log: u32,
    count: &[u32],
    total: usize,
    max_symbol_value: u32,
    use_low_prob_count: bool,
) -> (r: Result<u32>)
    requires
        max_symbol_value <= SYMBOLVALUE_MAX && max_symbol_value < old(normalized)@.len()
            && max_symbol_value < count@.len() && total >= 2 && MIN_TABLELOG <= table_log
            <= TABLELOG_MAX ==> countable(
            count@,
            max_symbol_value as nat + 1,
            total as nat,
            table_log as nat,
        ),
    ensures
        final(normalized)@.len() == old(normalized)@.len(),
        r is Err ==> final(normalized)@ == old(normalized)@,
        if max_symbol_value > SYMBOLVALUE_MAX || max_symbol_value >= old(normalized)@.len()
            || max_symbol_value >= count@.len() {
            r == Err::<u32, Error>(Error::MaxSymbolValueTooLarge)
        } else if total < 2 {
            r == Err::<u32, Error>(
                Error::InvalidParameter("FSE normalization requires at least two symbols"),
            )
        } else if table_log < MIN_TABLELOG || table_log > TABLELOG_MAX {
            r == Err::<u32, Error>(Error::TableLogTooLarge)
        } else {
            let n = max_symbol_value as nat + 1;
            let low_prob = if use_low_prob_count {
                -1int
            } else {
                1
            };
            if exists|i: int| 0 <= i < n && #[trigger] count@[i] == total {
                &&& r == Ok::<u32, Error>(0)
                &&& forall|i: int|
                    0 <= i < n && #[trigger] count@[i] == total ==> final(normalized)@
                        == with_front(old(normalized)@, Seq::new(i as nat, |j: int| 0i16))
            } else {
                match distribution(count@, n, total as nat, table_log as nat, low_prob) {
                    Err(e) => r == Err::<u32, Error>(e),
                    Ok(d) => {
                        &&& r == Ok::<u32, Error>(table_log)
                        &&& forall|i: int| 0 <= i < n ==> #[trigger] final(normalized)@[i] == d[i]
                        &&& forall|i: int|
                            n <= i < final(normalized)@.len() ==> #[trigger] final(normalized)@[i]
                                == old(normalized)@[i]
                        &&& spread::counts_fill(final(normalized)@, n, table_log as nat)
                        &&& forall|i: int| 0 <= i < n ==> #[trigger] final(normalized)@[i] >= -1
                        &&& forall|i: int|
                            0 <= i < n ==> (#[trigger] final(normalized)@[i] == 0 <==> count@[i]
                                == 0)
                    },
                }
            }
        },
{
    if max_symbol_value as usize > SYMBOLVALUE_MAX || max_symbol_value as usize >= normalized.len()
        || max_symbol_value as usize >= count.len() {
        return Err(Error::MaxSymbolValueTooLarge);
    }
    if total < 2 {
        return Err(
            Error::InvalidParameter("FSE normalization requires at least two symbols"),
        );
    }
    if (table_log as usize) < MIN_TABLELOG || table_log as usize > TABLELOG_MAX {
        return Err(Error::TableLogTooLarge);
    }
    let alphabet: usize = max_symbol_value as usize + 1;
    let mut only: usize = 0;
    while only < alphabet && count[only] as usize != total
        invariant
            only <= alphabet <= count@.len(),
            forall|i: int| 0 <= i < only ==> #[trigger] count@[i] != total,
        decreases alphabet - only,
    {
        only = only + 1;
    }
    if only < alphabet {
        let zeros: Vec<i16> = vec![0i16; only];
        put_front(normalized, zeros.as_slice());
        proof {
            assert forall|i: int| 0 <= i < alphabet && #[trigger] count@[i] == total implies i
                == only by {
                if i > only {
                    lemma_two_counts(count@, alphabet as nat, only as int, i);
                }
            }
            assert(zeros@ =~= Seq::new(only as nat, |j: int| 0i16));
            assert(count@[only as int] == total);
        }
        return Ok(0);
    }
    let mut work: Vec<i16> = vec![0i16; alphabet];
    let log: u32 = distribute(&mut work, table_log, count, total, alphabet, use_low_prob_count)?;
    put_front(normalized, work.as_slice());
    proof {
        let low_prob = if use_low_prob_count {
            -1int
        } else {
            1
        };
        let n = alphabet as nat;
        let d = distribution(count@, n, total as nat, table_log as nat, low_prob)->Ok_0;
        assert forall|i: int| 0 <= i < n implies #[trigger] normalized@[i] == d[i] by {
            assert(normalized@[i] == work@[i]);
        }
        law_distribution_fills(
            count@,
            n,
            total as nat,
            table_log as nat,
            low_prob,
            normalized@,
        );
    }
    Ok(log)
}

/// Works a distribution out in a list of its own.
fn distribute(
    normalized: &mut Vec<i16>,
    table_log: u32,
    count: &[u32],
    total: usize,
    alphabet: usize,
    use_low_prob_count: bool,
) -> (r: Result<u32>)
    requires
        countable(count@, alphabet as nat, total as nat, table_log as nat),
        old(normalized)@.len() == alphabet,
    ensures
        final(normalized)@.len() == old(normalized)@.len(),
        ({
            let n = alphabet as nat;
            let low_prob = if use_low_prob_count {
                -1int
            } else {
                1
            };
            if exists|i: int| 0 <= i < n && #[trigger] count@[i] == total {
                r == Ok::<u32, Error>(0)
            } else {
                match distribution(count@, n, total as nat, table_log as nat, low_prob) {
                    Err(e) => r == Err::<u32, Error>(e),
                    Ok(d) => {
                        &&& r == Ok::<u32, Error>(table_log)
                        &&& forall|i: int| 0 <= i < n ==> #[trigger] final(normalized)@[i] == d[i]
                    },
                }
            }
        }),
{
    let ghost n = alphabet as nat;
    let ghost log = table_log as nat;
    let low_prob_count: i16 = if use_low_prob_count {
        -1
    } else {
        1
    };
    let ghost low_prob = low_prob_count as int;
    let ghost before = normalized@;
    proof {
        lemma2_to64();
        mem::lemma_pow2_monotone(log, 9);
        mem::lemma_pow2_monotone(5, log);
    }
    let size: usize = mem::power_of_two(table_log) as usize;
    let low_threshold: usize = total / size;
    let mut taken: i32 = 0;
    let mut largest: usize = 0;
    let mut largest_p: u32 = 0;
    let mut symbol: usize = 0;
    while symbol < alphabet
        invariant
            symbol <= alphabet == n,
            n <= normalized@.len() == before.len(),
            n <= count@.len(),
            before == old(normalized)@,
            log == table_log,
            countable(count@, n, total as nat, log),
            size == pow2(log),
            low_threshold == total as nat / pow2(log),
            low_prob == low_prob_count,
            low_prob == (if use_low_prob_count {
                -1int
            } else {
                1
            }),
            forall|i: int| 0 <= i < symbol ==> #[trigger] count@[i] != total,
            taken == estimated_slots(count@, symbol as nat, total as nat, log),
            0 <= taken <= 512 * symbol,
            (largest as nat, largest_p as nat) == largest_share(
                count@,
                symbol as nat,
                total as nat,
                log,
            ),
            largest < alphabet,
            largest_p <= 512,
            forall|i: int| 0 <= i < symbol ==> #[trigger] normalized@[i] == estimate(
                count@[i] as nat,
                total as nat,
                log,
                low_prob,
            ) && -1 <= normalized@[i] <= 512,
            forall|i: int| n <= i < before.len() ==> #[trigger] normalized@[i] == before[i],
        decreases alphabet - symbol,
    {
        let c: u32 = count[symbol];
        proof {
            lemma_single_count(count@, n, symbol as int);
        }
        if c == 0 {
            normalized.set(symbol, 0);
        } else if c as usize == total {
            return Ok(0);
        } else if c as usize <= low_threshold {
            normalized.set(symbol, low_prob_count);
            taken = taken + 1;
        } else {
            let p: u32 = share_of(c, total, table_log);
            if p > largest_p {
                largest_p = p;
                largest = symbol;
            }
            normalized.set(symbol, p as i16);
            taken = taken + p as i32;
        }
        symbol = symbol + 1;
    }
    let left: i32 = size as i32 - taken;
    let top: i32 = normalized[largest] as i32;
    let half: i32 = if top < 0 {
        -1
    } else {
        top / 2
    };
    proof {
        assert forall|i: int| 0 <= i < n implies #[trigger] count@[i] != total by {}
        lemma_estimated_bound(count@, n, total as nat, log, n);
        let first = estimates(count@, n, total as nat, log, low_prob);
        assert(first[largest as int] == top);
    }
    if -left >= half {
        normalize_count_m2(normalized, table_log, count, total, alphabet, low_prob_count)?;
    } else {
        let fixed: i16 = (top + left) as i16;
        normalized.set(largest, fixed);
    }
    Ok(table_log)
}

fn normalize_count_m2(
    normalized: &mut Vec<i16>,
    table_log: u32,
    count: &[u32],
    total: usize,
    alphabet: usize,
    low_prob_count: i16,
) -> (r: Result<()>)
    requires
        countable(count@, alphabet as nat, total as nat, table_log as nat),
        alphabet <= old(normalized)@.len(),
        low_prob_count == 1 || low_prob_count == -1,
    ensures
        final(normalized)@.len() == old(normalized)@.len(),
        match second_method(
            count@,
            alphabet as nat,
            total as nat,
            table_log as nat,
            low_prob_count as int,
        ) {
            Err(e) => r == Err::<(), Error>(e),
            Ok(d) => {
                &&& r is Ok
                &&& forall|i: int|
                    0 <= i < alphabet ==> #[trigger] final(normalized)@[i] == d[i]
                &&& forall|i: int|
                    alphabet <= i < final(normalized)@.len() ==> #[trigger] final(normalized)@[i]
                        == old(normalized)@[i]
            },
        },
{
    let ghost n = alphabet as nat;
    let ghost log = table_log as nat;
    let ghost low_prob = low_prob_count as int;
    let ghost before = normalized@;
    let ghost a = rough_counts(count@, n, total as nat, log, low_prob);
    proof {
        lemma2_to64();
        mem::lemma_pow2_monotone(log, 9);
        mem::lemma_pow2_monotone(5, log);
        lemma_pow2_unfold(log + 1);
    }
    let size: usize = mem::power_of_two(table_log) as usize;
    let low_threshold: usize = total / size;
    let low_one: u64 = (total as u64 * 3) / (2 * size as u64);
    let mut distributed: usize = 0;
    let mut left: usize = 0;
    let mut symbol: usize = 0;
    while symbol < alphabet
        invariant
            symbol <= alphabet == n,
            n <= normalized@.len() == before.len(),
            countable(count@, n, total as nat, log),
            a == rough_counts(count@, n, total as nat, log, low_prob),
            low_prob == low_prob_count,
            low_prob == 1 || low_prob == -1,
            low_threshold == total as nat / pow2(log),
            low_one == (total as nat * 3) / pow2(log + 1),
            distributed == fixed_slots(a, symbol as nat) <= symbol,
            left == open_total(a, count@, symbol as nat) <= count_sum(count@, symbol as nat),
            forall|i: int| 0 <= i < symbol ==> #[trigger] normalized@[i] == a[i],
            forall|i: int| n <= i < before.len() ==> #[trigger] normalized@[i] == before[i],
        decreases alphabet - symbol,
    {
        let c: u32 = count[symbol];
        proof {
            lemma_count_sum_monotone(count@, symbol as nat + 1, n);
            assert(a[symbol as int] == rough(c as nat, total as nat, log, low_prob));
        }
        if c == 0 {
            normalized.set(symbol, 0);
        } else if c as usize <= low_threshold {
            normalized.set(symbol, low_prob_count);
            distributed = distributed + 1;
        } else if c as u64 <= low_one {
            normalized.set(symbol, 1);
            distributed = distributed + 1;
        } else {
            normalized.set(symbol, NOT_YET_ASSIGNED);
            left = left + c as usize;
        }
        symbol = symbol + 1;
    }
    proof {
        lemma_fixed_are_counted(a, count@, n);
    }
    if distributed == size {
        return Ok(());
    }
    let ghost b = fixed_counts(count@, n, total as nat, log, low_prob);
    if (left / (size - distributed)) as u64 > low_one {
        let low: u64 = (left as u64 * 3) / ((size - distributed) as u64 * 2);
        distributed = 0;
        left = 0;
        symbol = 0;
        while symbol < alphabet
            invariant
                symbol <= alphabet == n,
                n <= normalized@.len() == before.len(),
                countable(count@, n, total as nat, log),
                a == rough_counts(count@, n, total as nat, log, low_prob),
                low_prob == 1 || low_prob == -1,
                b == fix_below(a, count@, low as nat),
                distributed == fixed_slots(b, symbol as nat) <= symbol,
                left == open_total(b, count@, symbol as nat) <= count_sum(count@, symbol as nat),
                forall|i: int| 0 <= i < symbol ==> #[trigger] normalized@[i] == b[i],
                forall|i: int| symbol <= i < n ==> #[trigger] normalized@[i] == a[i],
                forall|i: int| n <= i < before.len() ==> #[trigger] normalized@[i] == before[i],
            decreases alphabet - symbol,
        {
            let c: u32 = count[symbol];
            proof {
                lemma_count_sum_monotone(count@, symbol as nat + 1, n);
                assert(normalized@[symbol as int] == a[symbol as int]);
            }
            if normalized[symbol] == NOT_YET_ASSIGNED && c as u64 <= low {
                normalized.set(symbol, 1);
            }
            if normalized[symbol] == NOT_YET_ASSIGNED {
                left = left + c as usize;
            } else if normalized[symbol] != 0 {
                distributed = distributed + 1;
            }
            symbol = symbol + 1;
        }
    }
    proof {
        lemma_fixed_are_counted(b, count@, n);
    }
    let states: usize = size - distributed;
    proof {
        assert forall|i: int| 0 <= i < n implies #[trigger] normalized@[i] == b[i] by {}
        assert(distributed == fixed_slots(b, n));
        assert(left == open_total(b, count@, n));
        assert(forall|i: int| 0 <= i < n ==> -2 <= #[trigger] b[i] <= 1);
    }
    if distributed == alphabet {
        give_to_most_counted(normalized, count, alphabet, states, Ghost(b));
        return Ok(());
    }
    if left == 0 {
        deal_in_turn(normalized, alphabet, states, Ghost(b));
        return Ok(());
    }
    share_on_line(normalized, count, alphabet, table_log, states, left, Ghost(b))
}

fn give_to_most_counted(
    normalized: &mut Vec<i16>,
    count: &[u32],
    alphabet: usize,
    states: usize,
    b: Ghost<Seq<int>>,
)
    requires
        0 < alphabet <= old(normalized)@.len(),
        alphabet <= count@.len(),
        states <= 512,
        b@.len() == alphabet,
        forall|i: int| 0 <= i < alphabet ==> #[trigger] old(normalized)@[i] == b@[i],
        forall|i: int| 0 <= i < alphabet ==> -2 <= #[trigger] b@[i] <= 1,
    ensures
        final(normalized)@.len() == old(normalized)@.len(),
        ({
            let at = most_counted(count@, alphabet as nat).0 as int;
            &&& forall|i: int|
                0 <= i < alphabet ==> #[trigger] final(normalized)@[i] == b@.update(
                    at,
                    b@[at] + states,
                )[i]
            &&& forall|i: int|
                alphabet <= i < final(normalized)@.len() ==> #[trigger] final(normalized)@[i]
                    == old(normalized)@[i]
        }),
{
    let mut at: usize = 0;
    let mut most: u32 = 0;
    let mut symbol: usize = 0;
    while symbol < alphabet
        invariant
            symbol <= alphabet <= count@.len(),
            at < alphabet,
            (at as nat, most as nat) == most_counted(count@, symbol as nat),
        decreases alphabet - symbol,
    {
        if count[symbol] > most {
            at = symbol;
            most = count[symbol];
        }
        symbol = symbol + 1;
    }
    proof {
        assert(normalized@[at as int] == b@[at as int]);
    }
    let more: i16 = normalized[at] + states as i16;
    normalized.set(at, more);
}

fn deal_in_turn(normalized: &mut Vec<i16>, alphabet: usize, states: usize, b: Ghost<Seq<int>>)
    requires
        0 < alphabet <= old(normalized)@.len(),
        alphabet <= 256,
        states <= 512,
        b@.len() == alphabet,
        forall|i: int| 0 <= i < alphabet ==> #[trigger] old(normalized)@[i] == b@[i],
        forall|i: int| 0 <= i < alphabet ==> -2 <= #[trigger] b@[i] <= 1,
    ensures
        final(normalized)@.len() == old(normalized)@.len(),
        forall|i: int|
            0 <= i < alphabet ==> #[trigger] final(normalized)@[i] == dealt(b@, states as nat)[i],
        forall|i: int|
            alphabet <= i < final(normalized)@.len() ==> #[trigger] final(normalized)@[i] == old(
                normalized,
            )@[i],
{
    let ghost before = normalized@;
    let mut positive: usize = 0;
    let mut symbol: usize = 0;
    while symbol < alphabet
        invariant
            symbol <= alphabet <= normalized@.len(),
            alphabet <= 256,
            b@.len() == alphabet,
            forall|i: int| 0 <= i < alphabet ==> #[trigger] normalized@[i] == b@[i],
            positive == positive_before(b@, symbol as nat) <= symbol,
        decreases alphabet - symbol,
    {
        if normalized[symbol] > 0 {
            positive = positive + 1;
        }
        symbol = symbol + 1;
    }
    let ghost k = positive as nat;
    let mut rank: usize = 0;
    symbol = 0;
    while symbol < alphabet
        invariant
            symbol <= alphabet <= normalized@.len(),
            normalized@.len() == before.len(),
            alphabet <= 256,
            states <= 512,
            b@.len() == alphabet,
            k == positive == positive_before(b@, b@.len()),
            rank == positive_before(b@, symbol as nat) <= symbol,
            forall|i: int| 0 <= i < alphabet ==> -2 <= #[trigger] b@[i] <= 1,
            forall|i: int| 0 <= i < symbol ==> #[trigger] normalized@[i] == dealt(
                b@,
                states as nat,
            )[i],
            forall|i: int| symbol <= i < alphabet ==> #[trigger] normalized@[i] == b@[i],
            forall|i: int| alphabet <= i < before.len() ==> #[trigger] normalized@[i] == before[i],
        decreases alphabet - symbol,
    {
        if normalized[symbol] > 0 {
            proof {
                lemma_positive_monotone(b@, symbol as nat + 1, b@.len());
                lemma_div_nonincreasing(states as int, positive as int);
            }
            let extra: usize = if rank < states % positive {
                1
            } else {
                0
            };
            let more: i16 = normalized[symbol] + (states / positive) as i16 + extra as i16;
            normalized.set(symbol, more);
            rank = rank + 1;
        }
        symbol = symbol + 1;
    }
}

proof fn lemma_positive_monotone(norm: Seq<int>, m: nat, n: nat)
    requires
        m <= n,
    ensures
        positive_before(norm, m) <= positive_before(norm, n),
    decreases n,
{
    if m < n {
        lemma_positive_monotone(norm, m, (n - 1) as nat);
    }
}

proof fn lemma_open_monotone(norm: Seq<int>, count: Seq<u32>, m: nat, n: nat)
    requires
        m <= n,
    ensures
        open_total(norm, count, m) <= open_total(norm, count, n),
    decreases n,
{
    if m < n {
        lemma_open_monotone(norm, count, m, (n - 1) as nat);
    }
}

/// The line ends just short of one state more than there are.
proof fn lemma_line(norm: Seq<int>, count: Seq<u32>, log: nat, states: nat, i: nat)
    requires
        i <= norm.len(),
        0 < open_total(norm, count, norm.len()) <= u32::MAX,
        MIN_TABLELOG <= log <= TABLELOG_MAX,
        states <= pow2(log),
    ensures
        ({
            let unit = pow2((62 - log) as nat);
            &&& line_start(norm, count, log, states, i) < unit * (states + 1)
            &&& line_start(norm, count, log, states, 0) < unit
            &&& line_start(norm, count, log, states, norm.len()) >= unit * states
            &&& unit * (states + 1) <= 2 * pow2(62)
            &&& unit >= pow2(53)
        }),
{
    let unit = pow2((62 - log) as nat) as int;
    let mid = unit / 2 - 1;
    let total = open_total(norm, count, norm.len()) as int;
    lemma2_to64();
    lemma2_to64_rest();
    mem::lemma_pow2_monotone(53, (62 - log) as nat);
    lemma_pow2_adds((62 - log) as nat, log);
    lemma_pow2_adds((61 - log) as nat, 1);
    lemma_open_monotone(norm, count, i, norm.len());
    let part = open_total(norm, count, i) as int;
    let step = (unit * states + mid) / total;
    lemma_fundamental_div_mod(unit * states + mid, total);
    assert(part * step <= total * step && total * step == unit * states + mid - (unit * states
        + mid) % total) by (nonlinear_arith)
        requires
            0 <= part <= total,
            0 <= step,
            unit * states + mid == total * step + (unit * states + mid) % total,
    ;
    assert(unit * (states + 1) == unit * states + unit && unit * (states + 1) <= 2 * (unit * pow2(
        log,
    ))) by (nonlinear_arith)
        requires
            0 <= states <= pow2(log),
            pow2(log) >= 1,
            unit >= 0,
    ;
    assert(unit == 2 * pow2((61 - log) as nat));
    assert(0 * step == 0) by (nonlinear_arith);
    lemma_mod_bound(unit * states + mid, total);
}

fn share_on_line(
    normalized: &mut Vec<i16>,
    count: &[u32],
    alphabet: usize,
    table_log: u32,
    states: usize,
    left: usize,
    b: Ghost<Seq<int>>,
) -> (r: Result<()>)
    requires
        0 < alphabet <= old(normalized)@.len(),
        alphabet <= count@.len(),
        b@.len() == alphabet,
        MIN_TABLELOG <= table_log <= TABLELOG_MAX,
        states <= pow2(table_log as nat),
        0 < left == open_total(b@, count@, alphabet as nat) <= u32::MAX,
        forall|i: int| 0 <= i < alphabet ==> #[trigger] old(normalized)@[i] == b@[i],
    ensures
        final(normalized)@.len() == old(normalized)@.len(),
        if exists|i: int|
            0 <= i < alphabet && b@[i] == NOT_YET_ASSIGNED && #[trigger] line_states(
                b@,
                count@,
                table_log as nat,
                states as nat,
                i,
            ) < 1 {
            r == Err::<(), Error>(Error::Generic)
        } else {
            &&& r is Ok
            &&& forall|i: int|
                0 <= i < alphabet ==> #[trigger] final(normalized)@[i] == if b@[i]
                    == NOT_YET_ASSIGNED {
                    line_states(b@, count@, table_log as nat, states as nat, i)
                } else {
                    b@[i]
                }
            &&& forall|i: int|
                alphabet <= i < final(normalized)@.len() ==> #[trigger] final(normalized)@[i]
                    == old(normalized)@[i]
        },
{
    let ghost before = normalized@;
    let ghost log = table_log as nat;
    proof {
        lemma2_to64();
        lemma2_to64_rest();
        mem::lemma_pow2_monotone(log, 9);
        lemma_line(b@, count@, log, states as nat, 0);
    }
    let unit: u64 = mem::power_of_two(62 - table_log);
    let mid: u64 = unit / 2 - 1;
    proof {
        lemma_pow2_adds((62 - log) as nat, log);
        assert(unit * states <= unit * pow2(log)) by (nonlinear_arith)
            requires
                0 <= states <= pow2(log),
                unit >= 0,
        ;
        assert(0 <= unit * states) by (nonlinear_arith)
            requires
                0 <= states,
                unit >= 0,
        ;
    }
    let step: u64 = (unit * states as u64 + mid) / left as u64;
    let mut position: u64 = mid;
    let mut symbol: usize = 0;
    proof {
        assert(0 * step == 0) by (nonlinear_arith);
    }
    while symbol < alphabet
        invariant
            symbol <= alphabet <= normalized@.len(),
            normalized@.len() == before.len() == old(normalized)@.len(),
            before == old(normalized)@,
            alphabet <= count@.len(),
            b@.len() == alphabet,
            log == table_log,
            MIN_TABLELOG <= log <= TABLELOG_MAX,
            states <= pow2(log),
            pow2(log) <= 512,
            0 < left == open_total(b@, count@, alphabet as nat) <= u32::MAX,
            unit == pow2((62 - log) as nat),
            mid == unit / 2 - 1,
            step == (unit * states + mid) / left as int,
            pow2(62) == 4611686018427387904,
            position == line_start(b@, count@, log, states as nat, symbol as nat),
            forall|i: int|
                0 <= i < symbol ==> b@[i] != NOT_YET_ASSIGNED || #[trigger] line_states(
                    b@,
                    count@,
                    log,
                    states as nat,
                    i,
                ) >= 1,
            forall|i: int|
                0 <= i < symbol ==> #[trigger] normalized@[i] == if b@[i] == NOT_YET_ASSIGNED {
                    line_states(b@, count@, log, states as nat, i)
                } else {
                    b@[i]
                },
            forall|i: int| symbol <= i < alphabet ==> #[trigger] normalized@[i] == b@[i],
            forall|i: int| alphabet <= i < before.len() ==> #[trigger] normalized@[i] == before[i],
        decreases alphabet - symbol,
    {
        let ghost open = open_total(b@, count@, symbol as nat) as int;
        if normalized[symbol] == NOT_YET_ASSIGNED {
            let ghost c = count@[symbol as int] as int;
            proof {
                lemma_line(b@, count@, log, states as nat, symbol as nat + 1);
                lemma_line(b@, count@, log, states as nat, symbol as nat);
                assert((open + c) * step == open * step + c * step) by (nonlinear_arith);
                assert(0 <= c * step) by (nonlinear_arith)
                    requires
                        0 <= c,
                        0 <= step,
                ;
                assert(0 <= open * step) by (nonlinear_arith)
                    requires
                        0 <= open,
                        0 <= step,
                ;
                lemma_multiply_divide_lt(
                    line_start(b@, count@, log, states as nat, symbol as nat + 1) as int,
                    unit as int,
                    states + 1,
                );
                lemma_div_is_ordered(
                    position as int,
                    line_start(b@, count@, log, states as nat, symbol as nat + 1) as int,
                    unit as int,
                );
                lemma_div_pos_is_pos(position as int, unit as int);
            }
            let end: u64 = position + count[symbol] as u64 * step;
            let weight: u64 = end / unit - position / unit;
            proof {
                assert(weight == line_states(b@, count@, log, states as nat, symbol as int));
            }
            if weight < 1 {
                return Err(Error::Generic);
            }
            normalized.set(symbol, weight as i16);
            position = end;
        }
        symbol = symbol + 1;
    }
    Ok(())
}

// ---------------------------------------------------------------------------
// The distribution fills the table.

spec fn states_of(x: int) -> nat {
    if x == -1 {
        1
    } else if x > 0 {
        x as nat
    } else {
        0
    }
}

spec fn states_before(d: Seq<int>, n: nat) -> nat
    decreases n,
{
    if n == 0 {
        0
    } else {
        states_before(d, (n - 1) as nat) + states_of(d[n - 1])
    }
}

proof fn lemma_states_update(d: Seq<int>, at: int, v: int, n: nat)
    requires
        0 <= at < d.len(),
        n <= d.len(),
    ensures
        states_before(d.update(at, v), n) == states_before(d, n) + (if at < n {
            states_of(v) - states_of(d[at])
        } else {
            0
        }),
    decreases n,
{
    if n > 0 {
        lemma_states_update(d, at, v, (n - 1) as nat);
    }
}

proof fn lemma_states_are_slots(d: Seq<int>, norm: Seq<i16>, n: nat)
    requires
        n <= d.len(),
        n <= norm.len(),
        forall|i: int| 0 <= i < n ==> #[trigger] norm[i] == d[i],
    ensures
        spread::slots_before(norm, n) == states_before(d, n),
    decreases n,
{
    if n > 0 {
        lemma_states_are_slots(d, norm, (n - 1) as nat);
        assert(norm[n - 1] == d[n - 1]);
    }
}

/// Where no symbol is counted more often than a state's worth, every state has
/// a counted symbol of its own.
proof fn lemma_all_rare(count: Seq<u32>, n: nat, total: nat, log: nat)
    requires
        countable(count, n, total, log),
        forall|i: int| 0 <= i < n ==> (#[trigger] count[i]) as nat <= total / pow2(log),
    ensures
        symbols_counted(count, n) == pow2(log),
{
    let q = total / pow2(log);
    lemma_pow2_pos(log);
    lemma_rare_sum(count, n, q);
    let k = symbols_counted(count, n);
    lemma_fundamental_div_mod(total as int, pow2(log) as int);
    if k < pow2(log) {
        assert(k * q < total) by (nonlinear_arith)
            requires
                k <= pow2(log) - 1,
                total == pow2(log) * q + total as int % pow2(log) as int,
                total as int % pow2(log) as int >= 0,
                total > 0,
                q >= 0,
                q > 0 || total > 0,
                k >= 0,
        ;
    }
}

proof fn lemma_rare_sum(count: Seq<u32>, n: nat, q: nat)
    requires
        forall|i: int| 0 <= i < n ==> (#[trigger] count[i]) as nat <= q,
    ensures
        count_sum(count, n) <= symbols_counted(count, n) * q,
    decreases n,
{
    if n > 0 {
        lemma_rare_sum(count, (n - 1) as nat, q);
        let k = symbols_counted(count, (n - 1) as nat);
        assert((k + 1) * q == k * q + q) by (nonlinear_arith);
        assert(count[n - 1] as nat <= q);
    }
}

/// No more symbols are counted than there are.
pub proof fn lemma_counted(count: Seq<u32>, n: nat)
    ensures
        symbols_counted(count, n) <= n,
    decreases n,
{
    if n > 0 {
        lemma_counted(count, (n - 1) as nat);
    }
}

proof fn lemma_most_counted(count: Seq<u32>, n: nat)
    ensures
        n > 0 ==> most_counted(count, n).0 < n,
        most_counted(count, n).1 > 0 ==> count[most_counted(count, n).0 as int] as nat
            == most_counted(count, n).1,
        most_counted(count, n).1 == 0 ==> most_counted(count, n).0 == 0,
        forall|i: int| 0 <= i < n ==> (#[trigger] count[i]) as nat <= most_counted(count, n).1,
    decreases n,
{
    if n > 0 {
        lemma_most_counted(count, (n - 1) as nat);
    }
}

proof fn lemma_estimate_states(count: Seq<u32>, n: nat, total: nat, log: nat, low_prob: int, m: nat)
    requires
        countable(count, n, total, log),
        forall|i: int| 0 <= i < n ==> #[trigger] count[i] != total,
        low_prob == 1 || low_prob == -1,
        m <= n,
    ensures
        states_before(estimates(count, n, total, log, low_prob), m) == estimated_slots(
            count,
            m,
            total,
            log,
        ),
        forall|i: int|
            0 <= i < m ==> {
                let x = #[trigger] estimates(count, n, total, log, low_prob)[i];
                &&& x >= -1
                &&& x == 0 <==> count[i] == 0
            },
    decreases m,
{
    if m > 0 {
        lemma_estimate_states(count, n, total, log, low_prob, (m - 1) as nat);
        lemma_single_count(count, n, m - 1);
        let c = count[m - 1] as nat;
        if c > total / pow2(log) {
            assert(total / pow2(log) >= 0) by {
                lemma_pow2_pos(log);
                lemma_div_pos_is_pos(total as int, pow2(log) as int);
            }
            lemma_share(c, total, log);
        }
    }
}

/// Fixed counts are -1, 0, 1 or open; the fixed ones take one state each.
proof fn lemma_fixed_states(b: Seq<int>, n: nat)
    requires
        n <= b.len(),
        forall|i: int| 0 <= i < n ==> -2 <= #[trigger] b[i] <= 1,
    ensures
        states_before(b, n) == fixed_slots(b, n),
        fixed_slots(b, n) <= n,
        fixed_slots(b, n) == n ==> forall|i: int|
            0 <= i < n ==> #[trigger] b[i] != 0 && b[i] != NOT_YET_ASSIGNED,
    decreases n,
{
    if n > 0 {
        lemma_fixed_states(b, (n - 1) as nat);
    }
}

proof fn lemma_open(b: Seq<int>, count: Seq<u32>, n: nat)
    requires
        forall|i: int| 0 <= i < n && #[trigger] b[i] == NOT_YET_ASSIGNED ==> count[i] != 0,
    ensures
        open_total(b, count, n) <= count_sum(count, n),
        open_total(b, count, n) == 0 ==> forall|i: int|
            0 <= i < n ==> #[trigger] b[i] != NOT_YET_ASSIGNED,
    decreases n,
{
    if n > 0 {
        lemma_open(b, count, (n - 1) as nat);
    }
}

proof fn lemma_dealt_states(b: Seq<int>, states: nat, m: nat)
    requires
        m <= b.len(),
        positive_before(b, b.len()) > 0,
    ensures
        ({
            let k = positive_before(b, b.len());
            let p = positive_before(b, m);
            states_before(dealt(b, states), m) == states_before(b, m) + p * (states / k) + if p
                < states % k {
                p
            } else {
                states % k
            }
        }),
    decreases m,
{
    let k = positive_before(b, b.len());
    let each = states / k;
    lemma_mod_bound(states as int, k as int);
    lemma_div_pos_is_pos(states as int, k as int);
    if m == 0 {
        assert(0 * each == 0) by (nonlinear_arith);
    } else {
        lemma_dealt_states(b, states, (m - 1) as nat);
        let p = positive_before(b, (m - 1) as nat);
        assert((p + 1) * each == p * each + each) by (nonlinear_arith);
    }
}

proof fn lemma_no_positive(b: Seq<int>, n: nat)
    ensures
        positive_before(b, n) == 0 ==> forall|i: int| 0 <= i < n ==> #[trigger] b[i] <= 0,
    decreases n,
{
    if n > 0 {
        lemma_no_positive(b, (n - 1) as nat);
    }
}

proof fn lemma_line_states(
    b: Seq<int>,
    d: Seq<int>,
    count: Seq<u32>,
    log: nat,
    states: nat,
    m: nat,
)
    requires
        m <= b.len(),
        d.len() == b.len(),
        forall|i: int| 0 <= i < b.len() ==> -2 <= #[trigger] b[i] <= 1,
        forall|i: int|
            0 <= i < b.len() && b[i] == NOT_YET_ASSIGNED ==> #[trigger] line_states(
                b,
                count,
                log,
                states,
                i,
            ) >= 1,
        forall|i: int|
            0 <= i < b.len() ==> #[trigger] d[i] == if b[i] == NOT_YET_ASSIGNED {
                line_states(b, count, log, states, i)
            } else {
                b[i]
            },
    ensures
        ({
            let unit = pow2((62 - log) as nat);
            states_before(d, m) == fixed_slots(b, m) + line_start(b, count, log, states, m) / unit
                - line_start(b, count, log, states, 0) / unit
        }),
    decreases m,
{
    lemma_pow2_pos((62 - log) as nat);
    if m > 0 {
        let unit = pow2((62 - log) as nat);
        let k = (m - 1) as nat;
        lemma_line_states(b, d, count, log, states, k);
        assert(-2 <= b[m - 1] <= 1);
        assert(states_before(d, m) == states_before(d, k) + states_of(d[m - 1]));
        if b[m - 1] == NOT_YET_ASSIGNED {
            assert(line_states(b, count, log, states, m - 1) >= 1);
            assert(d[m - 1] == line_states(b, count, log, states, m - 1));
            assert((m - 1 + 1) as nat == m);
            assert(d[m - 1] == line_start(b, count, log, states, m) / unit - line_start(
                b,
                count,
                log,
                states,
                k,
            ) / unit);
            assert(fixed_slots(b, m) == fixed_slots(b, k));
            assert(states_of(d[m - 1]) == d[m - 1]);
        } else {
            assert(line_start(b, count, log, states, m) == line_start(b, count, log, states, k));
            assert(d[m - 1] == b[m - 1]);
            assert(states_of(b[m - 1]) == fixed_slots(b, m) - fixed_slots(b, k));
        }
    }
}

proof fn lemma_fixed_counts(count: Seq<u32>, n: nat, total: nat, log: nat, low_prob: int)
    requires
        countable(count, n, total, log),
        low_prob == 1 || low_prob == -1,
    ensures
        ({
            let b = fixed_counts(count, n, total, log, low_prob);
            &&& b.len() == n
            &&& forall|i: int| 0 <= i < n ==> -2 <= #[trigger] b[i] <= 1
            &&& forall|i: int| 0 <= i < n ==> (#[trigger] b[i] == 0 <==> count[i] == 0)
            &&& forall|i: int|
                0 <= i < n && #[trigger] b[i] == -1 ==> count[i] as nat <= total / pow2(log)
        }),
{
}

/// The numbers of a distribution: they give every counted symbol at least one
/// state, no other symbol any, and all states away.
proof fn lemma_distribution(count: Seq<u32>, n: nat, total: nat, log: nat, low_prob: int)
    requires
        countable(count, n, total, log),
        forall|i: int| 0 <= i < n ==> #[trigger] count[i] != total,
        low_prob == 1 || low_prob == -1,
    ensures
        distribution(count, n, total, log, low_prob) matches Ok(d) ==> {
            &&& d.len() == n
            &&& states_before(d, n) == pow2(log)
            &&& forall|i: int| 0 <= i < n ==> #[trigger] d[i] >= -1
            &&& forall|i: int| 0 <= i < n ==> (#[trigger] d[i] == 0 <==> count[i] == 0)
        },
{
    let first = estimates(count, n, total, log, low_prob);
    let left = pow2(log) - estimated_slots(count, n, total, log);
    let at = largest_share(count, n, total, log).0 as int;
    lemma_estimate_states(count, n, total, log, low_prob, n);
    lemma_estimated_bound(count, n, total, log, n);
    lemma_pow2_pos(log);
    if -left >= first[at] / 2 {
        lemma_second_method(count, n, total, log, low_prob);
    } else {
        if largest_share(count, n, total, log).1 == 0 {
            lemma_all_rare(count, n, total, log);
            lemma_rare_estimates(count, n, total, log);
            assert(false);
        }
        assert(first[at] == share(count[at] as nat, total, log));
        lemma_states_update(first, at, first[at] + left, n);
        let d = distribution(count, n, total, log, low_prob)->Ok_0;
        assert forall|i: int| 0 <= i < n implies #[trigger] d[i] >= -1 && (d[i] == 0 <==> count[i]
            == 0) by {
            assert(first[i] >= -1);
        }
    }
}

proof fn lemma_state_count(d: Seq<int>, n: nat, i: int)
    requires
        0 <= i < n,
    ensures
        d[i] <= states_before(d, n),
    decreases n,
{
    if i < n - 1 {
        lemma_state_count(d, (n - 1) as nat, i);
    }
}

/// The numbers of a distribution are small.
pub proof fn lemma_distribution_range(count: Seq<u32>, n: nat, total: nat, log: nat, low_prob: int)
    requires
        countable(count, n, total, log),
        forall|i: int| 0 <= i < n ==> #[trigger] count[i] != total,
        low_prob == 1 || low_prob == -1,
    ensures
        distribution(count, n, total, log, low_prob) matches Ok(d) ==> d.len() == n && forall|i: int|
            0 <= i < n ==> -1 <= #[trigger] d[i] <= 512,
{
    lemma_distribution(count, n, total, log, low_prob);
    lemma2_to64();
    mem::lemma_pow2_monotone(log, 9);
    if let Ok(d) = distribution(count, n, total, log, low_prob) {
        assert forall|i: int| 0 <= i < n implies -1 <= #[trigger] d[i] <= 512 by {
            lemma_state_count(d, n, i);
        }
    }
}

/// A distribution gives every counted symbol at least one state, no other
/// symbol any, and all states away.
pub proof fn law_distribution_fills(
    count: Seq<u32>,
    n: nat,
    total: nat,
    log: nat,
    low_prob: int,
    norm: Seq<i16>,
)
    requires
        countable(count, n, total, log),
        forall|i: int| 0 <= i < n ==> #[trigger] count[i] != total,
        low_prob == 1 || low_prob == -1,
        n <= norm.len(),
        distribution(count, n, total, log, low_prob) matches Ok(d) && forall|i: int|
            0 <= i < n ==> #[trigger] norm[i] == d[i],
    ensures
        spread::counts_fill(norm, n, log),
        forall|i: int| 0 <= i < n ==> #[trigger] norm[i] >= -1,
        forall|i: int| 0 <= i < n ==> (#[trigger] norm[i] == 0 <==> count[i] == 0),
{
    let d = distribution(count, n, total, log, low_prob)->Ok_0;
    lemma_distribution(count, n, total, log, low_prob);
    assert forall|i: int| 0 <= i < n implies #[trigger] norm[i] >= -1 && (norm[i] == 0 <==> count[i]
        == 0) by {
        assert(norm[i] == d[i]);
    }
    lemma_states_are_slots(d, norm, n);
}

proof fn lemma_rare_estimates(count: Seq<u32>, n: nat, total: nat, log: nat)
    requires
        forall|i: int| 0 <= i < n ==> (#[trigger] count[i]) as nat <= total / pow2(log),
    ensures
        estimated_slots(count, n, total, log) == symbols_counted(count, n),
    decreases n,
{
    if n > 0 {
        lemma_rare_estimates(count, (n - 1) as nat, total, log);
        assert(count[n - 1] as nat <= total / pow2(log));
    }
}

proof fn lemma_second_method(count: Seq<u32>, n: nat, total: nat, log: nat, low_prob: int)
    requires
        countable(count, n, total, log),
        low_prob == 1 || low_prob == -1,
    ensures
        second_method(count, n, total, log, low_prob) matches Ok(d) ==> {
            &&& d.len() == n
            &&& states_before(d, n) == pow2(log)
            &&& forall|i: int| 0 <= i < n ==> #[trigger] d[i] >= -1
            &&& forall|i: int| 0 <= i < n ==> (#[trigger] d[i] == 0 <==> count[i] == 0)
        },
{
    let a = rough_counts(count, n, total, log, low_prob);
    let b = fixed_counts(count, n, total, log, low_prob);
    let states = (pow2(log) - fixed_slots(b, n)) as nat;
    lemma_fixed_counts(count, n, total, log, low_prob);
    lemma_fixed_states(a, n);
    lemma_fixed_states(b, n);
    lemma_fixed_are_counted(b, count, n);
    lemma_open(b, count, n);
    if fixed_slots(a, n) == pow2(log) {
        assert forall|i: int| 0 <= i < n implies #[trigger] a[i] != NOT_YET_ASSIGNED by {
            if a[i] == NOT_YET_ASSIGNED {
                lemma_one_open(a, count, n, i);
            }
        }
    } else if fixed_slots(b, n) == n {
        let at = most_counted(count, n).0 as int;
        lemma_most_counted(count, n);
        lemma_states_update(b, at, b[at] + states, n);
        if b[at] == -1 {
            lemma_all_rare(count, n, total, log);
            lemma_rough_all_fixed(count, n, total, log, low_prob, n);
        }
    } else if open_total(b, count, n) == 0 {
        if positive_before(b, n) == 0 {
            lemma_no_positive(b, n);
            assert forall|i: int| 0 <= i < n implies (#[trigger] count[i]) as nat <= total / pow2(
                log,
            ) by {
                assert(b[i] <= 0);
                lemma_pow2_pos(log);
                lemma_div_pos_is_pos(total as int, pow2(log) as int);
            }
            lemma_all_rare(count, n, total, log);
            lemma_rough_all_fixed(count, n, total, log, low_prob, n);
        }
        let k = positive_before(b, n);
        lemma_dealt_states(b, states, n);
        lemma_fundamental_div_mod(states as int, k as int);
        lemma_mod_bound(states as int, k as int);
        lemma_div_pos_is_pos(states as int, k as int);
    } else if exists|i: int|
        0 <= i < n && b[i] == NOT_YET_ASSIGNED && #[trigger] line_states(b, count, log, states, i)
            < 1 {
    } else {
        let d = second_method(count, n, total, log, low_prob)->Ok_0;
        let unit = pow2((62 - log) as nat);
        lemma_line_states(b, d, count, log, states, n);
        lemma_line(b, count, log, states, n);
        let end = line_start(b, count, log, states, n) as int;
        let start = line_start(b, count, log, states, 0) as int;
        lemma_pow2_pos((62 - log) as nat);
        assert(unit * (states + 1) == unit * states + unit) by (nonlinear_arith);
        lemma_fundamental_div_mod_converse(end, unit as int, states as int, end - unit * states);
        lemma_basic_div(start, unit as int);
        assert forall|i: int| 0 <= i < n implies #[trigger] d[i] >= -1 && (d[i] == 0 <==> count[i]
            == 0) by {
            assert(-2 <= b[i] <= 1);
            if b[i] == NOT_YET_ASSIGNED {
                assert(line_states(b, count, log, states, i) >= 1);
            }
        }
    }
}

/// Where all symbols are rare, those that are counted are fixed at once.
proof fn lemma_rough_all_fixed(
    count: Seq<u32>,
    n: nat,
    total: nat,
    log: nat,
    low_prob: int,
    m: nat,
)
    requires
        low_prob == 1 || low_prob == -1,
        m <= n,
        forall|i: int| 0 <= i < n ==> (#[trigger] count[i]) as nat <= total / pow2(log),
    ensures
        fixed_slots(rough_counts(count, n, total, log, low_prob), m) == symbols_counted(count, m),
    decreases m,
{
    if m > 0 {
        lemma_rough_all_fixed(count, n, total, log, low_prob, (m - 1) as nat);
        assert(count[m - 1] as nat <= total / pow2(log));
    }
}

/// Only counted symbols are fixed.
proof fn lemma_fixed_are_counted(b: Seq<int>, count: Seq<u32>, n: nat)
    requires
        forall|i: int| 0 <= i < n && #[trigger] b[i] != 0 ==> count[i] != 0,
    ensures
        fixed_slots(b, n) <= symbols_counted(count, n),
    decreases n,
{
    if n > 0 {
        lemma_fixed_are_counted(b, count, (n - 1) as nat);
    }
}

// ---------------------------------------------------------------------------
// The distribution exists.

/// An open symbol that is counted for a state or more crosses one on the line.
proof fn lemma_line_crosses(b: Seq<int>, count: Seq<u32>, log: nat, states: nat, i: int)
    requires
        0 <= i < b.len(),
        b[i] == NOT_YET_ASSIGNED,
        MIN_TABLELOG <= log <= TABLELOG_MAX,
        0 < open_total(b, count, b.len()) <= u32::MAX,
        count[i] as nat * states >= open_total(b, count, b.len()),
    ensures
        line_states(b, count, log, states, i) >= 1,
{
    let unit = pow2((62 - log) as nat) as int;
    let left = open_total(b, count, b.len()) as int;
    let c = count[i] as int;
    let mid = unit / 2 - 1;
    let step = (unit * states + mid) / left;
    lemma2_to64();
    lemma2_to64_rest();
    mem::lemma_pow2_monotone(53, (62 - log) as nat);
    lemma_fundamental_div_mod(unit * states + mid, left);
    lemma_mod_bound(unit * states + mid, left);
    assert(left * (c * step) >= left * unit) by (nonlinear_arith)
        requires
            left * step >= unit * states + mid - left + 1,
            mid + 1 >= left,
            c * states >= left,
            c >= 0,
            unit >= 0,
    ;
    assert(c * step >= unit) by (nonlinear_arith)
        requires
            left * (c * step) >= left * unit,
            left > 0,
    ;
    let before = open_total(b, count, i as nat) as int;
    assert(open_total(b, count, (i + 1) as nat) == before + c);
    let from = line_start(b, count, log, states, i as nat) as int;
    let to = line_start(b, count, log, states, (i + 1) as nat) as int;
    assert((before + c) * step == before * step + c * step) by (nonlinear_arith);
    assert(to == from + c * step);
    lemma_div_is_ordered(from + unit, to, unit);
    lemma_div_plus_one(from, unit);
}

/// Symbols that are fixed a second time are not open any more; the others are
/// as they were.
proof fn lemma_fix_below(a: Seq<int>, count: Seq<u32>, low: nat, m: nat)
    requires
        m <= a.len(),
    ensures
        open_total(fix_below(a, count, low), count, m) <= open_total(a, count, m),
        fixed_slots(fix_below(a, count, low), m) >= fixed_slots(a, m),
    decreases m,
{
    if m > 0 {
        lemma_fix_below(a, count, low, (m - 1) as nat);
    }
}

/// Where a symbol is open, fewer are fixed than are counted.
proof fn lemma_one_open(b: Seq<int>, count: Seq<u32>, n: nat, i: int)
    requires
        0 <= i < n <= b.len(),
        b[i] == NOT_YET_ASSIGNED,
        forall|k: int| 0 <= k < n && #[trigger] b[k] != 0 ==> count[k] != 0,
    ensures
        fixed_slots(b, n) < symbols_counted(count, n),
    decreases n,
{
    if i < n - 1 {
        lemma_one_open(b, count, (n - 1) as nat, i);
    } else {
        lemma_fixed_are_counted(b, count, (n - 1) as nat);
    }
}

/// Where symbols are fixed a second time, the states that are left for the
/// open ones are still two thirds of what they were.
proof fn lemma_states_left(p: int, n: int, total: int, left: int, fixed: int, fixed_then: int)
    requires
        2 * n <= p,
        0 < total,
        0 <= left <= total,
        0 <= fixed <= fixed_then < n,
        left / (p - fixed) > (total * 3) / (2 * p),
    ensures
        3 * (p - fixed_then) >= 2 * (p - fixed),
{
    let states = p - fixed;
    let low = (total * 3) / (2 * p);
    lemma_fundamental_div_mod(left, states);
    lemma_mod_bound(left, states);
    lemma_fundamental_div_mod(total * 3, 2 * p);
    lemma_mod_bound(total * 3, 2 * p);
    lemma_div_pos_is_pos(total * 3, 2 * p);
    let q = left / states;
    assert(2 * p * (low + 1) > total * 3) by (nonlinear_arith)
        requires
            total * 3 == (2 * p) * low + (total * 3) % (2 * p),
            (total * 3) % (2 * p) < 2 * p,
    ;
    assert(total >= states * (low + 1)) by (nonlinear_arith)
        requires
            total >= left,
            left == states * q + left % states,
            left % states >= 0,
            q >= low + 1,
            states > 0,
    ;
    assert(2 * p >= 3 * states) by (nonlinear_arith)
        requires
            2 * p * (low + 1) > total * 3,
            total >= states * (low + 1),
            low >= 0,
    {
        if 2 * p < 3 * states {
            assert(2 * p * (low + 1) <= 3 * (states * (low + 1)));
        }
    }
}

/// Every open symbol crosses a state, where the table has two states for every
/// symbol that is counted.
proof fn lemma_second_method_exists(count: Seq<u32>, n: nat, total: nat, log: nat, low_prob: int)
    requires
        countable(count, n, total, log),
        2 * symbols_counted(count, n) <= pow2(log),
        low_prob == 1 || low_prob == -1,
    ensures
        second_method(count, n, total, log, low_prob) is Ok,
{
    let a = rough_counts(count, n, total, log, low_prob);
    let b = fixed_counts(count, n, total, log, low_prob);
    let p = pow2(log);
    let before = (p - fixed_slots(a, n)) as nat;
    let left = open_total(a, count, n);
    let states = (p - fixed_slots(b, n)) as nat;
    lemma_pow2_pos(log);
    lemma_pow2_unfold(log + 1);
    lemma_fixed_counts(count, n, total, log, low_prob);
    lemma_fixed_are_counted(a, count, n);
    lemma_fixed_are_counted(b, count, n);
    lemma_open(a, count, n);
    lemma_open(b, count, n);
    let low_one = (total * 3) / pow2(log + 1);
    let low_two = (left * 3) / (before * 2);
    if open_total(b, count, n) > 0 {
        assert forall|i: int| 0 <= i < n && b[i] == NOT_YET_ASSIGNED implies #[trigger] line_states(
            b,
            count,
            log,
            states,
            i,
        ) >= 1 by {
            let c = count[i] as int;
            assert(a[i] == NOT_YET_ASSIGNED);
            assert(c > low_one);
            lemma_fundamental_div_mod(left as int, before as int);
            lemma_mod_bound(left as int, before as int);
            if left / before > low_one {
                assert(b == fix_below(a, count, low_two));
                lemma_fix_below(a, count, low_two, n);
                lemma_one_open(b, count, n, i);
                lemma_states_left(
                    p as int,
                    symbols_counted(count, n) as int,
                    total as int,
                    left as int,
                    fixed_slots(a, n) as int,
                    fixed_slots(b, n) as int,
                );
                assert(c > low_two);
                lemma_fundamental_div_mod((left * 3) as int, (before * 2) as int);
                lemma_mod_bound((left * 3) as int, (before * 2) as int);
                assert(c * states >= left) by (nonlinear_arith)
                    requires
                        c >= low_two + 1,
                        left * 3 == (before * 2) * low_two + (left * 3) as int % (before * 2) as int,
                        (left * 3) as int % ((before * 2) as int) < before * 2,
                        3 * states >= 2 * before,
                        before > 0,
                        low_two >= 0,
                ;
            } else {
                assert(b == a);
                let q = left / before;
                assert(c * states >= left) by (nonlinear_arith)
                    requires
                        c >= q + 1,
                        left == before * q + left as int % before as int,
                        left as int % (before as int) < before,
                        states == before,
                ;
            }
            lemma_line_crosses(b, count, log, states, i);
        }
    }
}

/// Counts have a distribution wherever the table has two states for every
/// symbol that is counted.
pub proof fn law_distribution_exists(count: Seq<u32>, n: nat, total: nat, log: nat, low_prob: int)
    requires
        countable(count, n, total, log),
        2 * symbols_counted(count, n) <= pow2(log),
        low_prob == 1 || low_prob == -1,
    ensures
        distribution(count, n, total, log, low_prob) is Ok,
{
    lemma_second_method_exists(count, n, total, log, low_prob);
}

} // verus!
