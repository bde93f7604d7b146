//! Laws of normalizing counts: distributions are proportional to them.

use crate::entropy::mem;
use crate::entropy::normalize;
use crate::entropy::normalize::NOT_YET_ASSIGNED;
use crate::error::Error;
use vstd::arithmetic::div_mod::*;
use vstd::arithmetic::power2::*;
use vstd::prelude::*;

verus! {

/// A symbol's share of the states is what its share of the input comes to,
/// within two states: it is less than one state above, and less than two below.
pub proof fn law_share_is_proportional(c: nat, total: nat, log: nat)
    requires
        0 < c <= total <= u32::MAX,
        5 <= log <= 9,
    ensures
        normalize::share(c, total, log) * total < c * pow2(log) + total,
        c * pow2(log) < (normalize::share(c, total, log) + 1) * total + total,
{
    lemma2_to64();
    lemma2_to64_rest();
    let size = pow2(log) as int;
    let unit = pow2((62 - log) as nat) as int;
    let step = (pow2(62) / total) as int;
    let scaled = c * step;
    let whole = scaled / unit;
    let s = normalize::share(c, total, log) as int;
    lemma_pow2_adds((62 - log) as nat, log);
    mem::lemma_pow2_monotone(53, (62 - log) as nat);
    lemma_fundamental_div_mod(pow2(62) as int, total as int);
    lemma_fundamental_div_mod(scaled, unit);
    let off = pow2(62) as int % total as int;
    let rest = scaled % unit;
    let t = total as int;
    let k = c as int;
    assert(unit * size == t * step + off);
    assert(scaled * t == k * (unit * size) - k * off) by (nonlinear_arith)
        requires
            scaled == k * step,
            unit * size == t * step + off,
    ;
    assert(0 <= k * off <= unit * t) by (nonlinear_arith)
        requires
            0 <= off < t,
            0 < k <= unit,
    ;
    assert(scaled * t == unit * (whole * t) + rest * t) by (nonlinear_arith)
        requires
            scaled == unit * whole + rest,
    ;
    assert(k * (unit * size) == unit * (k * size)) by (nonlinear_arith);
    assert(0 <= rest * t < unit * t) by (nonlinear_arith)
        requires
            0 <= rest < unit,
            t > 0,
    ;
    // unit * (k * size) == unit * (whole * t) + rest * t + k * off
    assert(whole * t <= k * size) by (nonlinear_arith)
        requires
            unit * (k * size) == unit * (whole * t) + rest * t + k * off,
            rest * t >= 0,
            k * off >= 0,
            unit > 0,
    ;
    assert(k * size < (whole + 2) * t) by (nonlinear_arith)
        requires
            unit * (k * size) == unit * (whole * t) + rest * t + k * off,
            rest * t < unit * t,
            k * off <= unit * t,
            unit > 0,
    ;
    assert((whole + 1) * t == whole * t + t) by (nonlinear_arith);
    assert((whole + 2) * t == (whole + 1) * t + t) by (nonlinear_arith);
    assert(s == whole || s == whole + 1);
    if s == whole + 1 {
        assert(rest > 0) by {
            assert(pow2((42 - log) as nat) * normalize::RTB_TABLE@[whole] as nat >= 0)
                by (nonlinear_arith);
        }
        assert(whole * t < k * size) by (nonlinear_arith)
            requires
                unit * (k * size) == unit * (whole * t) + rest * t + k * off,
                rest > 0,
                t > 0,
                k * off >= 0,
                unit > 0,
        ;
        assert((whole + 1 + 1) * t == (whole + 2) * t);
    }
    assert(c * pow2(log) == k * size);
}

/// Small shares are rounded up where what is left over beats a threshold that
/// grows with the share, in millionths of a state (of 2^20 parts): a lone state
/// is hard to lose, the eighth is easy. Larger ones are rounded down.
pub proof fn law_share_is_rounded(c: nat, total: nat, log: nat, s: nat)
    requires
        0 < c <= total <= u32::MAX,
        5 <= log <= 9,
        s == normalize::share(c, total, log),
    ensures
        ({
            let unit = pow2((62 - log) as nat);
            let part = pow2((42 - log) as nat);
            let scaled = c * (pow2(62) / total);
            let beat = seq![0nat, 473195, 504333, 520860, 550000, 700000, 750000, 830000];
            ||| unit * s <= scaled < unit * s + unit && (s < 8 ==> scaled <= unit * s + part
                * beat[s as int])
            ||| 1 <= s <= 8 && unit * (s - 1) + part * beat[s - 1] < scaled < unit * s
        }),
{
    let unit = pow2((62 - log) as nat) as int;
    let scaled = (c * (pow2(62) / total)) as int;
    let whole = scaled / unit;
    lemma_pow2_pos((62 - log) as nat);
    lemma_pow2_pos((42 - log) as nat);
    lemma2_to64_rest();
    lemma_fundamental_div_mod(scaled, unit);
    assert(scaled >= 0 && whole >= 0) by (nonlinear_arith)
        requires
            scaled == c * (pow2(62) / total),
            whole == scaled / unit,
            unit > 0,
    ;
    let beat = seq![0nat, 473195, 504333, 520860, 550000, 700000, 750000, 830000];
    if whole < 8 {
        assert(normalize::RTB_TABLE@[whole] == beat[whole]);
    }
    assert(unit * (whole + 1) == unit * whole + unit) by (nonlinear_arith);
}

/// The states that a distribution gives the symbol `i` are proportional: a
/// symbol that does not occur has none, one too rare for more than a state has
/// one, marked as the caller wants it, and any other has its share within two
/// states. Only one symbol, the first whose share is the largest, may be
/// further off: it makes up what the others leave or take, as long as that is
/// less than half of it.
pub proof fn law_distribution_is_proportional(
    count: Seq<u32>,
    n: nat,
    total: nat,
    log: nat,
    low_prob: int,
)
    requires
        normalize::countable(count, n, total, log),
        ({
            let most = normalize::largest_share(count, n, total, log).1;
            let taken = normalize::estimated_slots(count, n, total, log);
            most > 0 && taken - pow2(log) < most / 2
        }),
    ensures
        normalize::distribution(count, n, total, log, low_prob) matches Ok(d) && exists|at: int|
            0 <= at < n && #[trigger] count[at] * pow2(log) > total && (forall|i: int|
                0 <= i < n && #[trigger] count[i] * pow2(log) > total ==> {
                    let most = normalize::share(count[at] as nat, total, log);
                    let mine = normalize::share(count[i] as nat, total, log);
                    mine <= most && (i < at ==> mine < most)
                }) && (forall|i: int|
                0 <= i < n && i != at ==> {
                    let c = count[i] as int;
                    &&& c == 0 ==> #[trigger] d[i] == 0
                    &&& 0 < c && c * pow2(log) <= total ==> d[i] == low_prob
                    &&& c * pow2(log) > total ==> d[i] * total < c * pow2(log) + total && c * pow2(
                        log,
                    ) < (d[i] + 2) * total
                }),
{
    let first = normalize::estimates(count, n, total, log, low_prob);
    let left = pow2(log) - normalize::estimated_slots(count, n, total, log);
    let (a, most) = normalize::largest_share(count, n, total, log);
    let at = a as int;
    lemma_largest(count, n, total, log);
    lemma_pow2_pos(log);
    let d = first.update(at, first[at] + left);
    assert(first[at] == most);
    assert(normalize::distribution(count, n, total, log, low_prob) == Ok::<Seq<int>, Error>(d));
    lemma_rare(count[at] as nat, total, log);
    assert forall|i: int| 0 <= i < n && #[trigger] count[i] * pow2(log) > total implies {
        let mine = normalize::share(count[i] as nat, total, log);
        mine <= most && (i < at ==> mine < most)
    } by {
        lemma_rare(count[i] as nat, total, log);
        lemma_largest_at(count, n, total, log, i);
    }
    assert forall|i: int| 0 <= i < n && i != at implies {
        let c = count[i] as int;
        &&& c == 0 ==> #[trigger] d[i] == 0
        &&& 0 < c && c * pow2(log) <= total ==> d[i] == low_prob
        &&& c * pow2(log) > total ==> d[i] * total < c * pow2(log) + total && c * pow2(log) < (d[i]
            + 2) * total
    } by {
        lemma_rare(count[i] as nat, total, log);
        if count[i] > 0 {
            lemma_below_total(count, n, i);
            law_share_is_proportional(count[i] as nat, total, log);
            let sh = normalize::share(count[i] as nat, total, log) as int;
            assert((sh + 1) * total + total == (sh + 2) * total) by (nonlinear_arith);
        }
    }
    assert(count[at] * pow2(log) > total);
}

/// Where the estimates take so much more than there is that the largest share
/// would lose half of itself or more, the rare symbols are fixed first and the
/// others share what is left.
pub proof fn law_when_rare_symbols_are_fixed_first(
    count: Seq<u32>,
    n: nat,
    total: nat,
    log: nat,
    low_prob: int,
)
    requires
        ({
            let (at, most) = normalize::largest_share(count, n, total, log);
            let taken = normalize::estimated_slots(count, n, total, log);
            most > 0 && taken - pow2(log) >= most / 2
        }),
    ensures
        normalize::distribution(count, n, total, log, low_prob) == normalize::second_method(
            count,
            n,
            total,
            log,
            low_prob,
        ),
{
    lemma_largest(count, n, total, log);
}

/// The symbols that are fixed first: one that would get at most a state, marked
/// as the caller wants it, and one that would get at most a state and a half,
/// with one state.
pub proof fn law_rare_symbols_are_fixed(c: nat, total: nat, log: nat, low_prob: int)
    requires
        total > 0,
    ensures
        ({
            let r = normalize::rough(c, total, log, low_prob);
            let wanted = c * pow2(log);
            &&& c == 0 ==> r == 0
            &&& c > 0 && wanted <= total ==> r == low_prob
            &&& wanted > total && 2 * wanted <= 3 * total ==> r == 1
            &&& 2 * wanted > 3 * total ==> r == NOT_YET_ASSIGNED
        }),
{
    lemma_rare(c, total, log);
    lemma_rare(c, total * 3, log + 1);
    lemma_pow2_unfold(log + 1);
    assert(c * pow2(log + 1) == 2 * (c * pow2(log))) by (nonlinear_arith)
        requires
            pow2(log + 1) == 2 * pow2(log),
    ;
    if 2 * (c * pow2(log)) > 3 * total {
        assert(c > 0) by (nonlinear_arith)
            requires
                2 * (c * pow2(log)) > 3 * total,
                total > 0,
        ;
    }
}

/// Where the symbols that are left open come to more than a state and a half
/// each, those among them are fixed too that would get at most a state and a
/// half of what is left.
pub proof fn law_more_symbols_are_fixed(
    count: Seq<u32>,
    n: nat,
    total: nat,
    log: nat,
    low_prob: int,
    i: int,
)
    requires
        total > 0,
        0 <= i < n,
        normalize::fixed_slots(normalize::rough_counts(count, n, total, log, low_prob), n) <= pow2(
            log,
        ),
    ensures
        ({
            let a = normalize::rough_counts(count, n, total, log, low_prob);
            let b = normalize::fixed_counts(count, n, total, log, low_prob);
            let states = pow2(log) - normalize::fixed_slots(a, n);
            let left = normalize::open_total(a, count, n) as int;
            let again = states > 0 && left / states > (total * 3) / pow2(log + 1);
            &&& b.len() == n
            &&& a[i] != NOT_YET_ASSIGNED || !again ==> b[i] == a[i]
            &&& a[i] == NOT_YET_ASSIGNED && again && count[i] * states * 2 <= left * 3 ==> b[i] == 1
            &&& a[i] == NOT_YET_ASSIGNED && again && count[i] * states * 2 > left * 3 ==> b[i]
                == NOT_YET_ASSIGNED
        }),
{
    let a = normalize::rough_counts(count, n, total, log, low_prob);
    let states = pow2(log) - normalize::fixed_slots(a, n);
    let left = normalize::open_total(a, count, n) as int;
    if states > 0 {
        lemma_at_most(count[i] as int, left * 3, states * 2);
        assert(count[i] * (states * 2) == count[i] * states * 2) by (nonlinear_arith);
    }
}

/// Where everything is fixed and states are left, the symbol that was counted
/// most often, the first of such, gets them all.
pub proof fn law_most_frequent_gets_the_rest(
    count: Seq<u32>,
    n: nat,
    total: nat,
    log: nat,
    low_prob: int,
    at: int,
)
    requires
        0 <= at < n,
        forall|i: int| 0 <= i < at ==> #[trigger] count[i] < count[at],
        forall|i: int| at < i < n ==> #[trigger] count[i] <= count[at],
        count[at] > 0,
        ({
            let b = normalize::fixed_counts(count, n, total, log, low_prob);
            normalize::fixed_slots(b, n) == n
        }),
        normalize::fixed_slots(normalize::rough_counts(count, n, total, log, low_prob), n) != pow2(
            log,
        ),
    ensures
        ({
            let b = normalize::fixed_counts(count, n, total, log, low_prob);
            let states = pow2(log) - n;
            states >= 0 ==> normalize::second_method(count, n, total, log, low_prob) == Ok::<
                Seq<int>,
                Error,
            >(b.update(at, b[at] + states))
        }),
{
    lemma_first_most(count, n, at);
}

proof fn lemma_first_most(count: Seq<u32>, n: nat, at: int)
    requires
        0 <= at < n,
        forall|i: int| 0 <= i < at ==> #[trigger] count[i] < count[at],
        forall|i: int| at < i < n ==> #[trigger] count[i] <= count[at],
        count[at] > 0,
    ensures
        normalize::most_counted(count, n) == (at as nat, count[at] as nat),
    decreases n,
{
    if at < n - 1 {
        lemma_first_most(count, (n - 1) as nat, at);
    } else {
        lemma_less_before(count, at as nat, count[at] as nat);
    }
}

proof fn lemma_less_before(count: Seq<u32>, n: nat, most: nat)
    requires
        forall|i: int| 0 <= i < n ==> #[trigger] count[i] < most,
        most > 0,
    ensures
        normalize::most_counted(count, n).1 < most,
    decreases n,
{
    if n > 0 {
        lemma_less_before(count, (n - 1) as nat, most);
    }
}

/// Where no symbol is open and states are left, they are dealt out in turn: of
/// two symbols with states the earlier gets as many more as the later, or one
/// more than it. The others get none.
pub proof fn law_states_are_dealt_in_turn(norm: Seq<int>, states: nat, i: int, j: int)
    requires
        0 <= i < j < norm.len(),
    ensures
        ({
            let d = normalize::dealt(norm, states);
            &&& d.len() == norm.len()
            &&& norm[i] <= 0 ==> d[i] == norm[i]
            &&& norm[j] <= 0 ==> d[j] == norm[j]
            &&& norm[i] > 0 && norm[j] > 0 ==> 0 <= (d[i] - norm[i]) - (d[j] - norm[j]) <= 1
        }),
{
    lemma_positive_monotone(norm, i as nat, j as nat);
}

proof fn lemma_positive_monotone(norm: Seq<int>, m: nat, n: nat)
    requires
        m <= n,
    ensures
        normalize::positive_before(norm, m) <= normalize::positive_before(norm, n),
    decreases n - m,
{
    if m < n {
        lemma_positive_monotone(norm, m, (n - 1) as nat);
    }
}

proof fn lemma_below_total(count: Seq<u32>, n: nat, i: int)
    requires
        0 <= i < n,
    ensures
        count[i] <= normalize::count_sum(count, n),
{
    normalize::lemma_count_sum_monotone(count, i as nat + 1, n);
}

/// A quotient is reached where its multiple is.
proof fn lemma_at_most(c: int, total: int, p: int)
    requires
        p > 0,
    ensures
        c <= total / p <==> c * p <= total,
{
    lemma_fundamental_div_mod(total, p);
    let q = total / p;
    let r = total % p;
    if c > q {
        assert(c * p > total) by (nonlinear_arith)
            requires
                total == p * q + r,
                0 <= r < p,
                c >= q + 1,
        ;
    } else {
        assert(c * p <= total) by (nonlinear_arith)
            requires
                total == p * q + r,
                0 <= r < p,
                c <= q,
        ;
    }
}

/// Symbols that are too rare for more than a state.
proof fn lemma_rare(c: nat, total: nat, log: nat)
    ensures
        c <= total / pow2(log) <==> c * pow2(log) <= total,
{
    lemma_pow2_pos(log);
    lemma_at_most(c as int, total as int, pow2(log) as int);
}

proof fn lemma_largest(count: Seq<u32>, n: nat, total: nat, log: nat)
    ensures
        ({
            let (at, most) = normalize::largest_share(count, n, total, log);
            most > 0 ==> at < n && count[at as int] as nat > total / pow2(log) && most
                == normalize::share(count[at as int] as nat, total, log)
        }),
        normalize::largest_share(count, n, total, log).1 == 0 ==> normalize::largest_share(
            count,
            n,
            total,
            log,
        ).0 == 0,
    decreases n,
{
    if n > 0 {
        lemma_largest(count, (n - 1) as nat, total, log);
    }
}

proof fn lemma_largest_at(count: Seq<u32>, n: nat, total: nat, log: nat, i: int)
    requires
        0 <= i < n,
        count[i] as nat > total / pow2(log),
    ensures
        normalize::share(count[i] as nat, total, log) <= normalize::largest_share(
            count,
            n,
            total,
            log,
        ).1,
        i < normalize::largest_share(count, n, total, log).0 ==> normalize::share(
            count[i] as nat,
            total,
            log,
        ) < normalize::largest_share(count, n, total, log).1,
    decreases n,
{
    lemma_largest(count, (n - 1) as nat, total, log);
    if i < n - 1 {
        lemma_largest_at(count, (n - 1) as nat, total, log, i);
    }
}

/// Where the open symbols share the states that are left along a line, each
/// gets what its part of what is left comes to, within two states.
pub proof fn law_line_is_proportional(
    norm: Seq<int>,
    count: Seq<u32>,
    log: nat,
    states: nat,
    i: int,
)
    requires
        0 <= i < norm.len(),
        norm[i] == NOT_YET_ASSIGNED,
        count[i] > 0,
        5 <= log <= 9,
        normalize::open_total(norm, count, norm.len()) <= u32::MAX,
    ensures
        ({
            let all = normalize::open_total(norm, count, norm.len());
            let got = normalize::line_states(norm, count, log, states, i);
            &&& got * all < count[i] * states + 2 * all
            &&& count[i] * states < got * all + 2 * all
        }),
{
    lemma2_to64();
    lemma2_to64_rest();
    let all = normalize::open_total(norm, count, norm.len()) as int;
    let before = normalize::open_total(norm, count, i as nat) as int;
    let c = count[i] as int;
    let t = states as int;
    lemma_open_part(norm, count, i as nat + 1, norm.len());
    assert(normalize::open_total(norm, count, i as nat + 1) == before + c);
    let unit = pow2((62 - log) as nat) as int;
    mem::lemma_pow2_monotone(53, (62 - log) as nat);
    let mid = unit / 2 - 1;
    let step = (unit * t + mid) / all;
    lemma_fundamental_div_mod(unit * t + mid, all);
    let off = (unit * t + mid) % all;
    let a = mid + before * step;
    let b = mid + (before + c) * step;
    assert(b == a + c * step) by (nonlinear_arith)
        requires
            a == mid + before * step,
            b == mid + (before + c) * step,
    ;
    let x = a / unit;
    let y = b / unit;
    assert(unit * t >= 0) by (nonlinear_arith)
        requires
            unit > 0,
            t >= 0,
    ;
    assert(step >= 0) by (nonlinear_arith)
        requires
            all * step + off == unit * t + mid,
            off < all,
            all > 0,
            unit * t + mid >= 0,
    ;
    assert(before * step >= 0 && c * step >= 0 && (before + c) * step >= 0) by (nonlinear_arith)
        requires
            before >= 0,
            c >= 0,
            step >= 0,
    ;
    lemma_fundamental_div_mod(a, unit);
    lemma_fundamental_div_mod(b, unit);
    let got = y - x;
    assert(normalize::line_states(norm, count, log, states, i) == got);
    // got * unit lies within a unit of c * step.
    assert(c * step - unit < got * unit < c * step + unit) by (nonlinear_arith)
        requires
            a == unit * x + a % unit,
            b == unit * y + b % unit,
            0 <= a % unit < unit,
            0 <= b % unit < unit,
            b == a + c * step,
            got == y - x,
    ;
    let w = c * step;
    assert(w * all == c * (unit * t) + c * mid - c * off) by (nonlinear_arith)
        requires
            w == c * step,
            all * step + off == unit * t + mid,
    ;
    assert(0 <= c * mid < unit * all) by (nonlinear_arith)
        requires
            0 < c <= all,
            0 <= mid < unit,
    ;
    assert(0 <= c * off < unit * all) by (nonlinear_arith)
        requires
            0 < c < unit,
            0 <= off < all,
    ;
    assert(c * (unit * t) == unit * (c * t)) by (nonlinear_arith);
    assert((got * unit) * all < w * all + unit * all && (got * unit) * all > w * all - unit * all)
        by (nonlinear_arith)
        requires
            w - unit < got * unit < w + unit,
            all > 0,
    ;
    assert((got * unit) * all == unit * (got * all)) by (nonlinear_arith);
    assert(got * all < c * t + 2 * all && c * t < got * all + 2 * all) by (nonlinear_arith)
        requires
            unit * (got * all) < unit * (c * t) + 2 * (unit * all),
            unit * (got * all) > unit * (c * t) - 2 * (unit * all),
            unit > 0,
    ;
}

proof fn lemma_open_part(norm: Seq<int>, count: Seq<u32>, m: nat, n: nat)
    requires
        m <= n,
    ensures
        normalize::open_total(norm, count, m) <= normalize::open_total(norm, count, n),
    decreases n,
{
    if m < n {
        lemma_open_part(norm, count, m, (n - 1) as nat);
    }
}

/// The table log is at most the one asked for, moved into the range from five
/// to nine. Below that it leaves two bits for the spread of the symbols, and is
/// otherwise two below the size of the input, as powers of two.
pub proof fn law_table_log_suits_input_and_alphabet(
    max_table_log: nat,
    src_size: nat,
    max_symbol_value: nat,
)
    requires
        src_size >= 2,
    ensures
        ({
            let r = normalize::best_table_log(max_table_log, src_size, max_symbol_value);
            let by_source = mem::floor_log2((src_size - 1) as nat) - 2;
            let by_symbols = if max_symbol_value == 0 {
                1nat
            } else {
                mem::floor_log2(max_symbol_value) + 2
            };
            &&& 5 <= r <= 9
            &&& max_table_log >= 5 ==> r <= max_table_log
            &&& r < 9 && r < max_table_log ==> r >= by_symbols && r >= by_source
            &&& r > 5 ==> r <= by_symbols || r <= by_source
        }),
{
}

} // verus!
