//! Prefix codes given by weights.
//!
//! A symbol of weight `w > 0` owns `2^(w-1)` of the `2^log` places of a code,
//! and its code has `log + 1 - w` bits. The places are given away from the
//! lightest weight to the heaviest, and among equal weights in the order of
//! the symbols. A symbol of weight zero has no code.

use crate::entropy::bits;
use vstd::arithmetic::div_mod::*;
use vstd::arithmetic::mul::*;
use vstd::arithmetic::power2::*;
use vstd::prelude::*;

verus! {

/// The longest code.
pub const TABLELOG_MAX: usize = 12;

/// The largest symbol.
pub const SYMBOLVALUE_MAX: usize = 255;

/// How many places a weight owns.
pub open spec fn width(w: nat) -> nat {
    if w == 0 {
        0
    } else {
        pow2((w - 1) as nat)
    }
}

/// How many places the first `k` symbols own.
pub open spec fn weight_sum(weights: Seq<u8>, k: nat) -> nat
    decreases k,
{
    if k == 0 {
        0
    } else {
        weight_sum(weights, (k - 1) as nat) + width(weights[k - 1] as nat)
    }
}

/// The weights give away every place of a code of that depth.
pub open spec fn complete(weights: Seq<u8>, log: nat) -> bool {
    &&& 1 <= log <= TABLELOG_MAX
    &&& 0 < weights.len() <= 256
    &&& forall|i: int| 0 <= i < weights.len() ==> #[trigger] weights[i] <= log
    &&& weight_sum(weights, weights.len()) == pow2(log)
}

/// How many of the first `k` symbols have the weight.
pub open spec fn of_weight(weights: Seq<u8>, w: nat, k: nat) -> nat
    decreases k,
{
    if k == 0 {
        0
    } else {
        of_weight(weights, w, (k - 1) as nat) + if weights[k - 1] == w {
            1nat
        } else {
            0
        }
    }
}

/// How many places the weights from one up to `w` own.
pub open spec fn places_up_to(weights: Seq<u8>, w: nat) -> nat
    decreases w,
{
    if w == 0 {
        0
    } else {
        places_up_to(weights, (w - 1) as nat) + of_weight(weights, w, weights.len()) * width(w)
    }
}

/// The first place of a symbol.
pub open spec fn first_place(weights: Seq<u8>, s: int) -> nat {
    let w = weights[s] as nat;
    places_up_to(weights, (w - 1) as nat) + of_weight(weights, w, s as nat) * width(w)
}

/// The symbol owns the place.
pub open spec fn owns(weights: Seq<u8>, s: int, place: nat) -> bool {
    &&& 0 <= s < weights.len()
    &&& weights[s] > 0
    &&& first_place(weights, s) <= place < first_place(weights, s) + width(weights[s] as nat)
}

/// The length of a symbol's code.
pub open spec fn code_length(weights: Seq<u8>, log: nat, s: int) -> nat {
    (log + 1 - weights[s]) as nat
}

/// The bits of a symbol's code: the leading bits that its places share.
pub open spec fn code_value(weights: Seq<u8>, s: int) -> nat {
    first_place(weights, s) / width(weights[s] as nat)
}

// ---------------------------------------------------------------------------
// The places.

proof fn lemma_of_weight_monotone(weights: Seq<u8>, w: nat, j: nat, k: nat)
    requires
        j <= k,
    ensures
        of_weight(weights, w, j) <= of_weight(weights, w, k),
    decreases k,
{
    if j < k {
        lemma_of_weight_monotone(weights, w, j, (k - 1) as nat);
    }
}

/// Lighter weights come first.
pub proof fn lemma_places_monotone(weights: Seq<u8>, v: nat, w: nat)
    requires
        v <= w,
    ensures
        places_up_to(weights, v) <= places_up_to(weights, w),
    decreases w,
{
    if v < w {
        lemma_places_monotone(weights, v, (w - 1) as nat);
        lemma_mul_nonnegative(
            of_weight(weights, w, weights.len()) as int,
            width(w) as int,
        );
    }
}

/// Places of the first `k` symbols that have a weight from one up to `w`.
spec fn places_of(weights: Seq<u8>, w: nat, k: nat) -> nat
    decreases w,
{
    if w == 0 {
        0
    } else {
        places_of(weights, (w - 1) as nat, k) + of_weight(weights, w, k) * width(w)
    }
}

proof fn lemma_places_of_step(weights: Seq<u8>, w: nat, k: nat)
    requires
        0 < k <= weights.len(),
    ensures
        places_of(weights, w, k) == places_of(weights, w, (k - 1) as nat) + if 0 < weights[k - 1]
            <= w {
            width(weights[k - 1] as nat)
        } else {
            0
        },
    decreases w,
{
    if w > 0 {
        lemma_places_of_step(weights, (w - 1) as nat, k);
        let o = of_weight(weights, w, (k - 1) as nat) as int;
        let d = width(w) as int;
        assert((o + 1) * d == o * d + d) by (nonlinear_arith);
    }
}

proof fn lemma_places_of_none(weights: Seq<u8>, w: nat)
    ensures
        places_of(weights, w, 0) == 0,
    decreases w,
{
    if w > 0 {
        lemma_places_of_none(weights, (w - 1) as nat);
        assert(0 * width(w) == 0);
    }
}

proof fn lemma_places_of_sum(weights: Seq<u8>, w: nat, k: nat)
    requires
        k <= weights.len(),
        forall|i: int| 0 <= i < weights.len() ==> #[trigger] weights[i] <= w,
    ensures
        places_of(weights, w, k) == weight_sum(weights, k),
    decreases k,
{
    if k == 0 {
        lemma_places_of_none(weights, w);
    } else {
        lemma_places_of_sum(weights, w, (k - 1) as nat);
        lemma_places_of_step(weights, w, k);
        assert(weights[k - 1] <= w);
    }
}

proof fn lemma_places_are(weights: Seq<u8>, w: nat)
    ensures
        places_up_to(weights, w) == places_of(weights, w, weights.len()),
    decreases w,
{
    if w > 0 {
        lemma_places_are(weights, (w - 1) as nat);
    }
}

/// All weights together own every place.
pub proof fn lemma_places_total(weights: Seq<u8>, log: nat)
    requires
        complete(weights, log),
    ensures
        places_up_to(weights, log) == pow2(log),
{
    lemma_places_are(weights, log);
    lemma_places_of_sum(weights, log, weights.len());
}

/// The places below a weight fill whole places of that weight.
pub proof fn lemma_places_aligned(weights: Seq<u8>, log: nat, w: nat)
    requires
        complete(weights, log),
        w <= log,
    ensures
        places_up_to(weights, w) % pow2(w) == 0,
    decreases log - w,
{
    lemma_pow2_pos(w);
    if w == log {
        lemma_places_total(weights, log);
        lemma_mod_self_0(pow2(log) as int);
    } else {
        lemma_places_aligned(weights, log, w + 1);
        let p = pow2(w) as int;
        lemma_pow2_unfold(w + 1);
        let a = places_up_to(weights, w) as int;
        let b = places_up_to(weights, w + 1) as int;
        let c = of_weight(weights, w + 1, weights.len()) as int;
        assert(b == a + c * p);
        lemma_fundamental_div_mod(b, 2 * p);
        let q = b / (2 * p);
        assert(a == p * (2 * q - c)) by (nonlinear_arith)
            requires
                b == a + c * p,
                b == (2 * p) * q,
        ;
        lemma_mod_multiples_basic(2 * q - c, p);
        assert((2 * q - c) * p == p * (2 * q - c)) by (nonlinear_arith);
    }
}

/// A symbol's places: where they end, and that they share their leading bits.
pub proof fn lemma_symbol_places(weights: Seq<u8>, log: nat, s: int)
    requires
        complete(weights, log),
        0 <= s < weights.len(),
        weights[s] > 0,
    ensures
        ({
            let w = weights[s] as nat;
            let nb = code_length(weights, log, s);
            &&& 1 <= nb <= log
            &&& pow2(nb) * width(w) == pow2(log)
            &&& first_place(weights, s) + width(w) <= places_up_to(weights, w) <= pow2(log)
            &&& first_place(weights, s) == code_value(weights, s) * width(w)
            &&& code_value(weights, s) < pow2(nb)
            &&& width(w) > 0
        }),
{
    let w = weights[s] as nat;
    assert(weights[s] <= log);
    let nb = code_length(weights, log, s);
    let p = width(w) as int;
    lemma_pow2_pos((w - 1) as nat);
    lemma_pow2_adds(nb, (w - 1) as nat);
    lemma_places_monotone(weights, w, log);
    lemma_places_total(weights, log);
    lemma_of_weight_monotone(weights, w, s as nat + 1, weights.len());
    let o = of_weight(weights, w, s as nat) as int;
    let all = of_weight(weights, w, weights.len()) as int;
    assert((o + 1) * p <= all * p) by (nonlinear_arith)
        requires
            o + 1 <= all,
            p > 0,
    ;
    assert((o + 1) * p == o * p + p) by (nonlinear_arith);
    lemma_places_aligned(weights, log, (w - 1) as nat);
    let base = places_up_to(weights, (w - 1) as nat) as int;
    lemma_fundamental_div_mod(base, p);
    let q = base / p;
    let first = first_place(weights, s) as int;
    assert(first == (q + o) * p) by (nonlinear_arith)
        requires
            first == base + o * p,
            base == p * q,
    ;
    assert(first == p * (q + o)) by (nonlinear_arith)
        requires
            first == (q + o) * p,
    ;
    lemma_div_pos_is_pos(base, p);
    lemma_fundamental_div_mod_converse(first, p, q + o, 0);
    let v = q + o;
    assert(v < pow2(nb)) by (nonlinear_arith)
        requires
            v * p + p <= pow2(nb) * p,
            p > 0,
    ;
    if nb == 0 {
        assert(false);
    }
}

/// The symbols' places do not overlap: lighter symbols come first, and among
/// equal weights earlier ones.
pub proof fn lemma_places_ordered(weights: Seq<u8>, log: nat, a: int, b: int)
    requires
        complete(weights, log),
        0 <= a < weights.len(),
        0 <= b < weights.len(),
        weights[a] > 0,
        weights[b] > 0,
        weights[a] < weights[b] || (weights[a] == weights[b] && a < b),
    ensures
        first_place(weights, a) + width(weights[a] as nat) <= first_place(weights, b),
{
    let w = weights[b] as nat;
    lemma_symbol_places(weights, log, a);
    let p = width(w) as int;
    if weights[a] < weights[b] {
        lemma_places_monotone(weights, weights[a] as nat, (w - 1) as nat);
        lemma_mul_nonnegative(of_weight(weights, w, b as nat) as int, p);
    } else {
        lemma_of_weight_monotone(weights, w, a as nat + 1, b as nat);
        let x = of_weight(weights, w, a as nat) as int;
        let y = of_weight(weights, w, b as nat) as int;
        assert(x * p + p <= y * p) by (nonlinear_arith)
            requires
                x + 1 <= y,
                p >= 0,
        ;
    }
}

/// A place has one owner.
pub proof fn lemma_owner_unique(weights: Seq<u8>, log: nat, a: int, b: int, place: nat)
    requires
        complete(weights, log),
        owns(weights, a, place),
        owns(weights, b, place),
    ensures
        a == b,
{
    if a != b {
        if weights[a] < weights[b] || (weights[a] == weights[b] && a < b) {
            lemma_places_ordered(weights, log, a, b);
        } else {
            lemma_places_ordered(weights, log, b, a);
        }
    }
}

/// The symbol that owns the `i`-th run of places of a weight.
proof fn lemma_run_owner(weights: Seq<u8>, w: nat, i: nat, k: nat) -> (s: int)
    requires
        i < of_weight(weights, w, k),
        k <= weights.len(),
    ensures
        0 <= s < k,
        weights[s] == w,
        of_weight(weights, w, s as nat) == i,
    decreases k,
{
    if i < of_weight(weights, w, (k - 1) as nat) {
        lemma_run_owner(weights, w, i, (k - 1) as nat)
    } else {
        k - 1
    }
}

proof fn lemma_owner_below(weights: Seq<u8>, w: nat, place: nat) -> (s: int)
    requires
        place < places_up_to(weights, w),
    ensures
        owns(weights, s, place),
        weights[s] <= w,
    decreases w,
{
    let below = places_up_to(weights, (w - 1) as nat);
    if place < below {
        lemma_owner_below(weights, (w - 1) as nat, place)
    } else {
        let p = width(w) as int;
        lemma_pow2_pos((w - 1) as nat);
        let x = (place - below) as int;
        let c = of_weight(weights, w, weights.len()) as int;
        lemma_fundamental_div_mod(x, p);
        let i = x / p;
        lemma_div_pos_is_pos(x, p);
        assert(i < c) by (nonlinear_arith)
            requires
                x < c * p,
                x == p * i + x % p,
                0 <= x % p,
                p > 0,
        ;
        let s = lemma_run_owner(weights, w, i as nat, weights.len());
        assert(i * p == p * i) by (nonlinear_arith);
        s
    }
}

/// Every place has an owner.
pub proof fn lemma_owner(weights: Seq<u8>, log: nat, place: nat) -> (s: int)
    requires
        complete(weights, log),
        place < pow2(log),
    ensures
        owns(weights, s, place),
{
    lemma_places_total(weights, log);
    lemma_owner_below(weights, log, place)
}

/// The owner of a place.
pub open spec fn owner(weights: Seq<u8>, place: nat) -> int {
    choose|s: int| owns(weights, s, place)
}

/// The owner of a place is the symbol that owns it.
pub proof fn lemma_owner_is(weights: Seq<u8>, log: nat, s: int, place: nat)
    requires
        complete(weights, log),
        owns(weights, s, place),
    ensures
        owner(weights, place) == s,
        place < pow2(log),
{
    lemma_owner_unique(weights, log, owner(weights, place), s, place);
    lemma_symbol_places(weights, log, s);
}

/// The places that start with a symbol's code are the symbol's.
pub proof fn lemma_code_places(weights: Seq<u8>, log: nat, s: int, low: nat)
    requires
        complete(weights, log),
        0 <= s < weights.len(),
        weights[s] > 0,
        low < width(weights[s] as nat),
    ensures
        owner(weights, code_value(weights, s) * width(weights[s] as nat) + low) == s,
        code_value(weights, s) * width(weights[s] as nat) + low < pow2(log),
{
    lemma_symbol_places(weights, log, s);
    lemma_owner_is(
        weights,
        log,
        s,
        code_value(weights, s) * width(weights[s] as nat) + low,
    );
}

/// A place starts with its owner's code.
pub proof fn lemma_place_code(weights: Seq<u8>, log: nat, place: nat)
    requires
        complete(weights, log),
        place < pow2(log),
    ensures
        ({
            let s = owner(weights, place);
            let w = weights[s] as nat;
            &&& owns(weights, s, place)
            &&& place / width(w) == code_value(weights, s)
            &&& width(w) == pow2((log - code_length(weights, log, s)) as nat)
            &&& 1 <= code_length(weights, log, s) <= log
        }),
{
    let s = lemma_owner(weights, log, place);
    lemma_owner_is(weights, log, s, place);
    lemma_symbol_places(weights, log, s);
    let p = width(weights[s] as nat) as int;
    let v = code_value(weights, s) as int;
    let first = first_place(weights, s) as int;
    assert(first == p * v) by (nonlinear_arith)
        requires
            first == v * p,
    ;
    lemma_fundamental_div_mod_converse(place as int, p, v, place - first);
}

} // verus!
