//! Keeping the codes of a tree short.
//!
//! Codes that are too long are cut off, which takes more space than there is.
//! The space that is owed is paid back by making other codes longer, the ones
//! that cost least first; where too much was paid, the first of the longest
//! codes are made shorter again.

use crate::entropy::huff_sort::Leaf;
use crate::entropy::huff_tree;
use crate::entropy::mem;
use vstd::arithmetic::mul::*;
use vstd::arithmetic::power2::*;
use vstd::prelude::*;

verus! {

/// The last of the first `n` places that holds `v`.
pub open spec fn last_of(lens: Seq<nat>, v: int, n: nat) -> Option<int>
    decreases n,
{
    if n == 0 {
        None
    } else if lens[n - 1] == v {
        Some(n - 1)
    } else {
        last_of(lens, v, (n - 1) as nat)
    }
}

/// The first place from `i` on that holds `v`.
pub open spec fn first_of(lens: Seq<nat>, v: nat, i: nat) -> Option<int>
    decreases lens.len() - i,
{
    if i >= lens.len() {
        None
    } else if lens[i as int] == v {
        Some(i as int)
    } else {
        first_of(lens, v, i + 1)
    }
}

/// The group of codes, counted from the longest, of which one is made longer:
/// not a group whose last symbol weighs more than two of the next group's last.
pub open spec fn cheapest_group(lens: Seq<nat>, leaves: Seq<Leaf>, top: nat, b: nat) -> nat
    decreases b,
{
    let high = last_of(lens, top - b, lens.len());
    let low = last_of(lens, top - b + 1, lens.len());
    if b <= 1 {
        b
    } else if high is None {
        cheapest_group(lens, leaves, top, (b - 1) as nat)
    } else if low is None || leaves[high->Some_0].count <= 2 * leaves[low->Some_0].count {
        b
    } else {
        cheapest_group(lens, leaves, top, (b - 1) as nat)
    }
}

/// The first group from `b` on that is not empty.
pub open spec fn filled_group(lens: Seq<nat>, top: nat, b: nat) -> nat
    decreases 13 - b,
{
    if b <= 12 && last_of(lens, top - b, lens.len()) is None {
        filled_group(lens, top, b + 1)
    } else {
        b
    }
}

/// The group of which a code is made longer when `owed` is owed.
pub open spec fn chosen_group(lens: Seq<nat>, leaves: Seq<Leaf>, top: nat, owed: nat) -> nat {
    filled_group(
        lens,
        top,
        cheapest_group(lens, leaves, top, mem::floor_log2(owed) + 1),
    )
}

/// Codes are made longer until nothing is owed.
pub open spec fn repaid(lens: Seq<nat>, leaves: Seq<Leaf>, top: nat, owed: int) -> (Seq<nat>, int)
    decreases
            if owed > 0 {
                owed
            } else {
                0
            },
{
    let b = chosen_group(lens, leaves, top, owed as nat);
    let paid = pow2((b - 1) as nat);
    if owed <= 0 {
        (lens, owed)
    } else {
        proof {
            lemma_pow2_pos((b - 1) as nat);
        }
        match last_of(lens, top - b, lens.len()) {
            None => (lens, owed),
            Some(i) => repaid(lens.update(i, lens[i] + 1), leaves, top, owed - paid),
        }
    }
}

/// Codes of the greatest length are made shorter while too much was paid.
pub open spec fn refunded(lens: Seq<nat>, top: nat, owed: int) -> Seq<nat>
    decreases
            if owed < 0 {
                -owed
            } else {
                0
            },
{
    if owed >= 0 {
        lens
    } else {
        match first_of(lens, top, 0) {
            None => lens,
            Some(i) => refunded(lens.update(i, (top - 1) as nat), top, owed + 1),
        }
    }
}

/// Lengths with those above `top` cut off.
pub open spec fn cut_off(depths: Seq<nat>, top: nat) -> Seq<nat> {
    Seq::new(
        depths.len(),
        |i: int|
            if depths[i] > top {
                top
            } else {
                depths[i]
            },
    )
}

/// The lengths of codes of at most `top` bits for the leaves of a tree, and
/// the greatest of them.
pub open spec fn limited(depths: Seq<nat>, leaves: Seq<Leaf>, top: nat) -> (Seq<nat>, nat) {
    if depths.last() <= top {
        (depths, depths.last())
    } else {
        let short = cut_off(depths, top);
        let owed = huff_tree::code_space(short, top, short.len()) - pow2(top);
        let (lens, left) = repaid(short, leaves, top, owed);
        (refunded(lens, top, left), top)
    }
}

// ---------------------------------------------------------------------------
// Facts about the parts.

proof fn lemma_last_of(lens: Seq<nat>, v: int, n: nat)
    requires
        n <= lens.len(),
    ensures
        match last_of(lens, v, n) {
            Some(i) => 0 <= i < n && lens[i] == v && forall|j: int|
                i < j < n ==> #[trigger] lens[j] != v,
            None => forall|j: int| 0 <= j < n ==> #[trigger] lens[j] != v,
        },
    decreases n,
{
    if n > 0 && lens[n - 1] != v {
        lemma_last_of(lens, v, (n - 1) as nat);
    }
}

proof fn lemma_first_of(lens: Seq<nat>, v: nat, i: nat)
    requires
        i <= lens.len(),
    ensures
        match first_of(lens, v, i) {
            Some(k) => i <= k < lens.len() && lens[k] == v && forall|j: int|
                i <= j < k ==> #[trigger] lens[j] != v,
            None => forall|j: int| i <= j < lens.len() ==> #[trigger] lens[j] != v,
        },
    decreases lens.len() - i,
{
    if i < lens.len() && lens[i as int] != v {
        lemma_first_of(lens, v, i + 1);
    }
}

/// How many of the first `n` codes have the greatest length.
spec fn at_top(lens: Seq<nat>, top: nat, n: nat) -> nat
    decreases n,
{
    if n == 0 {
        0
    } else {
        at_top(lens, top, (n - 1) as nat) + if lens[n - 1] == top {
            1nat
        } else {
            0
        }
    }
}

proof fn lemma_space_update(lens: Seq<nat>, top: nat, i: int, v: nat, n: nat)
    requires
        0 <= i < lens.len(),
        n <= lens.len(),
    ensures
        i < n ==> huff_tree::code_space(lens.update(i, v), top, n) + pow2((top - lens[i]) as nat)
            == huff_tree::code_space(lens, top, n) + pow2((top - v) as nat),
        i >= n ==> huff_tree::code_space(lens.update(i, v), top, n) == huff_tree::code_space(
            lens,
            top,
            n,
        ),
    decreases n,
{
    if n > 0 {
        lemma_space_update(lens, top, i, v, (n - 1) as nat);
    }
}

proof fn lemma_at_top_update(lens: Seq<nat>, top: nat, i: int, v: nat, n: nat)
    requires
        0 <= i < lens.len(),
        n <= lens.len(),
    ensures
        at_top(lens.update(i, v), top, n) == at_top(lens, top, n) + if i < n && v == top {
            1int
        } else {
            0
        } - if i < n && lens[i] == top {
            1int
        } else {
            0
        },
    decreases n,
{
    if n > 0 {
        lemma_at_top_update(lens, top, i, v, (n - 1) as nat);
    }
}

/// Codes that are all of the greatest length take as much space as they are.
proof fn lemma_all_at_top(lens: Seq<nat>, top: nat, n: nat)
    requires
        n <= lens.len(),
        forall|i: int| 0 <= i < n ==> #[trigger] lens[i] == top,
    ensures
        huff_tree::code_space(lens, top, n) == n,
    decreases n,
{
    lemma2_to64();
    if n > 0 {
        lemma_all_at_top(lens, top, (n - 1) as nat);
    }
}

proof fn lemma_at_top_positive(lens: Seq<nat>, top: nat, n: nat) -> (i: int)
    requires
        at_top(lens, top, n) > 0,
        n <= lens.len(),
    ensures
        0 <= i < n,
        lens[i] == top,
    decreases n,
{
    if lens[n - 1] == top {
        n - 1
    } else {
        lemma_at_top_positive(lens, top, (n - 1) as nat)
    }
}

/// Where the `b - 1` groups below the longest codes are empty, the other codes
/// take a multiple of `2^b`.
proof fn lemma_space_steps(lens: Seq<nat>, top: nat, b: nat, n: nat) -> (x: nat)
    requires
        n <= lens.len(),
        b <= top,
        forall|i: int| 0 <= i < n ==> #[trigger] lens[i] == top || lens[i] + b <= top,
    ensures
        huff_tree::code_space(lens, top, n) == at_top(lens, top, n) + pow2(b) * x,
    decreases n,
{
    if n == 0 {
        assert(pow2(b) * 0 == 0);
        0
    } else {
        let x = lemma_space_steps(lens, top, b, (n - 1) as nat);
        lemma2_to64();
        if lens[n - 1] == top {
            x
        } else {
            let d = (top - lens[n - 1] - b) as nat;
            lemma_pow2_adds(b, d);
            let p = pow2(b) as int;
            let y = pow2(d) as int;
            assert(p * x + p * y == p * (x + y)) by (nonlinear_arith);
            x + pow2(d)
        }
    }
}

// ---------------------------------------------------------------------------
// The invariant.

/// The codes stand by ascending length, none is longer than `top`, and they
/// take `owed` more than there is; more of them than are owed have the
/// greatest length.
spec fn owing(lens: Seq<nat>, top: nat, owed: int) -> bool {
    &&& forall|i: int| 0 <= i < lens.len() ==> 1 <= #[trigger] lens[i] <= top
    &&& forall|i: int, j: int|
        0 <= i <= j < lens.len() ==> #[trigger] lens[i] <= #[trigger] lens[j]
    &&& huff_tree::code_space(lens, top, lens.len()) == pow2(top) + owed
    &&& at_top(lens, top, lens.len()) > owed
    &&& at_top(lens, top, lens.len()) > -owed
}

/// The search for a group ends at one that is not empty, or at the first.
proof fn lemma_cheapest_group(lens: Seq<nat>, leaves: Seq<Leaf>, top: nat, b: nat)
    requires
        b >= 1,
    ensures
        1 <= cheapest_group(lens, leaves, top, b) <= b,
        cheapest_group(lens, leaves, top, b) > 1 ==> last_of(
            lens,
            top - cheapest_group(lens, leaves, top, b),
            lens.len(),
        ) is Some,
    decreases b,
{
    if b > 1 {
        lemma_cheapest_group(lens, leaves, top, (b - 1) as nat);
    }
}

/// The groups that are passed over are empty.
proof fn lemma_filled_group(lens: Seq<nat>, top: nat, b: nat, goal: nat)
    requires
        b <= goal <= 12,
        last_of(lens, top - goal, lens.len()) is Some,
    ensures
        b <= filled_group(lens, top, b) <= goal,
        last_of(lens, top - filled_group(lens, top, b), lens.len()) is Some,
        forall|k: int|
            b <= k < filled_group(lens, top, b) ==> #[trigger] last_of(
                lens,
                top - k,
                lens.len(),
            ) is None,
    decreases 13 - b,
{
    if b <= 12 && last_of(lens, top - b, lens.len()) is None {
        lemma_filled_group(lens, top, b + 1, goal);
        assert forall|k: int| b <= k < filled_group(lens, top, b) implies #[trigger] last_of(
            lens,
            top - k,
            lens.len(),
        ) is None by {
            if k == b {
            } else {
                assert(b + 1 <= k < filled_group(lens, top, b + 1));
            }
        }
    }
}

/// A code that is owed for can be made longer, and what is owed then is still
/// within reach.
proof fn lemma_repay_step(lens: Seq<nat>, leaves: Seq<Leaf>, top: nat, owed: int)
    requires
        owing(lens, top, owed),
        owed > 0,
        1 <= top <= 12,
        lens.len() <= pow2(top),
    ensures
        ({
            let b = chosen_group(lens, leaves, top, owed as nat);
            let at = last_of(lens, top - b, lens.len());
            &&& 1 <= b < top
            &&& at matches Some(i) && 0 <= i < lens.len() && lens[i] + 1 <= top && owing(
                lens.update(i, lens[i] + 1),
                top,
                owed - pow2((b - 1) as nat),
            )
        }),
{
    let n = lens.len();
    let start = mem::floor_log2(owed as nat) + 1;
    let cheap = cheapest_group(lens, leaves, top, start);
    let b = chosen_group(lens, leaves, top, owed as nat);
    lemma_cheapest_group(lens, leaves, top, start);
    mem::lemma_floor_log2(owed as nat);
    // Some code is shorter than the greatest length.
    if forall|i: int| 0 <= i < n ==> #[trigger] lens[i] == top {
        lemma_all_at_top(lens, top, n);
        assert(false);
    }
    let some = choose|i: int| 0 <= i < n && #[trigger] lens[i] != top;
    let goal0 = (top - lens[some]) as nat;
    lemma_last_of(lens, top - goal0, n);
    lemma_last_of(lens, top - cheap, n);
    let goal = if last_of(lens, top - cheap, n) is Some {
        cheap
    } else {
        goal0
    };
    lemma_filled_group(lens, top, cheap, goal);
    lemma_last_of(lens, top - b, n);
    let i = last_of(lens, top - b, n)->Some_0;
    let next = lens.update(i, lens[i] + 1);
    let paid = pow2((b - 1) as nat) as int;
    lemma_pow2_pos((b - 1) as nat);
    lemma_space_update(lens, top, i, lens[i] + 1, n);
    lemma_at_top_update(lens, top, i, lens[i] + 1, n);
    lemma_pow2_unfold(b);
    assert((top - lens[i]) as nat == b);
    assert((top - (lens[i] + 1)) as nat == (b - 1) as nat);
    assert forall|x: int, y: int| 0 <= x <= y < n implies #[trigger] next[x]
        <= #[trigger] next[y] by {
        assert(lens[x] <= lens[y]);
        if x == i && y > i {
            assert(lens[y] != top - b);
            assert(lens[i] <= lens[y]);
        }
    }
    assert forall|x: int| 0 <= x < n implies 1 <= #[trigger] next[x] <= top by {
        assert(1 <= lens[x] <= top);
    }
    if b <= start {
        mem::lemma_pow2_monotone((b - 1) as nat, (start - 1) as nat);
        assert(paid <= owed);
    } else {
        // Only now can too much be paid.
        assert(cheap == 1);
        assert(last_of(lens, top - 1, n) is None) by {
            if last_of(lens, top - 1, n) is Some {
                assert(goal == 1);
            }
        }
        assert forall|x: int| 0 <= x < n implies #[trigger] lens[x] == top || lens[x] + b
            <= top by {
            let k = top - lens[x];
            if 1 <= k < b {
                assert(last_of(lens, top - k, n) is None);
                lemma_last_of(lens, top - k, n);
            }
        }
        let x = lemma_space_steps(lens, top, b, n);
        lemma_pow2_adds(b, (top - b) as nat);
        let c = at_top(lens, top, n) as int;
        let p = pow2(b) as int;
        let q = pow2((top - b) as nat) as int;
        assert(c - owed == p * q - p * x);
        assert(p * q - p * x >= p) by (nonlinear_arith)
            requires
                p * q - p * x > 0,
                p > 0,
        ;
        assert(p == 2 * paid);
    }
}

/// Making codes longer ends with nothing owed.
proof fn lemma_repaid(lens: Seq<nat>, leaves: Seq<Leaf>, top: nat, owed: int)
    requires
        owing(lens, top, owed),
        1 <= top <= 12,
        lens.len() <= pow2(top),
    ensures
        ({
            let (l, left) = repaid(lens, leaves, top, owed);
            &&& l.len() == lens.len()
            &&& left <= 0
            &&& owing(l, top, left)
            &&& owed >= 0 && left < 0 ==> top > 1
        }),
    decreases
            if owed > 0 {
                owed
            } else {
                0
            },
{
    if owed > 0 {
        lemma_repay_step(lens, leaves, top, owed);
        let b = chosen_group(lens, leaves, top, owed as nat);
        let i = last_of(lens, top - b, lens.len())->Some_0;
        lemma_pow2_pos((b - 1) as nat);
        lemma_repaid(lens.update(i, lens[i] + 1), leaves, top, owed - pow2((b - 1) as nat));
    }
}

/// Making codes shorter ends with all space used.
proof fn lemma_refunded(lens: Seq<nat>, top: nat, owed: int)
    requires
        owing(lens, top, owed),
        owed <= 0,
        owed < 0 ==> top > 1,
    ensures
        refunded(lens, top, owed).len() == lens.len(),
        owing(refunded(lens, top, owed), top, 0),
    decreases -owed,
{
    if owed < 0 {
        lemma_refund_step(lens, top, owed);
        let i = first_of(lens, top, 0)->Some_0;
        let next = lens.update(i, (top - 1) as nat);
        lemma_refunded(next, top, owed + 1);
    }
}

// ---------------------------------------------------------------------------
// The start.

proof fn lemma_cut_off_space(depths: Seq<nat>, top: nat, scale: nat, n: nat)
    requires
        n <= depths.len(),
        top <= scale,
        forall|i: int| 0 <= i < n ==> #[trigger] depths[i] <= scale,
    ensures
        huff_tree::code_space(cut_off(depths, top), top, n) * pow2((scale - top) as nat)
            >= huff_tree::code_space(depths, scale, n),
        (huff_tree::code_space(cut_off(depths, top), top, n) - at_top(cut_off(depths, top), top, n))
            * pow2((scale - top) as nat) <= huff_tree::code_space(depths, scale, n),
        huff_tree::code_space(cut_off(depths, top), top, n) >= at_top(
            cut_off(depths, top),
            top,
            n,
        ),
    decreases n,
{
    let s = pow2((scale - top) as nat) as int;
    lemma2_to64();
    if n == 0 {
        assert(0 * s == 0);
        assert((0 - 0) * s == 0);
    } else {
        let m = (n - 1) as nat;
        lemma_cut_off_space(depths, top, scale, m);
        let short = cut_off(depths, top);
        let d = depths[m as int];
        assert(d <= scale);
        let k = huff_tree::code_space(short, top, m) as int;
        let c = at_top(short, top, m) as int;
        if d >= top {
            assert(short[m as int] == top);
            mem::lemma_pow2_monotone((scale - d) as nat, (scale - top) as nat);
            assert((k + 1) * s == k * s + s) by (nonlinear_arith);
        } else {
            let t = pow2((top - d) as nat) as int;
            lemma_pow2_adds((top - d) as nat, (scale - top) as nat);
            lemma_pow2_pos((top - d) as nat);
            assert((k + t) * s == k * s + t * s) by (nonlinear_arith);
            assert((k + t - c) * s == (k - c) * s + t * s) by (nonlinear_arith);
        }
    }
}

proof fn lemma_rescale(depths: Seq<nat>, top: nat, scale: nat, n: nat)
    requires
        n <= depths.len(),
        top <= scale,
        forall|i: int| 0 <= i < n ==> #[trigger] depths[i] <= top,
    ensures
        huff_tree::code_space(depths, scale, n) == pow2((scale - top) as nat)
            * huff_tree::code_space(depths, top, n),
    decreases n,
{
    let s = pow2((scale - top) as nat) as int;
    if n == 0 {
        assert(s * 0 == 0);
    } else {
        let m = (n - 1) as nat;
        lemma_rescale(depths, top, scale, m);
        let d = depths[m as int];
        assert(d <= top);
        lemma_pow2_adds((scale - top) as nat, (top - d) as nat);
        let k = huff_tree::code_space(depths, top, m) as int;
        let t = pow2((top - d) as nat) as int;
        assert(s * (k + t) == s * k + s * t) by (nonlinear_arith);
    }
}

proof fn lemma_cut_off_owing(depths: Seq<nat>, top: nat, scale: nat)
    requires
        depths.len() >= 1,
        1 <= top < depths.last() <= scale,
        forall|i: int| 0 <= i < depths.len() ==> 1 <= #[trigger] depths[i] <= scale,
        forall|i: int, j: int|
            0 <= i <= j < depths.len() ==> #[trigger] depths[i] <= #[trigger] depths[j],
        huff_tree::code_space(depths, scale, depths.len()) == pow2(scale),
    ensures
        ({
            let short = cut_off(depths, top);
            let owed = huff_tree::code_space(short, top, short.len()) - pow2(top);
            &&& owed >= 0
            &&& owing(short, top, owed)
        }),
{
    let n = depths.len();
    let m = (n - 1) as nat;
    let short = cut_off(depths, top);
    let space = huff_tree::code_space(short, top, n) as int;
    let c = at_top(short, top, n) as int;
    let s = pow2((scale - top) as nat) as int;
    let whole = pow2(top) as int;
    lemma_cut_off_space(depths, top, scale, n);
    lemma_cut_off_space(depths, top, scale, m);
    lemma_pow2_adds(top, (scale - top) as nat);
    lemma_pow2_pos((scale - top) as nat);
    lemma2_to64();
    assert(space >= whole) by (nonlinear_arith)
        requires
            space * s >= whole * s,
            s > 0,
    ;
    assert(short[m as int] == top);
    let before = huff_tree::code_space(short, top, m) - at_top(short, top, m);
    assert(before == space - c);
    lemma_pow2_pos((scale - depths[m as int]) as nat);
    assert(space - c < whole) by (nonlinear_arith)
        requires
            (space - c) * s < whole * s,
            s > 0,
    ;
    assert forall|i: int, j: int| 0 <= i <= j < n implies #[trigger] short[i]
        <= #[trigger] short[j] by {
        assert(depths[i] <= depths[j]);
    }
    assert forall|i: int| 0 <= i < n implies 1 <= #[trigger] short[i] <= top by {
        assert(1 <= depths[i] <= scale);
    }
}

/// The limited lengths of a full tree stand in ascending order, none is longer
/// than the limit, the last is the greatest, and codes of these lengths take
/// all the space there is.
pub proof fn law_limited(depths: Seq<nat>, leaves: Seq<Leaf>, top: nat, scale: nat)
    requires
        depths.len() >= 2,
        1 <= top <= 12,
        depths.len() <= pow2(top),
        depths.last() <= scale,
        forall|i: int| 0 <= i < depths.len() ==> 1 <= #[trigger] depths[i] <= scale,
        forall|i: int, j: int|
            0 <= i <= j < depths.len() ==> #[trigger] depths[i] <= #[trigger] depths[j],
        huff_tree::code_space(depths, scale, depths.len()) == pow2(scale),
    ensures
        ({
            let (lens, log) = limited(depths, leaves, top);
            &&& lens.len() == depths.len()
            &&& 1 <= log <= top
            &&& lens.last() == log
            &&& forall|i: int| 0 <= i < lens.len() ==> 1 <= #[trigger] lens[i] <= log
            &&& forall|i: int, j: int|
                0 <= i <= j < lens.len() ==> #[trigger] lens[i] <= #[trigger] lens[j]
            &&& huff_tree::code_space(lens, log, lens.len()) == pow2(log)
        }),
{
    let n = depths.len();
    if depths.last() <= top {
        let log = depths.last();
        assert(log == depths[n - 1]);
        assert forall|i: int| 0 <= i < n implies #[trigger] depths[i] <= log by {
            assert(depths[i] <= depths[n - 1]);
        }
        lemma_rescale(depths, log, scale, n);
        lemma_pow2_adds((scale - log) as nat, log);
        lemma_pow2_pos((scale - log) as nat);
        let s = pow2((scale - log) as nat) as int;
        let x = huff_tree::code_space(depths, log, n) as int;
        let y = pow2(log) as int;
        assert(x == y) by (nonlinear_arith)
            requires
                s * x == s * y,
                s > 0,
        ;
    } else {
        lemma_cut_off_owing(depths, top, scale);
        let short = cut_off(depths, top);
        let owed = huff_tree::code_space(short, top, n) - pow2(top);
        lemma_repaid(short, leaves, top, owed);
        let (l, left) = repaid(short, leaves, top, owed);
        lemma_refunded(l, top, left);
        let lens = refunded(l, top, left);
        let k = lemma_at_top_positive(lens, top, n);
        assert(lens[k] <= lens[n - 1]);
        assert(lens[n - 1] <= top);
    }
}

// ---------------------------------------------------------------------------
// Limiting.

/// The lengths as numbers.
pub open spec fn numbers(lens: Seq<u8>) -> Seq<nat> {
    Seq::new(lens.len(), |i: int| lens[i] as nat)
}

fn last_with(lens: &Vec<u8>, v: u8) -> (r: Option<usize>)
    ensures
        match last_of(numbers(lens@), v as int, lens@.len()) {
            Some(i) => r == Some(i as usize) && 0 <= i < lens@.len(),
            None => r is None,
        },
{
    let ghost all = numbers(lens@);
    let mut i: usize = lens.len();
    while i > 0
        invariant
            i <= lens@.len(),
            all == numbers(lens@),
            last_of(all, v as int, lens@.len()) == last_of(all, v as int, i as nat),
        decreases i,
    {
        if lens[i - 1] == v {
            return Some(i - 1);
        }
        i = i - 1;
    }
    None
}

/// The last code of the group `b`, if it has any.
fn last_in_group(lens: &Vec<u8>, top: u32, b: u32) -> (r: Option<usize>)
    requires
        top <= 12,
    ensures
        match last_of(numbers(lens@), top - b, lens@.len()) {
            Some(i) => r == Some(i as usize) && 0 <= i < lens@.len(),
            None => r is None,
        },
{
    if b > top {
        proof {
            lemma_last_of(numbers(lens@), top - b, lens@.len());
        }
        return None;
    }
    last_with(lens, (top - b) as u8)
}

fn cheapest(lens: &Vec<u8>, leaves: &[Leaf], top: u32, start: u32) -> (r: u32)
    requires
        1 <= top <= 12,
        1 <= start,
        leaves@.len() == lens@.len(),
    ensures
        r == cheapest_group(numbers(lens@), leaves@, top as nat, start as nat),
{
    let ghost all = numbers(lens@);
    let mut b: u32 = start;
    while b > 1
        invariant
            1 <= b,
            1 <= top <= 12,
            leaves@.len() == lens@.len(),
            all == numbers(lens@),
            cheapest_group(all, leaves@, top as nat, start as nat) == cheapest_group(
                all,
                leaves@,
                top as nat,
                b as nat,
            ),
        decreases b,
    {
        if let Some(high) = last_in_group(lens, top, b) {
            match last_in_group(lens, top, b - 1) {
                None => {
                    return b;
                },
                Some(low) => {
                    if leaves[high].count as u64 <= 2 * (leaves[low].count as u64) {
                        return b;
                    }
                },
            }
        }
        b = b - 1;
    }
    b
}

fn first_filled(lens: &Vec<u8>, top: u32, start: u32) -> (r: u32)
    requires
        1 <= top <= 12,
        start <= 13,
    ensures
        r == filled_group(numbers(lens@), top as nat, start as nat),
{
    let ghost all = numbers(lens@);
    let mut b: u32 = start;
    while b <= 12 && last_in_group(lens, top, b).is_none()
        invariant
            1 <= top <= 12,
            b <= 13,
            all == numbers(lens@),
            filled_group(all, top as nat, start as nat) == filled_group(
                all,
                top as nat,
                b as nat,
            ),
        decreases 13 - b,
    {
        b = b + 1;
    }
    b
}

/// How much more space the codes take than there is.
fn space_owed(lens: &Vec<u8>, top: u32) -> (r: i32)
    requires
        1 <= top <= 12,
        lens@.len() <= 256,
        forall|i: int| 0 <= i < lens@.len() ==> #[trigger] lens@[i] <= top,
    ensures
        r == huff_tree::code_space(numbers(lens@), top as nat, lens@.len()) - pow2(top as nat),
        r <= 0x100000,
{
    let ghost all = numbers(lens@);
    let mut total: i32 = 0;
    let mut i: usize = 0;
    proof {
        lemma2_to64();
        mem::lemma_pow2_monotone(top as nat, 12);
    }
    while i < lens.len()
        invariant
            i <= lens@.len() <= 256,
            1 <= top <= 12,
            all == numbers(lens@),
            forall|k: int| 0 <= k < lens@.len() ==> #[trigger] lens@[k] <= top,
            total == huff_tree::code_space(all, top as nat, i as nat),
            0 <= total <= 4096 * i,
        decreases lens@.len() - i,
    {
        proof {
            assert(lens@[i as int] <= top);
            mem::lemma_pow2_monotone((top - lens@[i as int]) as nat, 12);
            lemma2_to64();
            assert(all[i as int] == lens@[i as int]);
        }
        total = total + mem::power_of_two(top - lens[i] as u32) as i32;
        i = i + 1;
    }
    total - mem::power_of_two(top) as i32
}

fn set_length(lens: &mut Vec<u8>, i: usize, v: u8)
    requires
        i < old(lens)@.len(),
    ensures
        final(lens)@.len() == old(lens)@.len(),
        numbers(final(lens)@) == numbers(old(lens)@).update(i as int, v as nat),
{
    lens.set(i, v);
    proof {
        assert(numbers(lens@) =~= numbers(old(lens)@).update(i as int, v as nat));
    }
}

fn repay(lens: &mut Vec<u8>, leaves: &[Leaf], top: u32, owed: i32) -> (left: i32)
    requires
        1 <= top <= 12,
        leaves@.len() == old(lens)@.len(),
        old(lens)@.len() <= pow2(top as nat),
        owing(numbers(old(lens)@), top as nat, owed as int),
        0 <= owed <= 0x100000,
    ensures
        final(lens)@.len() == old(lens)@.len(),
        (numbers(final(lens)@), left as int) == repaid(
            numbers(old(lens)@),
            leaves@,
            top as nat,
            owed as int,
        ),
        left >= -0x100000,
        left <= 0,
{
    let ghost goal = repaid(numbers(lens@), leaves@, top as nat, owed as int);
    let ghost n = lens@.len();
    let mut left: i32 = owed;
    while left > 0
        invariant
            1 <= top <= 12,
            n == lens@.len(),
            leaves@.len() == n,
            n <= pow2(top as nat),
            owing(numbers(lens@), top as nat, left as int),
            -0x100000 <= left <= 0x100000,
            repaid(numbers(lens@), leaves@, top as nat, left as int) == goal,
        decreases
                if left > 0 {
                    left as int
                } else {
                    0
                },
    {
        let ghost all = numbers(lens@);
        proof {
            lemma_repay_step(all, leaves@, top as nat, left as int);
            lemma_cheapest_group(
                all,
                leaves@,
                top as nat,
                mem::floor_log2(left as nat) + 1,
            );
            lemma2_to64();
        }
        let start: u32 = mem::highbit32(left as u32) + 1;
        let cheap: u32 = cheapest(lens, leaves, top, start);
        proof {
            lemma_group_bound(all, leaves@, top as nat, start as nat);
        }
        let b: u32 = first_filled(lens, top, cheap);
        if let Some(i) = last_in_group(lens, top, b) {
            proof {
                assert(all[i as int] == lens@[i as int]);
                mem::lemma_pow2_monotone((b - 1) as nat, 12);
            }
            let longer: u8 = lens[i] + 1;
            set_length(lens, i, longer);
            left = left - mem::power_of_two(b - 1) as i32;
        } else {
            return left;
        }
    }
    left
}

/// The search for a group ends within the groups there are.
proof fn lemma_group_bound(lens: Seq<nat>, leaves: Seq<Leaf>, top: nat, b: nat)
    requires
        1 <= top <= 12,
        b >= 1,
        forall|i: int| 0 <= i < lens.len() ==> 1 <= #[trigger] lens[i] <= top,
    ensures
        cheapest_group(lens, leaves, top, b) <= 12,
    decreases b,
{
    if b > 1 {
        lemma_last_of(lens, top - b, lens.len());
        lemma_group_bound(lens, leaves, top, (b - 1) as nat);
    }
}

fn refund(lens: &mut Vec<u8>, top: u32, owed: i32)
    requires
        1 <= top <= 12,
        owing(numbers(old(lens)@), top as nat, owed as int),
        owed <= 0,
        owed < 0 ==> top > 1,
    ensures
        final(lens)@.len() == old(lens)@.len(),
        numbers(final(lens)@) == refunded(numbers(old(lens)@), top as nat, owed as int),
{
    let ghost goal = refunded(numbers(lens@), top as nat, owed as int);
    let ghost n = lens@.len();
    let mut left: i32 = owed;
    let mut at: usize = 0;
    while left < 0
        invariant
            1 <= top <= 12,
            left < 0 ==> top > 1,
            n == lens@.len(),
            left <= 0,
            at <= n,
            owing(numbers(lens@), top as nat, left as int),
            refunded(numbers(lens@), top as nat, left as int) == goal,
            forall|k: int| 0 <= k < at ==> #[trigger] lens@[k] != top,
        decreases -left,
    {
        let ghost all = numbers(lens@);
        proof {
            let k = lemma_at_top_positive(all, top as nat, n);
            assert(all[k] == lens@[k]);
            lemma_first_of(all, top as nat, 0);
        }
        let ghost first = first_of(all, top as nat, 0)->Some_0;
        while at < lens.len() && lens[at] as u32 != top
            invariant
                at <= lens@.len(),
                all == numbers(lens@),
                forall|k: int| 0 <= k < at ==> #[trigger] lens@[k] != top,
            decreases lens@.len() - at,
        {
            at = at + 1;
        }
        proof {
            assert(all[first] == lens@[first]);
            if first < at {
                assert(lens@[first] != top);
            }
            if at < first {
                assert(all[at as int] == lens@[at as int]);
            }
            assert(at == first);
            lemma_refund_step(all, top as nat, left as int);
        }
        set_length(lens, at, (top - 1) as u8);
        left = left + 1;
        proof {
            assert forall|k: int| 0 <= k < at implies #[trigger] lens@[k] != top by {
                assert(numbers(lens@)[k] == all[k]);
                assert(all[k] != top);
            }
        }
    }
}

/// Making the first of the longest codes shorter takes one more.
proof fn lemma_refund_step(lens: Seq<nat>, top: nat, owed: int)
    requires
        owing(lens, top, owed),
        owed < 0,
        top > 1,
    ensures
        first_of(lens, top, 0) matches Some(i) && 0 <= i < lens.len() && owing(
            lens.update(i, (top - 1) as nat),
            top,
            owed + 1,
        ),
{
    let n = lens.len();
    lemma_at_top_positive(lens, top, n);
    lemma_first_of(lens, top, 0);
    let i = first_of(lens, top, 0)->Some_0;
    let next = lens.update(i, (top - 1) as nat);
    lemma_space_update(lens, top, i, (top - 1) as nat, n);
    lemma_at_top_update(lens, top, i, (top - 1) as nat, n);
    lemma2_to64();
    assert((top - lens[i]) as nat == 0);
    assert((top - (top - 1)) as nat == 1);
    assert forall|x: int, y: int| 0 <= x <= y < n implies #[trigger] next[x] <= #[trigger] next[y] by {
        assert(lens[x] <= lens[y]);
        if y == i && x < i {
            assert(lens[x] != top);
            assert(lens[x] <= top);
        }
    }
    assert forall|x: int| 0 <= x < n implies 1 <= #[trigger] next[x] <= top by {
        assert(1 <= lens[x] <= top);
    }
}

/// Limits the depths of a full tree to codes of at most `top` bits, and
/// returns the length of the longest code.
pub fn set_max_height(lens: &mut Vec<u8>, leaves: &[Leaf], top: u32) -> (log: u32)
    requires
        2 <= old(lens)@.len() <= 256,
        leaves@.len() == old(lens)@.len(),
        1 <= top <= 12,
        old(lens)@.len() <= pow2(top as nat),
        forall|i: int| 0 <= i < old(lens)@.len() ==> 1 <= #[trigger] old(lens)@[i],
        forall|i: int, j: int|
            0 <= i <= j < old(lens)@.len() ==> #[trigger] old(lens)@[i] <= #[trigger] old(lens)@[j],
        huff_tree::code_space(numbers(old(lens)@), 256, old(lens)@.len()) == pow2(256),
    ensures
        final(lens)@.len() == old(lens)@.len(),
        (numbers(final(lens)@), log as nat) == limited(
            numbers(old(lens)@),
            leaves@,
            top as nat,
        ),
{
    let ghost depths = numbers(lens@);
    let n: usize = lens.len();
    let largest: u32 = lens[n - 1] as u32;
    if largest <= top {
        return largest;
    }
    proof {
        assert forall|i: int, j: int| 0 <= i <= j < depths.len() implies #[trigger] depths[i]
            <= #[trigger] depths[j] by {
            assert(old(lens)@[i] <= old(lens)@[j]);
        }
        assert forall|i: int| 0 <= i < depths.len() implies 1 <= #[trigger] depths[i] <= 256 by {
            assert(1 <= old(lens)@[i]);
        }
        lemma_cut_off_owing(depths, top as nat, 256);
    }
    let mut i: usize = 0;
    while i < n
        invariant
            i <= n,
            n == lens@.len(),
            n == depths.len(),
            1 <= top <= 12,
            forall|k: int| 0 <= k < i ==> #[trigger] lens@[k] == cut_off(depths, top as nat)[k],
            forall|k: int| i <= k < n ==> #[trigger] lens@[k] == depths[k],
        decreases n - i,
    {
        if lens[i] as u32 > top {
            lens.set(i, top as u8);
        }
        i = i + 1;
    }
    proof {
        assert(numbers(lens@) =~= cut_off(depths, top as nat));
        assert forall|k: int| 0 <= k < n implies #[trigger] lens@[k] <= top by {
            assert(lens@[k] == cut_off(depths, top as nat)[k]);
        }
    }
    let owed: i32 = space_owed(lens, top);
    let ghost short = numbers(lens@);
    let left: i32 = repay(lens, leaves, top, owed);
    proof {
        lemma_repaid(short, leaves@, top as nat, owed as int);
    }
    refund(lens, top, left);
    top
}

/// Lengths are limited only where one is too great: within the limit they stay
/// as they are.
pub proof fn law_short_codes_stay(depths: Seq<nat>, leaves: Seq<Leaf>, top: nat)
    requires
        depths.len() > 0,
        depths.last() <= top,
    ensures
        limited(depths, leaves, top) == (depths, depths.last()),
{
}

/// Where codes that were too long were cut off, others pay for it. A code is
/// made longer that costs little: its symbol is counted at most twice as often
/// as the rarest one of the next longer codes, if there is one.
pub proof fn law_cheap_codes_pay(lens: Seq<nat>, leaves: Seq<Leaf>, top: nat, b: nat)
    requires
        b >= 1,
    ensures
        ({
            let g = cheapest_group(lens, leaves, top, b);
            let high = last_of(lens, top - g, lens.len());
            let low = last_of(lens, top - g + 1, lens.len());
            &&& 1 <= g <= b
            &&& g > 1 ==> high is Some && (low matches Some(l) ==> leaves[high->0].count <= 2
                * leaves[l].count)
            &&& forall|k: nat|
                g < k <= b && #[trigger] last_of(lens, top - k, lens.len()) is Some ==> last_of(
                    lens,
                    top - k + 1,
                    lens.len(),
                ) is Some && leaves[last_of(lens, top - k, lens.len())->0].count > 2
                    * leaves[last_of(lens, top - k + 1, lens.len())->0].count
        }),
    decreases b,
{
    if b > 1 {
        let high = last_of(lens, top - b, lens.len());
        let low = last_of(lens, top - b + 1, lens.len());
        if high is None || (low is Some && leaves[high->Some_0].count > 2
            * leaves[low->Some_0].count) {
            law_cheap_codes_pay(lens, leaves, top, (b - 1) as nat);
        }
    }
}

/// Paying makes one code one bit longer, which gives back half of its space.
pub proof fn law_paying_lengthens_one_code(
    lens: Seq<nat>,
    leaves: Seq<Leaf>,
    top: nat,
    owed: int,
)
    requires
        owed > 0,
    ensures
        ({
            let b = chosen_group(lens, leaves, top, owed as nat);
            match last_of(lens, top - b, lens.len()) {
                Some(i) => repaid(lens, leaves, top, owed) == repaid(
                    lens.update(i, lens[i] + 1),
                    leaves,
                    top,
                    owed - pow2((b - 1) as nat),
                ),
                None => repaid(lens, leaves, top, owed) == (lens, owed),
            }
        }),
        refunded(lens, top, owed) == lens,
{
    let b = chosen_group(lens, leaves, top, owed as nat);
    lemma_pow2_pos((b - 1) as nat);
}

/// The groups of codes are told by their outermost members: the last leaf of a
/// length is its rarest, the first its most frequent.
pub proof fn law_ends_of_a_group(lens: Seq<nat>, v: nat)
    ensures
        match last_of(lens, v as int, lens.len()) {
            Some(i) => 0 <= i < lens.len() && lens[i] == v && forall|j: int|
                i < j < lens.len() ==> #[trigger] lens[j] != v,
            None => forall|j: int| 0 <= j < lens.len() ==> #[trigger] lens[j] != v,
        },
        match first_of(lens, v, 0) {
            Some(i) => 0 <= i < lens.len() && lens[i] == v && forall|j: int|
                0 <= j < i ==> #[trigger] lens[j] != v,
            None => forall|j: int| 0 <= j < lens.len() ==> #[trigger] lens[j] != v,
        },
{
    lemma_last_of(lens, v as int, lens.len());
    lemma_first_of(lens, v, 0);
}

/// Where too much was paid, the most frequent symbol of the longest codes gets
/// a code one bit shorter, once for each unit.
pub proof fn law_refund_goes_to_the_frequent(lens: Seq<nat>, top: nat, owed: int, i: int)
    requires
        owed < 0,
        0 <= i < lens.len(),
        lens[i] == top,
        forall|j: int| 0 <= j < i ==> #[trigger] lens[j] != top,
    ensures
        refunded(lens, top, owed) == refunded(lens.update(i, (top - 1) as nat), top, owed + 1),
{
    lemma_first_of(lens, top, 0);
}

} // verus!
