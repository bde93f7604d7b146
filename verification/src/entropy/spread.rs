//! How a distribution's symbols are laid out over the states of a finite-state
//! entropy table.
//!
//! A table of `2^log` states gives each symbol as many states as its
//! normalized count says. Symbols with the count -1 take one state each from
//! the top of the table down. The others are dealt out in symbol order over
//! the states below, walking the table with a fixed odd step.

use vstd::arithmetic::div_mod::*;
use vstd::arithmetic::power2::*;
use vstd::prelude::*;
use vstd::seq_lib::*;
use vstd::set_lib::*;

verus! {

/// The number of states that a normalized count stands for.
pub open spec fn slots(count: i16) -> nat {
    if count == -1 {
        1
    } else if count > 0 {
        count as nat
    } else {
        0
    }
}

/// The number of states that the first `n` symbols take.
pub open spec fn slots_before(norm: Seq<i16>, n: nat) -> nat
    decreases n,
{
    if n == 0 {
        0
    } else {
        slots_before(norm, (n - 1) as nat) + slots(norm[n - 1])
    }
}

/// The number of the first `n` symbols whose count is -1.
pub open spec fn rare_before(norm: Seq<i16>, n: nat) -> nat
    decreases n,
{
    if n == 0 {
        0
    } else if norm[n - 1] == -1 {
        rare_before(norm, (n - 1) as nat) + 1
    } else {
        rare_before(norm, (n - 1) as nat)
    }
}

/// The counts of an alphabet of `n` symbols fill a table of `2^log` states.
pub open spec fn counts_fill(norm: Seq<i16>, n: nat, log: nat) -> bool {
    &&& 0 < n <= norm.len()
    &&& n <= 256
    &&& slots_before(norm, n) == pow2(log)
}

/// The table sizes whose walk step is odd.
pub open spec fn walkable(log: nat) -> bool {
    log == 2 || 4 <= log <= 9
}

/// The step of the walk over a table of `size` states.
pub open spec fn walk_step(size: nat) -> nat {
    size / 2 + size / 8 + 3
}

/// The state that the walk is at after `i` steps.
pub open spec fn walk(log: nat, i: nat) -> int {
    ((i * walk_step(pow2(log))) % pow2(log)) as int
}

/// The states below `free` that the first `i` places of the walk meet, in
/// order.
pub open spec fn walked(log: nat, free: nat, i: nat) -> Seq<int>
    decreases i,
{
    if i == 0 {
        Seq::empty()
    } else {
        let before = walked(log, free, (i - 1) as nat);
        let at = walk(log, (i - 1) as nat);
        if at < free {
            before.push(at)
        } else {
            before
        }
    }
}

/// The symbols that are dealt out over the walk, each as often as its count.
pub open spec fn common_symbols(norm: Seq<i16>, n: nat) -> Seq<u8>
    decreases n,
{
    if n == 0 {
        Seq::empty()
    } else {
        let before = common_symbols(norm, (n - 1) as nat);
        let count = if norm[n - 1] > 0 {
            norm[n - 1] as nat
        } else {
            0
        };
        before + Seq::new(count, |i: int| (n - 1) as u8)
    }
}

/// The symbols whose count is -1, in order.
pub open spec fn rare_symbols(norm: Seq<i16>, n: nat) -> Seq<u8>
    decreases n,
{
    if n == 0 {
        Seq::empty()
    } else {
        let before = rare_symbols(norm, (n - 1) as nat);
        if norm[n - 1] == -1 {
            before.push((n - 1) as u8)
        } else {
            before
        }
    }
}

/// The symbol of each state.
pub open spec fn spread(norm: Seq<i16>, n: nat, log: nat) -> Seq<u8> {
    let size = pow2(log);
    let free = (size - rare_before(norm, n)) as nat;
    Seq::new(
        size,
        |u: int|
            if u >= free {
                rare_symbols(norm, n)[size - 1 - u]
            } else {
                common_symbols(norm, n)[walked(log, free, size).index_of(u)]
            },
    )
}

/// The states below which the common symbols are dealt out: those that the
/// rare symbols leave, but at least one.
pub open spec fn open_states(norm: Seq<i16>, n: nat, log: nat) -> nat {
    if rare_before(norm, n) < pow2(log) {
        (pow2(log) - rare_before(norm, n)) as nat
    } else {
        1
    }
}

/// Dealing out the common symbols ends where it began, that is at the state 0.
/// It may go round several times, or not at all. In a table of two or of eight
/// states, whose step is a multiple of its size, it does not leave the state 0.
pub open spec fn deals_out(norm: Seq<i16>, n: nat, log: nat) -> bool {
    walkable(log) ==> common_symbols(norm, n).len() % open_states(norm, n, log) == 0
}

/// The symbol of each state where the counts may take more states than there
/// are. Every symbol takes its states from those before it: only the last
/// round over the open states is left, and where the rare symbols take more
/// than there is room for, they share the state 0, which the common symbols
/// take from them in turn. Where the walk does not leave the state 0, the last
/// common symbol has it. States that nothing was dealt to hold the symbol 0.
pub open spec fn laid_out(norm: Seq<i16>, n: nat, log: nat) -> Seq<u8> {
    let size = pow2(log);
    let open = open_states(norm, n, log);
    let rare = rare_symbols(norm, n);
    let common = common_symbols(norm, n);
    Seq::new(
        size,
        |u: int|
            if u >= open {
                rare[size - 1 - u]
            } else if common.len() > 0 && walkable(log) {
                common[common.len() - open + walked(log, open, size).index_of(u)]
            } else if common.len() > 0 && u == 0 {
                common.last()
            } else if rare.len() >= size {
                rare.last()
            } else {
                0
            },
    )
}

/// How many of the first `k` entries hold `s`.
pub open spec fn occurrences(t: Seq<u8>, s: u8, k: nat) -> nat
    decreases k,
{
    if k == 0 {
        0
    } else {
        occurrences(t, s, (k - 1) as nat) + if t[k - 1] == s {
            1nat
        } else {
            0
        }
    }
}

// ---------------------------------------------------------------------------
// The walk meets every state once.

proof fn lemma_odd_cancels(a: nat, s: nat, l: nat)
    requires
        s % 2 == 1,
        (a * s) % pow2(l) == 0,
    ensures
        a % pow2(l) == 0,
    decreases l,
{
    lemma2_to64();
    if l > 0 {
        let m = (l - 1) as nat;
        lemma_pow2_unfold(l);
        lemma_pow2_pos(m);
        let p = pow2(m) as int;
        let q = ((a * s) as int) / (2 * p);
        lemma_fundamental_div_mod((a * s) as int, 2 * p);
        let t = (s / 2) as int;
        assert(a * s == 2 * (a * t) + a) by (nonlinear_arith)
            requires
                s == 2 * t + 1,
        ;
        assert(2 * p * q == 2 * (p * q)) by (nonlinear_arith);
        assert(a % 2 == 0);
        let b = (a / 2) as int;
        assert(a * s == 2 * (b * s)) by (nonlinear_arith)
            requires
                a == 2 * b,
        ;
        assert(b * s == p * q + 0);
        lemma_fundamental_div_mod_converse((b * s) as int, p, q, 0);
        lemma_odd_cancels(b as nat, s, m);
        let r = b / p;
        lemma_fundamental_div_mod(b, p);
        assert(a == (2 * p) * r + 0) by (nonlinear_arith)
            requires
                a == 2 * b,
                b == p * r,
        ;
        lemma_fundamental_div_mod_converse(a as int, 2 * p, r, 0);
    }
}

pub proof fn lemma_step_odd(log: nat)
    requires
        walkable(log),
    ensures
        walk_step(pow2(log)) % 2 == 1,
        4 <= pow2(log) <= 512,
{
    lemma2_to64();
}

proof fn lemma_walk_injective(log: nat, i: nat, j: nat)
    requires
        walkable(log),
        i < j < pow2(log),
    ensures
        walk(log, i) != walk(log, j),
{
    lemma_step_odd(log);
    let size = pow2(log) as int;
    let s = walk_step(pow2(log));
    if walk(log, i) == walk(log, j) {
        lemma_fundamental_div_mod((i * s) as int, size);
        lemma_fundamental_div_mod((j * s) as int, size);
        let qi = (i * s) as int / size;
        let qj = (j * s) as int / size;
        let d = (j - i) as nat;
        assert(d * s == size * (qj - qi) + 0) by (nonlinear_arith)
            requires
                j * s == size * qj + walk(log, i),
                i * s == size * qi + walk(log, i),
                d == j - i,
        ;
        lemma_fundamental_div_mod_converse((d * s) as int, size, qj - qi, 0);
        lemma_odd_cancels(d, s, log);
        lemma_small_mod(d, pow2(log));
    }
}

/// One of the first `i` places of the walk is `u`.
pub open spec fn walk_meets(log: nat, i: nat, u: int) -> bool {
    exists|j: nat| j < i && #[trigger] walk(log, j) == u
}

/// The walked states are distinct, and each is one that the walk was at.
pub proof fn lemma_walked(log: nat, free: nat, i: nat)
    requires
        walkable(log),
        i <= pow2(log),
    ensures
        walked(log, free, i).no_duplicates(),
        forall|k: int|
            0 <= k < walked(log, free, i).len() ==> 0 <= #[trigger] walked(log, free, i)[k] < free,
        forall|k: int|
            0 <= k < walked(log, free, i).len() ==> walk_meets(
                log,
                i,
                #[trigger] walked(log, free, i)[k],
            ),
    decreases i,
{
    lemma_step_odd(log);
    if i > 0 {
        let m = (i - 1) as nat;
        lemma_walked(log, free, m);
        let before = walked(log, free, m);
        let at = walk(log, m);
        lemma_mod_bound((m * walk_step(pow2(log))) as int, pow2(log) as int);
        if at < free {
            assert(!before.contains(at)) by {
                if before.contains(at) {
                    let k = choose|k: int| 0 <= k < before.len() && before[k] == at;
                    assert(walk_meets(log, m, before[k]));
                    let j = choose|j: nat| j < m && #[trigger] walk(log, j) == before[k];
                    lemma_walk_injective(log, j, m);
                }
            }
            let after = walked(log, free, i);
            assert forall|k: int| 0 <= k < after.len() implies walk_meets(
                log,
                i,
                #[trigger] after[k],
            ) by {
                if k < before.len() {
                    assert(walk_meets(log, m, before[k]));
                    let j = choose|j: nat| j < m && #[trigger] walk(log, j) == before[k];
                    assert(walk(log, j) == after[k]);
                } else {
                    assert(walk(log, m) == after[k]);
                }
            }
        } else {
            assert forall|k: int| 0 <= k < before.len() implies walk_meets(
                log,
                i,
                #[trigger] before[k],
            ) by {
                assert(walk_meets(log, m, before[k]));
                let j = choose|j: nat| j < m && #[trigger] walk(log, j) == before[k];
                assert(walk(log, j) == before[k]);
            }
        }
    }
}

/// Distinct numbers below `free` are at most `free` many; if they are exactly
/// that many, they are all of them.
pub proof fn lemma_pigeonhole(s: Seq<int>, free: nat)
    requires
        s.no_duplicates(),
        forall|k: int| 0 <= k < s.len() ==> 0 <= #[trigger] s[k] < free,
    ensures
        s.len() <= free,
        s.len() == free ==> forall|u: int| 0 <= u < free ==> s.contains(u),
{
    s.unique_seq_to_set();
    let all = set_int_range(0, free as int);
    lemma_int_range(0, free as int);
    assert(s.to_set().subset_of(all));
    lemma_len_subset(s.to_set(), all);
    if s.len() == free {
        lemma_subset_equality(s.to_set(), all);
        assert forall|u: int| 0 <= u < free implies s.contains(u) by {
            assert(all.contains(u));
            assert(s.to_set().contains(u));
        }
    }
}

/// A whole walk meets exactly the states below `free`.
pub proof fn lemma_walk_complete(log: nat, free: nat)
    requires
        walkable(log),
        free <= pow2(log),
    ensures
        walked(log, free, pow2(log)).len() == free,
{
    let size = pow2(log);
    lemma_walked(log, size, size);
    lemma_walked(log, free, size);
    lemma_walked_full_len(log, size);
    lemma_pigeonhole(walked(log, size, size), size);
    lemma_pigeonhole(walked(log, free, size), free);
    // Every state below `free` is met by the unrestricted walk.
    let part = walked(log, free, size);
    assert forall|u: int| 0 <= u < free implies part.contains(u) by {
        assert(walked(log, size, size).contains(u));
        let k = choose|k: int|
            0 <= k < walked(log, size, size).len() && walked(log, size, size)[k] == u;
        assert(walk_meets(log, size, walked(log, size, size)[k]));
        let j = choose|j: nat| j < size && #[trigger] walk(log, j) == walked(log, size, size)[k];
        lemma_walked_contains(log, free, size, j);
    }
    part.unique_seq_to_set();
    let all = set_int_range(0, free as int);
    lemma_int_range(0, free as int);
    assert(all.subset_of(part.to_set()));
    lemma_len_subset(all, part.to_set());
}

proof fn lemma_walked_full_len(log: nat, i: nat)
    requires
        walkable(log),
    ensures
        walked(log, pow2(log), i).len() == i,
    decreases i,
{
    lemma_step_odd(log);
    if i > 0 {
        lemma_walked_full_len(log, (i - 1) as nat);
        lemma_mod_bound(((i - 1) as nat * walk_step(pow2(log))) as int, pow2(log) as int);
    }
}

proof fn lemma_walked_contains(log: nat, free: nat, i: nat, j: nat)
    requires
        j < i,
        walk(log, j) < free,
    ensures
        walked(log, free, i).contains(walk(log, j)),
    decreases i,
{
    let before = walked(log, free, (i - 1) as nat);
    if j == i - 1 {
        assert(walked(log, free, i)[before.len() as int] == walk(log, j));
    } else {
        lemma_walked_contains(log, free, (i - 1) as nat, j);
        let k = choose|k: int| 0 <= k < before.len() && before[k] == walk(log, j);
        assert(walked(log, free, i)[k] == walk(log, j));
    }
}

// ---------------------------------------------------------------------------
// How often each symbol occurs.

pub proof fn lemma_symbol_lists(norm: Seq<i16>, n: nat)
    requires
        n <= norm.len(),
        n <= 256,
    ensures
        common_symbols(norm, n).len() + rare_symbols(norm, n).len() == slots_before(norm, n),
        rare_symbols(norm, n).len() == rare_before(norm, n),
        rare_before(norm, n) <= slots_before(norm, n),
        forall|k: int| 0 <= k < common_symbols(norm, n).len() ==> common_symbols(norm, n)[k] < n,
        forall|k: int| 0 <= k < rare_symbols(norm, n).len() ==> rare_symbols(norm, n)[k] < n,
    decreases n,
{
    if n > 0 {
        lemma_symbol_lists(norm, (n - 1) as nat);
    }
}

proof fn lemma_occurrences_push(t: Seq<u8>, s: u8, b: u8, k: nat)
    requires
        k <= t.len(),
    ensures
        occurrences(t.push(b), s, k) == occurrences(t, s, k),
    decreases k,
{
    if k > 0 {
        lemma_occurrences_push(t, s, b, (k - 1) as nat);
    }
}

proof fn lemma_occurrences_prefix(t: Seq<u8>, r: Seq<u8>, s: u8, k: nat)
    requires
        k <= t.len(),
        k <= r.len(),
        forall|i: int| 0 <= i < k ==> t[i] == r[i],
    ensures
        occurrences(t, s, k) == occurrences(r, s, k),
    decreases k,
{
    if k > 0 {
        lemma_occurrences_prefix(t, r, s, (k - 1) as nat);
    }
}

proof fn lemma_occurrences_run(t: Seq<u8>, b: u8, s: u8, count: nat, k: nat)
    requires
        k <= count,
    ensures
        occurrences(t + Seq::new(count, |i: int| b), s, t.len() + k) == occurrences(
            t,
            s,
            t.len(),
        ) + if s == b {
            k
        } else {
            0
        },
    decreases k,
{
    let r = t + Seq::new(count, |i: int| b);
    if k == 0 {
        lemma_occurrences_prefix(t, r, s, t.len());
    } else {
        lemma_occurrences_run(t, b, s, count, (k - 1) as nat);
        assert(r[t.len() + k - 1] == b);
    }
}

/// Together, the two lists hold each symbol as often as its count says.
proof fn lemma_lists_occurrences(norm: Seq<i16>, n: nat, s: u8)
    requires
        n <= norm.len(),
        n <= 256,
    ensures
        occurrences(common_symbols(norm, n), s, common_symbols(norm, n).len()) + occurrences(
            rare_symbols(norm, n),
            s,
            rare_symbols(norm, n).len(),
        ) == if s < n {
            slots(norm[s as int])
        } else {
            0
        },
    decreases n,
{
    if n > 0 {
        let m = (n - 1) as nat;
        lemma_lists_occurrences(norm, m, s);
        let count = if norm[n - 1] > 0 {
            norm[n - 1] as nat
        } else {
            0
        };
        lemma_occurrences_run(common_symbols(norm, m), (n - 1) as u8, s, count, count);
        if norm[n - 1] == -1 {
            let r = rare_symbols(norm, m);
            lemma_occurrences_push(r, s, (n - 1) as u8, r.len());
        }
    }
}

/// A table that is being filled: unfilled entries are negative.
spec fn filled(t: Seq<int>, s: int, k: nat) -> nat
    decreases k,
{
    if k == 0 {
        0
    } else {
        filled(t, s, (k - 1) as nat) + if t[k - 1] == s {
            1nat
        } else {
            0
        }
    }
}

proof fn lemma_filled_update(t: Seq<int>, s: int, k: nat, p: int, v: int)
    requires
        0 <= p < t.len(),
        k <= t.len(),
    ensures
        filled(t.update(p, v), s, k) == filled(t, s, k) - (if p < k && t[p] == s {
            1int
        } else {
            0
        }) + (if p < k && v == s {
            1int
        } else {
            0
        }),
    decreases k,
{
    if k > 0 {
        lemma_filled_update(t, s, (k - 1) as nat, p, v);
    }
}

spec fn fill(size: nat, places: Seq<int>, symbols: Seq<u8>, j: nat) -> Seq<int>
    decreases j,
{
    if j == 0 {
        Seq::new(size, |i: int| -1int)
    } else {
        fill(size, places, symbols, (j - 1) as nat).update(places[j - 1], symbols[j - 1] as int)
    }
}

proof fn lemma_fill(size: nat, places: Seq<int>, symbols: Seq<u8>, j: nat, s: u8)
    requires
        places.no_duplicates(),
        forall|k: int| 0 <= k < places.len() ==> 0 <= #[trigger] places[k] < size,
        j <= places.len(),
        places.len() == symbols.len(),
    ensures
        fill(size, places, symbols, j).len() == size,
        filled(fill(size, places, symbols, j), s as int, size) == occurrences(symbols, s, j),
        forall|k: int|
            0 <= k < j ==> fill(size, places, symbols, j)[#[trigger] places[k]] == symbols[k],
        forall|k: int|
            j <= k < places.len() ==> fill(size, places, symbols, j)[#[trigger] places[k]] == -1,
    decreases j,
{
    if j == 0 {
        lemma_filled_none(size, s as int, size);
    } else {
        let m = (j - 1) as nat;
        lemma_fill(size, places, symbols, m, s);
        let t = fill(size, places, symbols, m);
        lemma_filled_update(t, s as int, size, places[m as int], symbols[m as int] as int);
    }
}

proof fn lemma_filled_none(size: nat, s: int, k: nat)
    requires
        k <= size,
        s >= 0,
    ensures
        filled(Seq::new(size, |i: int| -1int), s, k) == 0,
    decreases k,
{
    if k > 0 {
        lemma_filled_none(size, s, (k - 1) as nat);
    }
}

proof fn lemma_filled_is_occurrences(t: Seq<int>, r: Seq<u8>, s: u8, k: nat)
    requires
        k <= t.len(),
        k <= r.len(),
        forall|i: int| 0 <= i < k ==> t[i] == r[i],
    ensures
        filled(t, s as int, k) == occurrences(r, s, k),
    decreases k,
{
    if k > 0 {
        lemma_filled_is_occurrences(t, r, s, (k - 1) as nat);
    }
}

proof fn lemma_occurrences_concat(a: Seq<u8>, b: Seq<u8>, s: u8, k: nat)
    requires
        k <= b.len(),
    ensures
        occurrences(a + b, s, a.len() + k) == occurrences(a, s, a.len()) + occurrences(b, s, k),
    decreases k,
{
    if k == 0 {
        lemma_occurrences_prefix(a, a + b, s, a.len());
    } else {
        lemma_occurrences_concat(a, b, s, (k - 1) as nat);
    }
}

/// A spread table has `2^log` states, each symbol has as many of them as its
/// count says, and no state holds a symbol outside the alphabet.
pub proof fn lemma_spread(norm: Seq<i16>, n: nat, log: nat)
    requires
        counts_fill(norm, n, log),
        walkable(log),
    ensures
        spread(norm, n, log).len() == pow2(log),
        forall|s: u8|
            #[trigger] occurrences(spread(norm, n, log), s, pow2(log)) == if s < n {
                slots(norm[s as int])
            } else {
                0
            },
        forall|u: int| 0 <= u < pow2(log) ==> (#[trigger] spread(norm, n, log)[u]) < n,
        forall|u: int|
            0 <= u < pow2(log) ==> slots(norm[(#[trigger] spread(norm, n, log)[u]) as int]) > 0,
{
    let size = pow2(log);
    let rare = rare_before(norm, n);
    lemma_symbol_lists(norm, n);
    let free = (size - rare) as nat;
    let low = walked(log, free, size);
    lemma_step_odd(log);
    lemma_walked(log, free, size);
    lemma_walk_complete(log, free);
    lemma_pigeonhole(low, free);
    let high = Seq::new(rare, |k: int| size - 1 - k);
    let places = low + high;
    let symbols = common_symbols(norm, n) + rare_symbols(norm, n);
    assert(places.len() == size);
    assert(places.no_duplicates()) by {
        assert forall|i: int, j: int| 0 <= i < j < places.len() implies places[i] != places[j] by {
            if j < low.len() {
                assert(low[i] != low[j]);
            } else if i < low.len() {
                assert(0 <= low[i] < free);
            }
        }
    }
    assert forall|k: int| 0 <= k < places.len() implies 0 <= #[trigger] places[k] < size by {
        if k < low.len() {
            assert(0 <= low[k] < free);
        }
    }
    lemma_pigeonhole(places, size);
    let table = spread(norm, n, log);
    assert forall|s: u8|
        #[trigger] occurrences(table, s, size) == if s < n {
            slots(norm[s as int])
        } else {
            0
        } by {
        lemma_fill(size, places, symbols, size, s);
        let t = fill(size, places, symbols, size);
        assert forall|u: int| 0 <= u < size implies t[u] == table[u] by {
            assert(places.contains(u));
            let k = choose|k: int| 0 <= k < places.len() && places[k] == u;
            assert(t[places[k]] == symbols[k]);
            if k < low.len() {
                assert(low[k] == u);
                assert(low.contains(u));
                let j = low.index_of(u);
                assert(low[j] == u && 0 <= j < low.len());
                assert(j == k);
            }
        }
        lemma_filled_is_occurrences(t, table, s, size);
        lemma_occurrences_concat(
            common_symbols(norm, n),
            rare_symbols(norm, n),
            s,
            rare_symbols(norm, n).len(),
        );
        lemma_lists_occurrences(norm, n, s);
    }
    assert forall|u: int| 0 <= u < size implies (#[trigger] table[u]) < n && slots(
        norm[table[u] as int],
    ) > 0 by {
        lemma_occurrences_positive(table, u, size);
        assert(occurrences(table, table[u], size) > 0);
    }
}

/// Where the counts fill the table, every symbol keeps its states.
pub proof fn law_filling_counts_go_round_once(norm: Seq<i16>, n: nat, log: nat)
    requires
        counts_fill(norm, n, log),
        walkable(log),
    ensures
        deals_out(norm, n, log),
        laid_out(norm, n, log) == spread(norm, n, log),
{
    let size = pow2(log);
    let open = open_states(norm, n, log);
    lemma_symbol_lists(norm, n);
    lemma_step_odd(log);
    lemma_mod_self_0(open as int);
    if rare_before(norm, n) < size {
        assert(common_symbols(norm, n).len() == open);
    } else {
        assert(common_symbols(norm, n).len() == 0);
        lemma_small_mod(0, open);
    }
    assert(laid_out(norm, n, log) =~= spread(norm, n, log));
}

/// What is laid out are symbols of the alphabet.
pub proof fn lemma_laid_out_symbols(norm: Seq<i16>, n: nat, log: nat)
    requires
        0 < n <= norm.len(),
        n <= 256,
        deals_out(norm, n, log),
    ensures
        laid_out(norm, n, log).len() == pow2(log),
        forall|u: int| 0 <= u < pow2(log) ==> (#[trigger] laid_out(norm, n, log)[u]) < n,
{
    let size = pow2(log);
    let open = open_states(norm, n, log);
    let common = common_symbols(norm, n);
    let rare = rare_symbols(norm, n);
    let table = laid_out(norm, n, log);
    lemma_symbol_lists(norm, n);
    lemma_pow2_pos(log);
    if walkable(log) {
        lemma_walked(log, open, size);
        lemma_walk_complete(log, open);
        lemma_pigeonhole(walked(log, open, size), open);
        if common.len() > 0 && common.len() < open {
            lemma_small_mod(common.len(), open);
        }
    }
    assert forall|u: int| 0 <= u < size implies (#[trigger] table[u]) < n by {
        if u >= open {
            assert(rare[size - 1 - u] < n);
        } else if common.len() > 0 && walkable(log) {
            assert(walked(log, open, size).contains(u));
            let j = walked(log, open, size).index_of(u);
            assert(0 <= j < open);
            assert(common[common.len() - open + j] < n);
        } else if common.len() > 0 && u == 0 {
            assert(common[common.len() - 1] < n);
        } else if rare.len() >= size {
            assert(rare[rare.len() - 1] < n);
        }
    }
}

/// The symbols of a shorter alphabet come first.
pub proof fn lemma_common_prefix(norm: Seq<i16>, m: nat, n: nat)
    requires
        m <= n,
    ensures
        common_symbols(norm, m).len() <= common_symbols(norm, n).len(),
        forall|k: int|
            0 <= k < common_symbols(norm, m).len() ==> common_symbols(norm, n)[k]
                == common_symbols(norm, m)[k],
    decreases n,
{
    if m < n {
        lemma_common_prefix(norm, m, (n - 1) as nat);
    }
}

/// Later symbols start no earlier.
pub proof fn lemma_slots_monotone(norm: Seq<i16>, m: nat, n: nat)
    requires
        m <= n,
    ensures
        slots_before(norm, m) <= slots_before(norm, n),
    decreases n,
{
    if m < n {
        lemma_slots_monotone(norm, m, (n - 1) as nat);
    }
}

/// Every occurrence number below the total belongs to a position.
pub proof fn lemma_nth_occurrence(t: Seq<u8>, s: u8, n: nat, k: nat) -> (u: int)
    requires
        n <= t.len(),
        k < occurrences(t, s, n),
    ensures
        0 <= u < n,
        t[u] == s,
        occurrences(t, s, u as nat) == k,
    decreases n,
{
    let m = (n - 1) as nat;
    if k < occurrences(t, s, m) {
        lemma_nth_occurrence(t, s, m, k)
    } else {
        m as int
    }
}

/// A symbol that a table holds occurs in it.
pub proof fn lemma_occurrences_positive(t: Seq<u8>, u: int, k: nat)
    requires
        0 <= u < k <= t.len(),
    ensures
        occurrences(t, t[u], u as nat) < occurrences(t, t[u], k),
    decreases k,
{
    if u < k - 1 {
        lemma_occurrences_positive(t, u, (k - 1) as nat);
    }
}

} // verus!
