//! Building the prefix code of a histogram.

use crate::entropy::huff_code;
use crate::entropy::huff_code::{SYMBOLVALUE_MAX, TABLELOG_MAX};
use crate::entropy::huff_describe;
use crate::entropy::huff_limit;
use crate::entropy::huff_limit::set_max_height;
use crate::entropy::huff_sort;
use crate::entropy::huff_sort::{sort_nodes, Leaf};
use crate::entropy::huff_table::{build_ctable_from_weights, CTableX1, Code};
use crate::entropy::huff_tree;
use crate::entropy::huff_tree::tree_depths;
use crate::entropy::normalize;
use crate::error::{Error, Result};
use vstd::arithmetic::power2::*;
use vstd::prelude::*;

verus! {

/// The limit on code lengths where none is given.
pub const TABLELOG_DEFAULT: usize = 11;

/// The leaves up to the last one that is counted.
pub open spec fn trimmed(nodes: Seq<Leaf>) -> Seq<Leaf>
    decreases nodes.len(),
{
    if nodes.len() > 0 && nodes.last().count == 0 {
        trimmed(nodes.drop_last())
    } else {
        nodes
    }
}

/// The leaves of the symbols that are counted.
pub open spec fn tree_leaves(count: Seq<u32>, n: nat) -> Seq<Leaf> {
    trimmed(huff_sort::sorted_leaves(count, n))
}

/// The lengths of the leaves' codes, none above `top`, and the greatest.
pub open spec fn code_lengths(count: Seq<u32>, n: nat, top: nat) -> (Seq<nat>, nat) {
    let leaves = tree_leaves(count, n);
    huff_limit::limited(huff_tree::leaf_depths(leaves), leaves, top)
}

/// The length of the longest code where lengths are not limited.
pub open spec fn tree_height(count: Seq<u32>, n: nat) -> nat {
    huff_tree::leaf_depths(tree_leaves(count, n)).last()
}

/// The weights of `n` symbols after the first `k` leaves' lengths are known.
pub open spec fn assigned(leaves: Seq<Leaf>, lens: Seq<nat>, log: nat, n: nat, k: nat) -> Seq<u8>
    decreases k,
{
    if k == 0 {
        Seq::new(n, |i: int| 0u8)
    } else {
        assigned(leaves, lens, log, n, (k - 1) as nat).update(
            leaves[k - 1].byte as int,
            (log + 1 - lens[k - 1]) as u8,
        )
    }
}

/// The prefix code of the counts of `n` symbols, with codes of at most `top`
/// bits.
pub open spec fn huffman_code(count: Seq<u32>, n: nat, top: nat) -> Code {
    let leaves = tree_leaves(count, n);
    let (lens, log) = code_lengths(count, n, top);
    Code { weights: assigned(leaves, lens, log, n, leaves.len()), log }
}

/// The counts have a prefix code: at least two symbols are counted, no more
/// than there are codes of the length, and the counts are not too large.
pub open spec fn buildable(count: Seq<u32>, n: nat, top: nat) -> bool {
    &&& n <= 256
    &&& n <= count.len()
    &&& 1 <= top <= TABLELOG_MAX
    &&& 2 <= normalize::symbols_counted(count, n) <= pow2(top)
    &&& normalize::count_sum(count, n) < 0x40000000
}

// ---------------------------------------------------------------------------
// The leaves of the counted symbols.

proof fn lemma_trimmed(nodes: Seq<Leaf>)
    ensures
        trimmed(nodes).len() <= nodes.len(),
        forall|i: int| 0 <= i < trimmed(nodes).len() ==> #[trigger] trimmed(nodes)[i] == nodes[i],
        forall|i: int|
            trimmed(nodes).len() <= i < nodes.len() ==> (#[trigger] nodes[i]).count == 0,
        trimmed(nodes).len() > 0 ==> trimmed(nodes).last().count > 0,
    decreases nodes.len(),
{
    if nodes.len() > 0 && nodes.last().count == 0 {
        lemma_trimmed(nodes.drop_last());
        assert forall|i: int| trimmed(nodes).len() <= i < nodes.len() implies (
        #[trigger] nodes[i]).count == 0 by {
            if i < nodes.len() - 1 {
                assert(nodes.drop_last()[i] == nodes[i]);
            }
        }
    }
}

/// The counted symbols have a leaf each, with their counts, by descending
/// count.
pub proof fn lemma_tree_leaves(count: Seq<u32>, n: nat)
    requires
        n <= 256,
        n <= count.len(),
    ensures
        ({
            let leaves = tree_leaves(count, n);
            &&& leaves.len() <= n
            &&& huff_sort::descending(leaves, 0, leaves.len() - 1)
            &&& forall|i: int|
                0 <= i < leaves.len() ==> (#[trigger] leaves[i]).byte < n && leaves[i].count
                    == count[leaves[i].byte as int] && leaves[i].count > 0
            &&& forall|i: int, j: int|
                0 <= i < j < leaves.len() ==> (#[trigger] leaves[i]).byte != (
                #[trigger] leaves[j]).byte
            &&& forall|s: int|
                0 <= s < n && count[s] > 0 ==> #[trigger] huff_sort::has_leaf(leaves, s)
        }),
{
    let nodes = huff_sort::sorted_leaves(count, n);
    let leaves = tree_leaves(count, n);
    huff_sort::law_sorted_leaves(count, n);
    lemma_trimmed(nodes);
    assert forall|i: int| 0 <= i < leaves.len() implies (#[trigger] leaves[i]).byte < n
        && leaves[i].count == count[leaves[i].byte as int] && leaves[i].count > 0 by {
        assert(leaves[i] == nodes[i]);
        let last = leaves.len() - 1;
        assert(leaves[last] == nodes[last]);
        assert(nodes[i].count >= nodes[last].count);
    }
    assert forall|i: int, j: int| 0 <= i < j < leaves.len() implies (#[trigger] leaves[i]).byte != (
    #[trigger] leaves[j]).byte by {
        assert(leaves[i] == nodes[i] && leaves[j] == nodes[j]);
    }
    assert forall|i: int, j: int| 0 <= i <= j <= leaves.len() - 1 implies (
    #[trigger] leaves[i]).count >= (#[trigger] leaves[j]).count by {
        assert(leaves[i] == nodes[i] && leaves[j] == nodes[j]);
    }
    assert forall|s: int| 0 <= s < n && count[s] > 0 implies #[trigger] huff_sort::has_leaf(
        leaves,
        s,
    ) by {
        assert(huff_sort::has_leaf(nodes, s));
        let i = choose|i: int| huff_sort::leaf_at(nodes, i, s);
        if i >= leaves.len() {
            assert(nodes[i].count == 0);
        }
        assert(leaves[i] == nodes[i]);
        assert(huff_sort::leaf_at(leaves, i, s));
    }
}

/// The counts without those of the first `k` leaves.
spec fn cleared(count: Seq<u32>, leaves: Seq<Leaf>, k: nat) -> Seq<u32>
    decreases k,
{
    if k == 0 {
        count
    } else {
        cleared(count, leaves, (k - 1) as nat).update(leaves[k - 1].byte as int, 0)
    }
}

proof fn lemma_cleared_entries(count: Seq<u32>, leaves: Seq<Leaf>, k: nat)
    requires
        k <= leaves.len(),
        forall|i: int| 0 <= i < leaves.len() ==> (#[trigger] leaves[i]).byte < count.len(),
    ensures
        cleared(count, leaves, k).len() == count.len(),
        forall|s: int|
            0 <= s < count.len() && (forall|i: int| 0 <= i < k ==> (#[trigger] leaves[i]).byte != s)
                ==> #[trigger] cleared(count, leaves, k)[s] == count[s],
        forall|i: int| 0 <= i < k ==> cleared(count, leaves, k)[(#[trigger] leaves[i]).byte as int] == 0,
    decreases k,
{
    if k > 0 {
        lemma_cleared_entries(count, leaves, (k - 1) as nat);
    }
}

proof fn lemma_sum_cleared(count: Seq<u32>, s: int, n: nat)
    requires
        0 <= s < count.len(),
        n <= count.len(),
    ensures
        normalize::count_sum(count.update(s, 0), n) + if s < n {
            count[s] as nat
        } else {
            0
        } == normalize::count_sum(count, n),
        normalize::symbols_counted(count.update(s, 0), n) + if s < n && count[s] > 0 {
            1nat
        } else {
            0
        } == normalize::symbols_counted(count, n),
    decreases n,
{
    if n > 0 {
        lemma_sum_cleared(count, s, (n - 1) as nat);
    }
}

proof fn lemma_cleared_sum(count: Seq<u32>, leaves: Seq<Leaf>, n: nat, k: nat)
    requires
        n <= count.len(),
        k <= leaves.len(),
        forall|i: int|
            0 <= i < leaves.len() ==> (#[trigger] leaves[i]).byte < n && leaves[i].count
                == count[leaves[i].byte as int] && leaves[i].count > 0,
        forall|i: int, j: int|
            0 <= i < j < leaves.len() ==> (#[trigger] leaves[i]).byte != (#[trigger] leaves[j]).byte,
    ensures
        normalize::count_sum(cleared(count, leaves, k), n) + huff_tree::leaf_sum(leaves, k)
            == normalize::count_sum(count, n),
        normalize::symbols_counted(cleared(count, leaves, k), n) + k == normalize::symbols_counted(count, n),
    decreases k,
{
    if k > 0 {
        let m = (k - 1) as nat;
        lemma_cleared_sum(count, leaves, n, m);
        lemma_cleared_entries(count, leaves, m);
        let b = leaves[m as int].byte as int;
        assert forall|i: int| 0 <= i < m implies (#[trigger] leaves[i]).byte != b by {}
        assert(cleared(count, leaves, m)[b] == count[b]);
        lemma_sum_cleared(cleared(count, leaves, m), b, n);
    }
}

proof fn lemma_none_counted(count: Seq<u32>, n: nat)
    requires
        forall|s: int| 0 <= s < n ==> #[trigger] count[s] == 0,
    ensures
        normalize::symbols_counted(count, n) == 0,
    decreases n,
{
    if n > 0 {
        lemma_none_counted(count, (n - 1) as nat);
    }
}

/// There are as many leaves as symbols are counted, and they weigh no more.
pub proof fn lemma_leaf_totals(count: Seq<u32>, n: nat)
    requires
        n <= 256,
        n <= count.len(),
    ensures
        tree_leaves(count, n).len() == normalize::symbols_counted(count, n),
        huff_tree::leaf_sum(tree_leaves(count, n), tree_leaves(count, n).len())
            <= normalize::count_sum(count, n),
{
    let leaves = tree_leaves(count, n);
    let k = leaves.len();
    lemma_tree_leaves(count, n);
    lemma_cleared_sum(count, leaves, n, k);
    lemma_cleared_entries(count, leaves, k);
    let rest = cleared(count, leaves, k);
    assert forall|s: int| 0 <= s < n implies #[trigger] rest[s] == 0 by {
        if count[s] > 0 {
            assert(huff_sort::has_leaf(leaves, s));
            let i = choose|i: int| huff_sort::leaf_at(leaves, i, s);
            assert(leaves[i].byte == s);
        } else if exists|i: int| 0 <= i < k && (#[trigger] leaves[i]).byte == s {
        } else {
            assert(rest[s] == count[s]);
        }
    }
    lemma_none_counted(rest, n);
}

// ---------------------------------------------------------------------------
// The weights.

proof fn lemma_sum_update(weights: Seq<u8>, s: int, w: u8, n: nat)
    requires
        0 <= s < weights.len(),
        n <= weights.len(),
        weights[s] == 0,
    ensures
        huff_code::weight_sum(weights.update(s, w), n) == huff_code::weight_sum(weights, n) + if s
            < n {
            huff_code::width(w as nat)
        } else {
            0
        },
    decreases n,
{
    if n > 0 {
        lemma_sum_update(weights, s, w, (n - 1) as nat);
    }
}

proof fn lemma_zero_sum(weights: Seq<u8>, n: nat)
    requires
        forall|i: int| 0 <= i < n ==> #[trigger] weights[i] == 0,
    ensures
        huff_code::weight_sum(weights, n) == 0,
    decreases n,
{
    if n > 0 {
        lemma_zero_sum(weights, (n - 1) as nat);
    }
}

/// What the weights are after `k` leaves.
proof fn lemma_assigned(leaves: Seq<Leaf>, lens: Seq<nat>, log: nat, n: nat, k: nat)
    requires
        k <= leaves.len(),
        lens.len() == leaves.len(),
        log <= TABLELOG_MAX,
        forall|i: int| 0 <= i < leaves.len() ==> (#[trigger] leaves[i]).byte < n,
        forall|i: int, j: int|
            0 <= i < j < leaves.len() ==> (#[trigger] leaves[i]).byte != (#[trigger] leaves[j]).byte,
        forall|i: int| 0 <= i < lens.len() ==> 1 <= #[trigger] lens[i] <= log,
    ensures
        ({
            let ws = assigned(leaves, lens, log, n, k);
            &&& ws.len() == n
            &&& huff_code::weight_sum(ws, n) == huff_tree::code_space(lens, log, k)
            &&& forall|i: int|
                0 <= i < k ==> ws[(#[trigger] leaves[i]).byte as int] == log + 1 - lens[i]
            &&& forall|s: int|
                0 <= s < n && (forall|i: int| 0 <= i < k ==> (#[trigger] leaves[i]).byte != s)
                    ==> #[trigger] ws[s] == 0
            &&& forall|s: int| 0 <= s < n ==> #[trigger] ws[s] <= log
        }),
    decreases k,
{
    let ws = assigned(leaves, lens, log, n, k);
    if k == 0 {
        lemma_zero_sum(ws, n);
    } else {
        let m = (k - 1) as nat;
        lemma_assigned(leaves, lens, log, n, m);
        let before = assigned(leaves, lens, log, n, m);
        let b = leaves[m as int].byte as int;
        let w = (log + 1 - lens[m as int]) as u8;
        assert(1 <= lens[m as int] <= log);
        assert forall|i: int| 0 <= i < m implies (#[trigger] leaves[i]).byte != b by {}
        assert(before[b] == 0);
        lemma_sum_update(before, b, w, n);
        assert(huff_code::width(w as nat) == pow2((log - lens[m as int]) as nat));
        assert forall|i: int| 0 <= i < k implies ws[(#[trigger] leaves[i]).byte as int] == log + 1
            - lens[i] by {
            if i < m {
                assert(leaves[i].byte != b);
            }
        }
    }
}

proof fn lemma_weight_there(weights: Seq<u8>, w: nat, i: int, n: nat)
    requires
        0 <= i < n,
        weights[i] == w,
    ensures
        huff_code::of_weight(weights, w, n) > 0,
    decreases n,
{
    if i < n - 1 {
        lemma_weight_there(weights, w, i, (n - 1) as nat);
    }
}

/// The lengths of the leaves' codes are those of a full tree.
proof fn lemma_code_lengths(count: Seq<u32>, n: nat, top: nat)
    requires
        buildable(count, n, top),
    ensures
        ({
            let leaves = tree_leaves(count, n);
            let (lens, log) = code_lengths(count, n, top);
            &&& lens.len() == leaves.len()
            &&& leaves.len() >= 2
            &&& 1 <= log <= top
            &&& lens.last() == log
            &&& forall|i: int| 0 <= i < lens.len() ==> 1 <= #[trigger] lens[i] <= log
            &&& forall|i: int, j: int|
                0 <= i <= j < lens.len() ==> #[trigger] lens[i] <= #[trigger] lens[j]
            &&& huff_tree::code_space(lens, log, lens.len()) == pow2(log)
        }),
{
    let leaves = tree_leaves(count, n);
    lemma_tree_leaves(count, n);
    lemma_leaf_totals(count, n);
    huff_tree::lemma_leaf_depths(leaves);
    huff_tree::lemma_tree_full(leaves, 256);
    let depths = huff_tree::leaf_depths(leaves);
    assert forall|i: int| 0 <= i < depths.len() implies 1 <= #[trigger] depths[i] <= 256 by {}
    assert(depths.last() == depths[depths.len() - 1]);
    huff_limit::law_limited(depths, leaves, top, 256);
}

/// The code of a histogram is complete, gives a code to the counted symbols and
/// to no others, and has none longer than allowed.
pub proof fn law_huffman_code(count: Seq<u32>, n: nat, top: nat)
    requires
        buildable(count, n, top),
    ensures
        ({
            let code = huffman_code(count, n, top);
            &&& code.wf()
            &&& code.log <= top
            &&& code.weights.len() == n
            &&& forall|s: u8| s < n ==> (#[trigger] code.holds(s) <==> count[s as int] > 0)
            &&& huff_code::of_weight(code.weights, 1, n) > 0
        }),
{
    let leaves = tree_leaves(count, n);
    let (lens, log) = code_lengths(count, n, top);
    let code = huffman_code(count, n, top);
    lemma_tree_leaves(count, n);
    lemma_leaf_totals(count, n);
    lemma_code_lengths(count, n, top);
    let k = leaves.len();
    lemma_assigned(leaves, lens, log, n, k);
    assert forall|s: u8| s < n implies (#[trigger] code.holds(s) <==> count[s as int] > 0) by {
        if count[s as int] > 0 {
            assert(huff_sort::has_leaf(leaves, s as int));
            let i = choose|i: int| huff_sort::leaf_at(leaves, i, s as int);
            assert(leaves[i].byte == s);
            assert(1 <= lens[i] <= log);
        } else {
            assert forall|i: int| 0 <= i < k implies (#[trigger] leaves[i]).byte != s by {}
            assert(code.weights[s as int] == 0);
        }
    }
    let last = leaves[k - 1].byte as int;
    assert(lens[k - 1] == log);
    assert(code.weights[last] == 1);
    lemma_weight_there(code.weights, 1, last, n);
    assert(0 < n);
}

/// A leaf's code has the length that was given to the leaf.
pub proof fn lemma_code_of_leaf(count: Seq<u32>, n: nat, top: nat, i: int)
    requires
        buildable(count, n, top),
        0 <= i < tree_leaves(count, n).len(),
    ensures
        huffman_code(count, n, top).length(tree_leaves(count, n)[i].byte) == code_lengths(
            count,
            n,
            top,
        ).0[i],
{
    let leaves = tree_leaves(count, n);
    let (lens, log) = code_lengths(count, n, top);
    lemma_tree_leaves(count, n);
    lemma_leaf_totals(count, n);
    lemma_code_lengths(count, n, top);
    lemma_assigned(leaves, lens, log, n, leaves.len());
    assert(1 <= lens[i] <= log);
    assert(leaves[i].byte < n);
}

/// The code of a histogram whose largest symbol is counted can be described,
/// if its codes have at most eleven bits.
pub proof fn lemma_code_describable(count: Seq<u32>, n: nat, top: nat)
    requires
        buildable(count, n, top),
        top < TABLELOG_MAX,
        n > 0,
        count[n - 1] > 0,
    ensures
        huff_describe::describable(huffman_code(count, n, top)),
{
    law_huffman_code(count, n, top);
    let code = huffman_code(count, n, top);
    assert(code.holds((n - 1) as u8));
    assert forall|i: int| 0 <= i < code.weights.len() - 1 implies #[trigger] code.weights[i]
        < TABLELOG_MAX by {
        assert(code.weights[i] <= code.log);
    }
}

/// Of two symbols the one that is counted more often has no longer code.
pub proof fn law_frequent_symbols_are_short(count: Seq<u32>, n: nat, top: nat, s: u8, t: u8)
    requires
        buildable(count, n, top),
        s < n,
        t < n,
        count[s as int] > count[t as int] > 0,
    ensures
        huffman_code(count, n, top).length(s) <= huffman_code(count, n, top).length(t),
{
    let leaves = tree_leaves(count, n);
    let (lens, log) = code_lengths(count, n, top);
    lemma_tree_leaves(count, n);
    lemma_leaf_totals(count, n);
    lemma_code_lengths(count, n, top);
    lemma_assigned(leaves, lens, log, n, leaves.len());
    assert(huff_sort::has_leaf(leaves, s as int));
    assert(huff_sort::has_leaf(leaves, t as int));
    let i = choose|i: int| huff_sort::leaf_at(leaves, i, s as int);
    let j = choose|j: int| huff_sort::leaf_at(leaves, j, t as int);
    assert(leaves[i].byte == s && leaves[j].byte == t);
    assert(leaves[i].count == count[s as int] && leaves[j].count == count[t as int]);
    if j <= i {
        assert(leaves[j].count >= leaves[i].count);
    }
    assert(lens[i] <= lens[j]);
}

// ---------------------------------------------------------------------------
// Building.

/// A limit on code lengths, as far as a table can meet it.
pub open spec fn table_limit(limit: nat) -> nat {
    if limit <= TABLELOG_MAX {
        limit
    } else {
        TABLELOG_MAX as nat
    }
}

/// Builds the encoding table of a histogram, with codes of at most
/// `max_nb_bits` bits; zero stands for the usual limit. A limit above the
/// greatest table log limits nothing: codes that would be longer than the
/// greatest table log are refused there.
pub fn build_ctable(count: &[u32], max_symbol_value: u32, max_nb_bits: u32) -> (r: Result<CTableX1>)
    requires
        max_symbol_value <= SYMBOLVALUE_MAX ==> buildable(
            count@,
            max_symbol_value as nat + 1,
            table_limit(limit_of(max_nb_bits as nat)),
        ),
    ensures
        max_symbol_value > SYMBOLVALUE_MAX ==> r == Err::<CTableX1, Error>(
            Error::MaxSymbolValueTooLarge,
        ),
        max_symbol_value <= SYMBOLVALUE_MAX ==> {
            let n = max_symbol_value as nat + 1;
            let limit = limit_of(max_nb_bits as nat);
            if limit <= TABLELOG_MAX || tree_height(count@, n) <= TABLELOG_MAX {
                r matches Ok(t) && t.wf() && t@ == huffman_code(count@, n, limit)
            } else {
                r == Err::<CTableX1, Error>(Error::Generic)
            }
        },
{
    if max_symbol_value as usize > SYMBOLVALUE_MAX {
        return Err(Error::MaxSymbolValueTooLarge);
    }
    let limit: u32 = if max_nb_bits == 0 {
        TABLELOG_DEFAULT as u32
    } else {
        max_nb_bits
    };
    let top: u32 = if limit <= TABLELOG_MAX as u32 {
        limit
    } else {
        TABLELOG_MAX as u32
    };
    let n: usize = max_symbol_value as usize + 1;
    let mut leaves: Vec<Leaf> = sort_nodes(count, n);
    let ghost nodes = leaves@;
    proof {
        lemma_tree_leaves(count@, n as nat);
        lemma_leaf_totals(count@, n as nat);
        lemma_code_lengths(count@, n as nat, top as nat);
        law_huffman_code(count@, n as nat, top as nat);
    }
    while leaves.len() > 0 && leaves[leaves.len() - 1].count == 0
        invariant
            trimmed(leaves@) == trimmed(nodes),
        decreases leaves@.len(),
    {
        let ghost before = leaves@;
        let _ = leaves.pop();
        proof {
            assert(leaves@ =~= before.drop_last());
        }
    }
    let ghost depths = huff_tree::leaf_depths(leaves@);
    let mut lens: Vec<u8> = tree_depths(leaves.as_slice());
    proof {
        huff_tree::lemma_leaf_depths(leaves@);
        huff_tree::lemma_tree_full(leaves@, 256);
        assert(huff_limit::numbers(lens@) =~= depths);
        assert forall|i: int, j: int| 0 <= i <= j < lens@.len() implies #[trigger] lens@[i]
            <= #[trigger] lens@[j] by {
            assert(depths[i] <= depths[j]);
        }
    }
    if limit > TABLELOG_MAX as u32 && lens[lens.len() - 1] as u32 > TABLELOG_MAX as u32 {
        return Err(Error::Generic);
    }
    let log: u32 = set_max_height(&mut lens, leaves.as_slice(), top);
    let ghost all = huff_limit::numbers(lens@);
    let mut weights: Vec<u8> = vec![0u8; n];
    let mut i: usize = 0;
    proof {
        assert(weights@ =~= assigned(leaves@, all, log as nat, n as nat, 0));
    }
    while i < leaves.len()
        invariant
            i <= leaves@.len(),
            leaves@.len() == lens@.len(),
            n <= 256,
            1 <= log <= 12,
            all == huff_limit::numbers(lens@),
            forall|k: int| 0 <= k < all.len() ==> 1 <= #[trigger] all[k] <= log,
            forall|k: int| 0 <= k < leaves@.len() ==> (#[trigger] leaves@[k]).byte < n,
            weights@.len() == n,
            weights@ == assigned(leaves@, all, log as nat, n as nat, i as nat),
        decreases leaves@.len() - i,
    {
        proof {
            assert(1 <= all[i as int] <= log);
            assert(all[i as int] == lens@[i as int]);
        }
        let symbol: usize = leaves[i].byte as usize;
        weights.set(symbol, (log + 1 - lens[i] as u32) as u8);
        i = i + 1;
    }
    Ok(build_ctable_from_weights(weights.as_slice(), log))
}

/// The limit on code lengths that a number stands for.
pub open spec fn limit_of(max_nb_bits: nat) -> nat {
    if max_nb_bits == 0 {
        TABLELOG_DEFAULT as nat
    } else {
        max_nb_bits
    }
}

/// The usual limit on code lengths is eleven; any other is meant as it is, and
/// a table has room for twelve.
pub proof fn law_limits(max_nb_bits: nat)
    ensures
        limit_of(0) == 11,
        max_nb_bits > 0 ==> limit_of(max_nb_bits) == max_nb_bits,
        max_nb_bits <= 12 ==> table_limit(max_nb_bits) == max_nb_bits,
        max_nb_bits > 12 ==> table_limit(max_nb_bits) == 12,
{
}

} // verus!
