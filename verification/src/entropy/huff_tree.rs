//! The tree of a prefix code: the two lightest of what is left are joined
//! until one is left.
//!
//! The leaves stand by descending count and are taken from the end; the joined
//! nodes are taken in the order in which they were made. Of a leaf and a node
//! of the same weight the node is taken first.

use crate::entropy::huff_sort;
use crate::entropy::huff_sort::Leaf;
use vstd::arithmetic::power2::*;
use vstd::prelude::*;

verus! {

/// What was joined so far: the weights of the nodes, and the parents of the
/// leaves and of the nodes that were taken, in the order of taking.
pub struct Forest {
    pub sums: Seq<nat>,
    pub leaf_parents: Seq<nat>,
    pub node_parents: Seq<nat>,
}

/// A leaf is taken next.
pub open spec fn takes_leaf(leaves: Seq<Leaf>, f: Forest) -> bool {
    let left = leaves.len() - f.leaf_parents.len();
    left > 0 && (f.node_parents.len() >= f.sums.len() || leaves[left - 1].count
        < f.sums[f.node_parents.len() as int])
}

/// The weight of what is taken next.
pub open spec fn next_weight(leaves: Seq<Leaf>, f: Forest) -> nat {
    if takes_leaf(leaves, f) {
        leaves[leaves.len() - f.leaf_parents.len() - 1].count as nat
    } else {
        f.sums[f.node_parents.len() as int]
    }
}

/// The next leaf or node gets a parent.
pub open spec fn taken(leaves: Seq<Leaf>, f: Forest, parent: nat) -> Forest {
    if takes_leaf(leaves, f) {
        Forest { leaf_parents: f.leaf_parents.push(parent), ..f }
    } else {
        Forest { node_parents: f.node_parents.push(parent), ..f }
    }
}

/// The next two are joined.
pub open spec fn merged(leaves: Seq<Leaf>, f: Forest) -> Forest {
    let m = f.sums.len();
    let one = taken(leaves, f, m);
    let two = taken(leaves, one, m);
    Forest { sums: two.sums.push(next_weight(leaves, f) + next_weight(leaves, one)), ..two }
}

/// What is there after `k` joins.
pub open spec fn forest(leaves: Seq<Leaf>, k: nat) -> Forest
    decreases k,
{
    if k == 0 {
        Forest { sums: Seq::empty(), leaf_parents: Seq::empty(), node_parents: Seq::empty() }
    } else {
        merged(leaves, forest(leaves, (k - 1) as nat))
    }
}

/// How deep a node lies under the last one.
pub open spec fn node_depth(f: Forest, j: nat) -> nat
    decreases f.sums.len() - j,
{
    if j + 1 >= f.sums.len() || !(j < f.node_parents[j as int] < f.sums.len()) {
        0
    } else {
        node_depth(f, f.node_parents[j as int]) + 1
    }
}

/// The depths of the leaves.
pub open spec fn leaf_depths(leaves: Seq<Leaf>) -> Seq<nat> {
    let f = forest(leaves, (leaves.len() - 1) as nat);
    Seq::new(
        leaves.len(),
        |i: int| node_depth(f, f.leaf_parents[leaves.len() - 1 - i]) + 1,
    )
}

// ---------------------------------------------------------------------------
// What holds of a forest.

/// The sum of the first `n` counts of leaves.
pub open spec fn leaf_sum(leaves: Seq<Leaf>, n: nat) -> nat
    decreases n,
{
    if n == 0 {
        0
    } else {
        leaf_sum(leaves, (n - 1) as nat) + leaves[n - 1].count as nat
    }
}

/// The sum of the nodes from `j` on.
spec fn node_sum(sums: Seq<nat>, j: nat) -> nat
    decreases sums.len() - j,
{
    if j >= sums.len() {
        0
    } else {
        sums[j as int] + node_sum(sums, j + 1)
    }
}

/// What is left to take weighs as much as all leaves.
spec fn weight_left(leaves: Seq<Leaf>, f: Forest) -> nat {
    leaf_sum(leaves, (leaves.len() - f.leaf_parents.len()) as nat) + node_sum(
        f.sums,
        f.node_parents.len(),
    )
}

/// The bounds of a forest in which `k` joins were begun.
spec fn shaped(leaves: Seq<Leaf>, f: Forest) -> bool {
    &&& f.leaf_parents.len() <= leaves.len()
    &&& f.node_parents.len() <= f.sums.len()
}

spec fn ordered(parents: Seq<nat>) -> bool {
    forall|i: int, j: int|
        0 <= i <= j < parents.len() ==> #[trigger] parents[i] <= #[trigger] parents[j]
}

proof fn lemma_node_sum_push(sums: Seq<nat>, x: nat, j: nat)
    requires
        j <= sums.len(),
    ensures
        node_sum(sums.push(x), j) == node_sum(sums, j) + x,
    decreases sums.len() - j,
{
    if j < sums.len() {
        lemma_node_sum_push(sums, x, j + 1);
    } else {
        reveal_with_fuel(node_sum, 2);
    }
}

/// Taking the next one takes its weight off.
proof fn lemma_taken(leaves: Seq<Leaf>, f: Forest, parent: nat)
    requires
        shaped(leaves, f),
        f.leaf_parents.len() + f.node_parents.len() < leaves.len() + f.sums.len(),
    ensures
        shaped(leaves, taken(leaves, f, parent)),
        weight_left(leaves, taken(leaves, f, parent)) + next_weight(leaves, f) == weight_left(
            leaves,
            f,
        ),
        taken(leaves, f, parent).sums == f.sums,
        taken(leaves, f, parent).leaf_parents.len() + taken(leaves, f, parent).node_parents.len()
            == f.leaf_parents.len() + f.node_parents.len() + 1,
{
}

/// What holds after `k` joins: how many were taken, that parents come later
/// than their children and in order, and what is left to take.
proof fn lemma_forest(leaves: Seq<Leaf>, k: nat)
    requires
        k < leaves.len(),
    ensures
        ({
            let f = forest(leaves, k);
            &&& shaped(leaves, f)
            &&& f.sums.len() == k
            &&& f.leaf_parents.len() + f.node_parents.len() == 2 * k
            &&& weight_left(leaves, f) == leaf_sum(leaves, leaves.len())
            &&& ordered(f.leaf_parents)
            &&& ordered(f.node_parents)
            &&& forall|i: int| 0 <= i < f.leaf_parents.len() ==> #[trigger] f.leaf_parents[i] < k
            &&& forall|i: int|
                0 <= i < f.node_parents.len() ==> i < #[trigger] f.node_parents[i] < k
        }),
    decreases k,
{
    if k == 0 {
        assert(leaves.len() - 0 == leaves.len());
    } else {
        let m = (k - 1) as nat;
        lemma_forest(leaves, m);
        let f = forest(leaves, m);
        lemma_taken(leaves, f, m);
        let one = taken(leaves, f, m);
        lemma_taken(leaves, one, m);
        let two = taken(leaves, one, m);
        lemma_node_sum_push(
            two.sums,
            next_weight(leaves, f) + next_weight(leaves, one),
            two.node_parents.len(),
        );
    }
}

/// Joining is taking twice.
proof fn lemma_next_bounds(leaves: Seq<Leaf>, k: nat)
    requires
        k + 1 < leaves.len(),
    ensures
        ({
            let f = forest(leaves, k);
            let one = taken(leaves, f, k);
            &&& shaped(leaves, one)
            &&& shaped(leaves, taken(leaves, one, k))
            &&& next_weight(leaves, f) + next_weight(leaves, one) <= leaf_sum(leaves, leaves.len())
            &&& takes_leaf(leaves, f) ==> f.leaf_parents.len() < leaves.len()
            &&& !takes_leaf(leaves, f) ==> f.node_parents.len() < f.sums.len()
            &&& !takes_leaf(leaves, one) ==> one.node_parents.len() < one.sums.len()
        }),
{
    lemma_forest(leaves, k);
    let f = forest(leaves, k);
    lemma_taken(leaves, f, k);
    lemma_taken(leaves, taken(leaves, f, k), k);
}

// ---------------------------------------------------------------------------
// Depths.

/// Nodes that were made later lie less deep.
proof fn lemma_depth_order(leaves: Seq<Leaf>, i: nat, j: nat)
    requires
        leaves.len() >= 2,
        i <= j,
        j + 1 < leaves.len(),
    ensures
        node_depth(forest(leaves, (leaves.len() - 1) as nat), i) >= node_depth(
            forest(leaves, (leaves.len() - 1) as nat),
            j,
        ),
    decreases leaves.len() - i,
{
    let k = (leaves.len() - 1) as nat;
    let f = forest(leaves, k);
    lemma_forest(leaves, k);
    lemma_all_taken(leaves);
    if j + 1 < k {
        let a = f.node_parents[i as int];
        let b = f.node_parents[j as int];
        assert(a <= b);
        assert(i < a && j < b < k);
        lemma_depth_order(leaves, a, b);
    }
}

/// In the end every leaf was taken, and every node but the last.
proof fn lemma_all_taken(leaves: Seq<Leaf>)
    requires
        leaves.len() >= 2,
    ensures
        ({
            let f = forest(leaves, (leaves.len() - 1) as nat);
            &&& f.leaf_parents.len() == leaves.len()
            &&& f.node_parents.len() == leaves.len() - 2
            &&& f.sums.len() == leaves.len() - 1
        }),
{
    let k = (leaves.len() - 1) as nat;
    lemma_forest(leaves, k);
    let f = forest(leaves, k);
    assert(f.node_parents.len() <= k);
    if f.node_parents.len() == k {
        assert(f.node_parents[k - 1] > k - 1);
        assert(false);
    }
}

/// Leaves with smaller counts lie at least as deep.
pub proof fn lemma_leaf_depths(leaves: Seq<Leaf>)
    requires
        leaves.len() >= 2,
    ensures
        leaf_depths(leaves).len() == leaves.len(),
        forall|i: int| 0 <= i < leaves.len() ==> 1 <= #[trigger] leaf_depths(leaves)[i]
            < leaves.len(),
        forall|i: int, j: int|
            0 <= i <= j < leaves.len() ==> #[trigger] leaf_depths(leaves)[i]
                <= #[trigger] leaf_depths(leaves)[j],
{
    let n = leaves.len();
    let k = (n - 1) as nat;
    let f = forest(leaves, k);
    lemma_forest(leaves, k);
    lemma_all_taken(leaves);
    assert forall|i: int| 0 <= i < n implies 1 <= #[trigger] leaf_depths(leaves)[i] < n by {
        let p = f.leaf_parents[n - 1 - i];
        assert(p < k);
        lemma_depth_bound(leaves, p);
    }
    assert forall|i: int, j: int| 0 <= i <= j < n implies #[trigger] leaf_depths(leaves)[i]
        <= #[trigger] leaf_depths(leaves)[j] by {
        let a = f.leaf_parents[n - 1 - j];
        let b = f.leaf_parents[n - 1 - i];
        assert(a <= b);
        assert(b < k);
        lemma_depth_order(leaves, a, b);
    }
}

proof fn lemma_depth_bound(leaves: Seq<Leaf>, j: nat)
    requires
        leaves.len() >= 2,
        j + 1 < leaves.len(),
    ensures
        node_depth(forest(leaves, (leaves.len() - 1) as nat), j) <= leaves.len() - 2 - j,
    decreases leaves.len() - j,
{
    let k = (leaves.len() - 1) as nat;
    lemma_forest(leaves, k);
    lemma_all_taken(leaves);
    let f = forest(leaves, k);
    if j + 1 < k {
        assert(j < f.node_parents[j as int] < k);
        lemma_depth_bound(leaves, f.node_parents[j as int]);
    }
}

// ---------------------------------------------------------------------------
// The tree is full.

/// The sum of what `h` gives for the first `n` parents.
spec fn over_parents(h: Seq<nat>, parents: Seq<nat>, n: nat) -> nat
    decreases n,
{
    if n == 0 {
        0
    } else {
        over_parents(h, parents, (n - 1) as nat) + h[parents[n - 1] as int]
    }
}

/// The sum of the first `n` numbers.
spec fn total(h: Seq<nat>, n: nat) -> nat
    decreases n,
{
    if n == 0 {
        0
    } else {
        total(h, (n - 1) as nat) + h[n - 1]
    }
}

proof fn lemma_over_parents_push(h: Seq<nat>, parents: Seq<nat>, p: nat, n: nat)
    requires
        n <= parents.len(),
    ensures
        over_parents(h, parents.push(p), n) == over_parents(h, parents, n),
    decreases n,
{
    if n > 0 {
        lemma_over_parents_push(h, parents, p, (n - 1) as nat);
    }
}

/// Every node is a parent twice.
proof fn lemma_two_children(leaves: Seq<Leaf>, h: Seq<nat>, k: nat)
    requires
        k < leaves.len(),
    ensures
        ({
            let f = forest(leaves, k);
            over_parents(h, f.leaf_parents, f.leaf_parents.len()) + over_parents(
                h,
                f.node_parents,
                f.node_parents.len(),
            ) == 2 * total(h, k)
        }),
    decreases k,
{
    if k > 0 {
        let m = (k - 1) as nat;
        lemma_two_children(leaves, h, m);
        lemma_forest(leaves, m);
        let f = forest(leaves, m);
        let one = taken(leaves, f, m);
        lemma_over_parents_push(h, f.leaf_parents, m, f.leaf_parents.len());
        lemma_over_parents_push(h, f.node_parents, m, f.node_parents.len());
        lemma_over_parents_push(h, one.leaf_parents, m, one.leaf_parents.len());
        lemma_over_parents_push(h, one.node_parents, m, one.node_parents.len());
    }
}

/// How much of a code of depth `top` codes of these lengths take.
pub open spec fn code_space(lengths: Seq<nat>, top: nat, n: nat) -> nat
    decreases n,
{
    if n == 0 {
        0
    } else {
        code_space(lengths, top, (n - 1) as nat) + pow2((top - lengths[n - 1]) as nat)
    }
}

proof fn lemma_nodes_shift(f: Forest, h: Seq<nat>, g: Seq<nat>, n: nat)
    requires
        n <= f.node_parents.len(),
        forall|j: int| 0 <= j < n ==> h[#[trigger] f.node_parents[j] as int] == g[j],
    ensures
        over_parents(h, f.node_parents, n) == total(g, n),
    decreases n,
{
    if n > 0 {
        lemma_nodes_shift(f, h, g, (n - 1) as nat);
        assert(h[f.node_parents[n - 1] as int] == g[n - 1]);
    }
}

proof fn lemma_total_double(h: Seq<nat>, g: Seq<nat>, n: nat)
    requires
        forall|j: int| 0 <= j < n ==> #[trigger] g[j] == 2 * h[j],
    ensures
        total(g, n) == 2 * total(h, n),
    decreases n,
{
    if n > 0 {
        lemma_total_double(h, g, (n - 1) as nat);
        assert(g[n - 1] == 2 * h[n - 1]);
    }
}

proof fn lemma_leaf_space(
    leaves: Seq<Leaf>,
    f: Forest,
    h: Seq<nat>,
    depths: Seq<nat>,
    top: nat,
    n: nat,
)
    requires
        n <= leaves.len(),
        f.leaf_parents.len() == leaves.len(),
        depths.len() == leaves.len(),
        forall|i: int|
            0 <= i < leaves.len() ==> h[#[trigger] f.leaf_parents[i] as int] == pow2(
                (top - depths[leaves.len() - 1 - i]) as nat,
            ),
    ensures
        over_parents(h, f.leaf_parents, n) + code_space(depths, top, (leaves.len() - n) as nat)
            == code_space(depths, top, leaves.len()),
    decreases n,
{
    if n > 0 {
        lemma_leaf_space(leaves, f, h, depths, top, (n - 1) as nat);
        assert(h[f.leaf_parents[n - 1] as int] == pow2((top - depths[leaves.len() - n]) as nat));
    }
}

/// The codes of the leaves' depths take the whole space: the tree is full.
pub proof fn lemma_tree_full(leaves: Seq<Leaf>, top: nat)
    requires
        leaves.len() >= 2,
        top >= leaves.len(),
    ensures
        code_space(leaf_depths(leaves), top, leaves.len()) == pow2(top),
{
    let n = leaves.len();
    let k = (n - 1) as nat;
    let f = forest(leaves, k);
    lemma_forest(leaves, k);
    lemma_all_taken(leaves);
    lemma_leaf_depths(leaves);
    let depths = leaf_depths(leaves);
    let h = Seq::new(k, |j: int| pow2((top - 1 - node_depth(f, j as nat)) as nat));
    let g = Seq::new(k, |j: int| pow2((top - node_depth(f, j as nat)) as nat));
    lemma_two_children(leaves, h, k);
    assert forall|j: int| 0 <= j < k implies #[trigger] g[j] == 2 * h[j] by {
        lemma_depth_bound(leaves, j as nat);
        lemma_pow2_unfold((top - node_depth(f, j as nat)) as nat);
    }
    lemma_total_double(h, g, k);
    assert forall|j: int| 0 <= j < k - 1 implies h[#[trigger] f.node_parents[j] as int] == g[j] by {
        let p = f.node_parents[j];
        assert(j < p < k);
        lemma_depth_bound(leaves, p);
        assert(node_depth(f, j as nat) == node_depth(f, p) + 1);
    }
    lemma_nodes_shift(f, h, g, (k - 1) as nat);
    assert forall|i: int| 0 <= i < n implies h[#[trigger] f.leaf_parents[i] as int] == pow2(
        (top - depths[n - 1 - i]) as nat,
    ) by {
        let p = f.leaf_parents[i];
        assert(p < k);
        assert(depths[n - 1 - i] == node_depth(f, p) + 1);
    }
    lemma_leaf_space(leaves, f, h, depths, top, n);
    assert(code_space(depths, top, 0) == 0);
    assert(node_depth(f, (k - 1) as nat) == 0);
    assert(g[k - 1] == pow2(top));
}

// ---------------------------------------------------------------------------
// Building.

/// The depths of the leaves of a tree.
pub fn tree_depths(leaves: &[Leaf]) -> (r: Vec<u8>)
    requires
        2 <= leaves@.len() <= 256,
        leaf_sum(leaves@, leaves@.len()) <= u32::MAX,
    ensures
        r@.len() == leaves@.len(),
        forall|i: int| 0 <= i < r@.len() ==> #[trigger] r@[i] == leaf_depths(leaves@)[i],
{
    let n: usize = leaves.len();
    let ghost all = leaves@;
    let mut sums: Vec<u32> = Vec::new();
    let mut leaf_parents: Vec<usize> = Vec::new();
    let mut node_parents: Vec<usize> = Vec::new();
    let mut k: usize = 0;
    while k + 1 < n
        invariant
            all == leaves@,
            n == all.len(),
            2 <= n <= 256,
            k < n,
            leaf_sum(all, n as nat) <= u32::MAX,
            held(sums@, leaf_parents@, node_parents@, forest(all, k as nat)),
        decreases n - k,
    {
        let ghost f = forest(all, k as nat);
        proof {
            lemma_forest(all, k as nat);
            lemma_next_bounds(all, k as nat);
        }
        let one: u32 = take_next(
            leaves,
            &sums,
            &mut leaf_parents,
            &mut node_parents,
            k,
            Ghost(f),
        );
        let ghost f1 = taken(all, f, k as nat);
        let two: u32 = take_next(
            leaves,
            &sums,
            &mut leaf_parents,
            &mut node_parents,
            k,
            Ghost(f1),
        );
        sums.push(one + two);
        k = k + 1;
    }
    let ghost f = forest(all, k as nat);
    proof {
        lemma_forest(all, k as nat);
        lemma_all_taken(all);
    }
    let mut depths: Vec<u8> = vec![0u8; k];
    let mut j: usize = k - 1;
    while j > 0
        invariant
            all == leaves@,
            n == all.len(),
            2 <= n <= 256,
            k == n - 1,
            j < k,
            f == forest(all, k as nat),
            held(sums@, leaf_parents@, node_parents@, f),
            depths@.len() == k,
            forall|i: int| j <= i < k ==> #[trigger] depths@[i] == node_depth(f, i as nat),
        decreases j,
    {
        j = j - 1;
        proof {
            lemma_forest(all, k as nat);
            lemma_all_taken(all);
            assert(j < f.node_parents[j as int] < k);
            assert(node_parents@[j as int] == f.node_parents[j as int]);
            lemma_depth_bound(all, j as nat);
            assert(node_depth(f, j as nat) == node_depth(f, f.node_parents[j as int]) + 1);
        }
        let parent: usize = node_parents[j];
        let depth: u8 = depths[parent] + 1;
        depths.set(j, depth);
    }
    let mut out: Vec<u8> = Vec::new();
    let mut i: usize = 0;
    while i < n
        invariant
            all == leaves@,
            n == all.len(),
            2 <= n <= 256,
            k == n - 1,
            i <= n,
            f == forest(all, k as nat),
            held(sums@, leaf_parents@, node_parents@, f),
            depths@.len() == k,
            forall|x: int| 0 <= x < k ==> #[trigger] depths@[x] == node_depth(f, x as nat),
            out@.len() == i,
            forall|x: int| 0 <= x < i ==> #[trigger] out@[x] == leaf_depths(all)[x],
        decreases n - i,
    {
        proof {
            lemma_forest(all, k as nat);
            lemma_all_taken(all);
            lemma_leaf_depths(all);
            assert(f.leaf_parents[n - 1 - i] < k);
            assert(leaf_parents@[n - 1 - i] == f.leaf_parents[n - 1 - i]);
            assert(leaf_depths(all)[i as int] < n);
        }
        let parent: usize = leaf_parents[n - 1 - i];
        out.push(depths[parent] + 1);
        i = i + 1;
    }
    out
}

/// The vectors hold the forest.
spec fn held(
    sums: Seq<u32>,
    leaf_parents: Seq<usize>,
    node_parents: Seq<usize>,
    f: Forest,
) -> bool {
    &&& sums.len() == f.sums.len()
    &&& leaf_parents.len() == f.leaf_parents.len()
    &&& node_parents.len() == f.node_parents.len()
    &&& forall|i: int| 0 <= i < sums.len() ==> #[trigger] sums[i] == f.sums[i]
    &&& forall|i: int|
        0 <= i < leaf_parents.len() ==> #[trigger] leaf_parents[i] == f.leaf_parents[i]
    &&& forall|i: int|
        0 <= i < node_parents.len() ==> #[trigger] node_parents[i] == f.node_parents[i]
}

fn take_next(
    leaves: &[Leaf],
    sums: &Vec<u32>,
    leaf_parents: &mut Vec<usize>,
    node_parents: &mut Vec<usize>,
    parent: usize,
    Ghost(f): Ghost<Forest>,
) -> (r: u32)
    requires
        held(sums@, old(leaf_parents)@, old(node_parents)@, f),
        shaped(leaves@, f),
        leaves@.len() <= 256,
        f.leaf_parents.len() + f.node_parents.len() < leaves@.len() + f.sums.len(),
    ensures
        r == next_weight(leaves@, f),
        held(
            sums@,
            final(leaf_parents)@,
            final(node_parents)@,
            taken(leaves@, f, parent as nat),
        ),
{
    let left: usize = leaves.len() - leaf_parents.len();
    let at: usize = node_parents.len();
    if left > 0 && (at >= sums.len() || leaves[left - 1].count < sums[at]) {
        leaf_parents.push(parent);
        leaves[left - 1].count
    } else {
        node_parents.push(parent);
        sums[at]
    }
}

// ---------------------------------------------------------------------------
// Laws.

/// The sums rise, and what is taken next weighs no less than what was taken.
proof fn lemma_sums_rise(leaves: Seq<Leaf>, k: nat)
    requires
        k < leaves.len(),
        huff_sort::descending(leaves, 0, leaves.len() - 1),
    ensures
        ({
            let f = forest(leaves, k);
            &&& forall|i: int, j: int|
                0 <= i <= j < f.sums.len() ==> #[trigger] f.sums[i] <= #[trigger] f.sums[j]
            &&& k > 0 ==> forall|i: int|
                0 <= i < leaves.len() - f.leaf_parents.len() ==> f.sums[k - 1] <= 2
                    * #[trigger] leaves[i].count
            &&& k > 0 ==> forall|j: int|
                f.node_parents.len() <= j < f.sums.len() ==> f.sums[k - 1] <= 2
                    * #[trigger] f.sums[j]
        }),
    decreases k,
{
    if k > 0 {
        let m = (k - 1) as nat;
        lemma_sums_rise(leaves, m);
        lemma_forest(leaves, m);
        let f = forest(leaves, m);
        let one = taken(leaves, f, m);
        let two = taken(leaves, one, m);
        lemma_next_is_lightest(leaves, f);
        lemma_taken(leaves, f, m);
        lemma_next_is_lightest(leaves, one);
        lemma_taken(leaves, one, m);
        let a = next_weight(leaves, f);
        let b = next_weight(leaves, one);
        let g = forest(leaves, k);
        assert(g.sums == f.sums.push(a + b));
        if m > 0 {
            // The sum before was at most twice what was next.
            assert(f.sums[m - 1] <= 2 * a);
        }
        assert(a <= b);
        assert forall|i: int, j: int| 0 <= i <= j < g.sums.len() implies #[trigger] g.sums[i]
            <= #[trigger] g.sums[j] by {
            if j < m {
                assert(f.sums[i] <= f.sums[j]);
            } else if i < m {
                assert(f.sums[i] <= f.sums[m - 1]);
            }
        }
        assert forall|i: int| 0 <= i < leaves.len() - g.leaf_parents.len() implies g.sums[k - 1]
            <= 2 * #[trigger] leaves[i].count by {
            assert(b <= leaves[i].count);
        }
        assert forall|j: int| g.node_parents.len() <= j < g.sums.len() implies g.sums[k - 1] <= 2
            * #[trigger] g.sums[j] by {
            if j < m {
                assert(g.sums[j] == one.sums[j]);
                assert(b <= one.sums[j]);
            }
        }
    }
}

/// What is taken next is the lightest that is there.
proof fn lemma_next_is_lightest(leaves: Seq<Leaf>, f: Forest)
    requires
        huff_sort::descending(leaves, 0, leaves.len() - 1),
        shaped(leaves, f),
        f.leaf_parents.len() + f.node_parents.len() < leaves.len() + f.sums.len(),
        forall|i: int, j: int|
            0 <= i <= j < f.sums.len() ==> #[trigger] f.sums[i] <= #[trigger] f.sums[j],
    ensures
        forall|i: int|
            0 <= i < leaves.len() - f.leaf_parents.len() ==> next_weight(leaves, f)
                <= #[trigger] leaves[i].count,
        forall|j: int|
            f.node_parents.len() <= j < f.sums.len() ==> next_weight(leaves, f)
                <= #[trigger] f.sums[j],
{
    let left = leaves.len() - f.leaf_parents.len();
    assert forall|i: int| 0 <= i < left implies next_weight(leaves, f)
        <= #[trigger] leaves[i].count by {
        assert(leaves[i].count >= leaves[left - 1].count);
    }
    let at = f.node_parents.len() as int;
    assert forall|j: int| at <= j < f.sums.len() implies next_weight(leaves, f)
        <= #[trigger] f.sums[j] by {
        assert(f.sums[at] <= f.sums[j]);
    }
}

/// A tree is made by joining the two lightest that are there, again and again:
/// what a join adds weighs what the two weighed, and none of what is left
/// weighs less than either. Leaves that are joined next weigh less than the
/// next node.
pub proof fn law_lightest_two_are_joined(leaves: Seq<Leaf>, k: nat)
    requires
        k + 1 < leaves.len(),
        huff_sort::descending(leaves, 0, leaves.len() - 1),
    ensures
        ({
            let f = forest(leaves, k);
            let g = forest(leaves, k + 1);
            let first = next_weight(leaves, f);
            let second = next_weight(leaves, taken(leaves, f, k));
            &&& g.sums == f.sums.push(first + second)
            &&& first <= second
            &&& forall|i: int|
                0 <= i < leaves.len() - g.leaf_parents.len() ==> second <= (
                #[trigger] leaves[i]).count
            &&& forall|j: int|
                g.node_parents.len() <= j < f.sums.len() ==> second <= #[trigger] f.sums[j]
            &&& g.leaf_parents.len() + g.node_parents.len() == 2 * (k + 1)
        }),
{
    lemma_forest(leaves, k);
    lemma_forest(leaves, k + 1);
    lemma_sums_rise(leaves, k);
    let f = forest(leaves, k);
    let one = taken(leaves, f, k);
    lemma_next_is_lightest(leaves, f);
    lemma_taken(leaves, f, k);
    lemma_next_is_lightest(leaves, one);
    lemma_taken(leaves, one, k);
    let g = forest(leaves, k + 1);
    assert forall|j: int| g.node_parents.len() <= j < f.sums.len() implies next_weight(leaves, one)
        <= #[trigger] f.sums[j] by {
        assert(one.sums[j] == f.sums[j]);
    }
}

/// Everything lies one below what it was joined to; the last join lies on top.
pub proof fn law_depth_is_one_more_than_the_parents(leaves: Seq<Leaf>, i: int, j: int)
    requires
        leaves.len() >= 2,
        0 <= i < leaves.len(),
        0 <= j < leaves.len() - 2,
    ensures
        ({
            let f = forest(leaves, (leaves.len() - 1) as nat);
            let top = (leaves.len() - 2) as nat;
            &&& node_depth(f, top) == 0
            &&& node_depth(f, j as nat) == 1 + node_depth(f, f.node_parents[j])
            &&& leaf_depths(leaves)[i] == 1 + node_depth(f, f.leaf_parents[leaves.len() - 1 - i])
        }),
{
    lemma_forest(leaves, (leaves.len() - 1) as nat);
    lemma_all_taken(leaves);
    let f = forest(leaves, (leaves.len() - 1) as nat);
    assert(j < f.node_parents[j] < f.sums.len());
}

} // verus!
