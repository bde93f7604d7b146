//! The order in which symbols enter the tree of a prefix code: by descending
//! count.
//!
//! Symbols are put into buckets by their counts. Small counts have a bucket
//! each; larger ones share a bucket for each power of two, which is then
//! sorted. Which of two symbols with equal counts comes first decides which of
//! them gets the shorter code, so the sort is part of what a table is.

use crate::entropy::mem;
use vstd::arithmetic::power2::*;
use vstd::prelude::*;

verus! {

/// A symbol and its count.
#[derive(Debug, Clone, Copy, PartialEq, Eq, Structural)]
pub struct Leaf {
    pub count: u32,
    pub byte: u8,
}

/// Counts from this one on share buckets.
pub const DISTINCT_COUNT_CUTOFF: u32 = 165;

/// The first bucket that is sorted.
pub const FIRST_SORTED_BUCKET: u32 = 164;

/// What is added to a power of two to number its bucket.
pub const LOG_BUCKETS_BEGIN: u32 = 158;

/// How many buckets there are.
pub const BUCKETS: u32 = 190;

/// Ranges of fewer symbols are sorted by insertion.
pub const INSERTION_SORT_THRESHOLD: usize = 8;

/// The bucket of a count.
pub open spec fn bucket_of(count: nat) -> nat {
    if count < DISTINCT_COUNT_CUTOFF {
        count
    } else {
        mem::floor_log2(count) + LOG_BUCKETS_BEGIN as nat
    }
}

/// Larger buckets hold larger counts.
proof fn lemma_bucket_order(a: nat, b: nat)
    requires
        bucket_of(a) < bucket_of(b),
    ensures
        a < b,
{
    lemma2_to64();
    if a >= DISTINCT_COUNT_CUTOFF {
        mem::lemma_floor_log2(a);
        if b < DISTINCT_COUNT_CUTOFF {
            if mem::floor_log2(a) < 7 {
                mem::lemma_pow2_monotone(mem::floor_log2(a) + 1, 7);
            }
        } else {
            mem::lemma_floor_log2(b);
            mem::lemma_pow2_monotone(mem::floor_log2(a) + 1, mem::floor_log2(b));
        }
    }
}

/// The bucket of a count.
fn rank_index(count: u32) -> (r: u32)
    ensures
        r == bucket_of(count as nat),
        r < BUCKETS,
{
    if count < DISTINCT_COUNT_CUTOFF {
        count
    } else {
        mem::highbit32(count) + LOG_BUCKETS_BEGIN
    }
}

// ---------------------------------------------------------------------------
// The sort.

/// Two leaves change places.
pub open spec fn swapped(nodes: Seq<Leaf>, a: int, b: int) -> Seq<Leaf> {
    nodes.update(a, nodes[b]).update(b, nodes[a])
}

/// The leaf at `j` moves down to its place in the sorted leaves below it.
pub open spec fn sifted(nodes: Seq<Leaf>, low: int, j: int) -> Seq<Leaf>
    decreases j - low,
{
    if j > low && nodes[j - 1].count < nodes[j].count {
        sifted(swapped(nodes, j - 1, j), low, j - 1)
    } else {
        nodes
    }
}

/// The leaves from `i` to `high` are sifted in.
pub open spec fn insertion_sorted(nodes: Seq<Leaf>, low: int, i: int, high: int) -> Seq<Leaf>
    decreases high + 1 - i,
{
    if i > high {
        nodes
    } else {
        insertion_sorted(sifted(nodes, low, i), low, i + 1, high)
    }
}

/// The leaves from `j` on are parted by the count of the last one; those with
/// a larger count go to `boundary` and behind it. Also where the last one ends
/// up.
pub open spec fn partitioned(nodes: Seq<Leaf>, j: int, boundary: int, high: int) -> (Seq<Leaf>, int)
    decreases high - j,
{
    if j >= high {
        (swapped(nodes, boundary, high), boundary)
    } else if nodes[j].count > nodes[high].count {
        partitioned(swapped(nodes, boundary, j), j + 1, boundary + 1, high)
    } else {
        partitioned(nodes, j + 1, boundary, high)
    }
}

/// The leaves from `low` to `high` in descending order.
pub open spec fn quick_sorted(nodes: Seq<Leaf>, low: int, high: int) -> Seq<Leaf>
    decreases high - low + 1, 1nat,
{
    if high - low < INSERTION_SORT_THRESHOLD {
        insertion_sorted(nodes, low, low + 1, high)
    } else {
        parted_sorted(nodes, low, high)
    }
}

/// The leaves from `low` to `high` in descending order, the smaller side of
/// each part being sorted first.
pub open spec fn parted_sorted(nodes: Seq<Leaf>, low: int, high: int) -> Seq<Leaf>
    decreases high - low + 1, 0nat,
{
    let (parted, pivot) = partitioned(nodes, low, low, high);
    if low >= high || !(low <= pivot <= high) {
        nodes
    } else if pivot - low < high - pivot {
        parted_sorted(quick_sorted(parted, low, pivot - 1), pivot + 1, high)
    } else {
        parted_sorted(quick_sorted(parted, pivot + 1, high), low, pivot - 1)
    }
}

// ---------------------------------------------------------------------------
// What the sort keeps.

/// `b` is `a` with the leaves from `low` to `high` rearranged: the leaf at `i`
/// comes from `p[i]`, and the leaf at `i` went to `q[i]`.
pub open spec fn moves(
    a: Seq<Leaf>,
    b: Seq<Leaf>,
    low: int,
    high: int,
    p: Seq<int>,
    q: Seq<int>,
) -> bool {
    &&& a.len() == b.len()
    &&& a.len() == p.len()
    &&& a.len() == q.len()
    &&& forall|i: int|
        0 <= i < a.len() ==> {
            &&& 0 <= #[trigger] p[i] < a.len()
            &&& q[p[i]] == i
            &&& b[i] == a[p[i]]
            &&& (low <= i <= high ==> low <= p[i] <= high)
            &&& (!(low <= i <= high) ==> p[i] == i)
        }
    &&& forall|i: int| 0 <= i < a.len() ==> 0 <= #[trigger] q[i] < a.len() && p[q[i]] == i
}

proof fn lemma_stay(a: Seq<Leaf>, low: int, high: int) -> (pq: (Seq<int>, Seq<int>))
    ensures
        moves(a, a, low, high, pq.0, pq.1),
{
    let p = Seq::new(a.len(), |i: int| i);
    (p, p)
}

proof fn lemma_swap(a: Seq<Leaf>, low: int, high: int, x: int, y: int) -> (pq: (
    Seq<int>,
    Seq<int>,
))
    requires
        0 <= low <= x <= high < a.len(),
        low <= y <= high,
    ensures
        moves(a, swapped(a, x, y), low, high, pq.0, pq.1),
{
    let p = Seq::new(
        a.len(),
        |i: int|
            if i == x {
                y
            } else if i == y {
                x
            } else {
                i
            },
    );
    (p, p)
}

proof fn lemma_chain(
    a: Seq<Leaf>,
    b: Seq<Leaf>,
    c: Seq<Leaf>,
    low: int,
    high: int,
    first: (Seq<int>, Seq<int>),
    second: (Seq<int>, Seq<int>),
) -> (pq: (Seq<int>, Seq<int>))
    requires
        moves(a, b, low, high, first.0, first.1),
        moves(b, c, low, high, second.0, second.1),
    ensures
        moves(a, c, low, high, pq.0, pq.1),
{
    let p = Seq::new(a.len(), |i: int| first.0[second.0[i]]);
    let q = Seq::new(a.len(), |i: int| second.1[first.1[i]]);
    assert forall|i: int| 0 <= i < a.len() implies {
        &&& 0 <= #[trigger] p[i] < a.len()
        &&& q[p[i]] == i
        &&& c[i] == a[p[i]]
        &&& (low <= i <= high ==> low <= p[i] <= high)
        &&& (!(low <= i <= high) ==> p[i] == i)
    } by {
        let k = second.0[i];
        assert(0 <= k < a.len());
        assert(0 <= first.0[k] < a.len());
        assert(first.1[first.0[k]] == k);
        assert(second.1[k] == i);
    }
    assert forall|i: int| 0 <= i < a.len() implies 0 <= #[trigger] q[i] < a.len() && p[q[i]]
        == i by {
        let k = first.1[i];
        assert(0 <= k < a.len());
        assert(0 <= second.1[k] < a.len());
        assert(second.0[second.1[k]] == k);
        assert(first.0[k] == i);
    }
    (p, q)
}

/// Leaves rearranged within a range are rearranged within a wider one.
proof fn lemma_widen(
    a: Seq<Leaf>,
    b: Seq<Leaf>,
    low: int,
    high: int,
    wide_low: int,
    wide_high: int,
    pq: (Seq<int>, Seq<int>),
)
    requires
        moves(a, b, low, high, pq.0, pq.1),
        wide_low <= low,
        high <= wide_high,
    ensures
        moves(a, b, wide_low, wide_high, pq.0, pq.1),
{
    assert forall|i: int| 0 <= i < a.len() implies {
        &&& 0 <= #[trigger] pq.0[i] < a.len()
        &&& pq.1[pq.0[i]] == i
        &&& b[i] == a[pq.0[i]]
        &&& (wide_low <= i <= wide_high ==> wide_low <= pq.0[i] <= wide_high)
        &&& (!(wide_low <= i <= wide_high) ==> pq.0[i] == i)
    } by {}
}

/// The leaves from `low` to `high` stand in descending order.
pub open spec fn descending(nodes: Seq<Leaf>, low: int, high: int) -> bool {
    forall|i: int, j: int|
        low <= i <= j <= high ==> (#[trigger] nodes[i]).count >= (#[trigger] nodes[j]).count
}

proof fn lemma_sifted(nodes: Seq<Leaf>, low: int, j: int, high: int) -> (pq: (Seq<int>, Seq<int>))
    requires
        0 <= low <= j <= high < nodes.len(),
    ensures
        moves(nodes, sifted(nodes, low, j), low, high, pq.0, pq.1),
    decreases j - low,
{
    if j > low && nodes[j - 1].count < nodes[j].count {
        let next = swapped(nodes, j - 1, j);
        let first = lemma_swap(nodes, low, high, j - 1, j);
        let second = lemma_sifted(next, low, j - 1, high);
        lemma_chain(nodes, next, sifted(next, low, j - 1), low, high, first, second)
    } else {
        lemma_stay(nodes, low, high)
    }
}

/// Sifting in a leaf keeps the order. `top` is the end of the order: the leaves
/// between `j` and `top` are sorted and stand behind those below `j`.
proof fn lemma_sifted_sorts(nodes: Seq<Leaf>, low: int, j: int, top: int)
    requires
        0 <= low <= j <= top < nodes.len(),
        forall|x: int, y: int|
            low <= x <= y <= top && x != j && y != j ==> (#[trigger] nodes[x]).count >= (
            #[trigger] nodes[y]).count,
        forall|y: int| j < y <= top ==> nodes[j].count >= (#[trigger] nodes[y]).count,
    ensures
        descending(sifted(nodes, low, j), low, top),
    decreases j - low,
{
    if j > low && nodes[j - 1].count < nodes[j].count {
        let next = swapped(nodes, j - 1, j);
        assert forall|x: int, y: int|
            low <= x <= y <= top && x != j - 1 && y != j - 1 implies (#[trigger] next[x]).count >= (
        #[trigger] next[y]).count by {
            let x0 = if x == j {
                j - 1
            } else {
                x
            };
            let y0 = if y == j {
                j - 1
            } else {
                y
            };
            assert(next[x] == nodes[x0]);
            assert(next[y] == nodes[y0]);
        }
        assert forall|y: int| j - 1 < y <= top implies next[j - 1].count >= (
        #[trigger] next[y]).count by {
            if y == j {
                assert(next[y] == nodes[j - 1]);
            } else {
                assert(next[y] == nodes[y]);
            }
        }
        lemma_sifted_sorts(next, low, j - 1, top);
    } else {
        assert forall|x: int, y: int| low <= x <= y <= top implies (#[trigger] nodes[x]).count >= (
        #[trigger] nodes[y]).count by {
            if x < j && y == j {
                assert(nodes[x].count >= nodes[j - 1].count);
            }
        }
    }
}

proof fn lemma_insertion_sorted(nodes: Seq<Leaf>, low: int, i: int, high: int) -> (pq: (
    Seq<int>,
    Seq<int>,
))
    requires
        0 <= low < i,
        high < nodes.len(),
    ensures
        moves(nodes, insertion_sorted(nodes, low, i, high), low, high, pq.0, pq.1),
        descending(nodes, low, i - 1) && i - 1 <= high ==> descending(
            insertion_sorted(nodes, low, i, high),
            low,
            high,
        ),
    decreases high + 1 - i,
{
    if i > high {
        lemma_stay(nodes, low, high)
    } else {
        let next = sifted(nodes, low, i);
        let first = lemma_sifted(nodes, low, i, high);
        if descending(nodes, low, i - 1) {
            assert forall|x: int, y: int|
                low <= x <= y <= i && x != i && y != i implies (#[trigger] nodes[x]).count >= (
            #[trigger] nodes[y]).count by {}
            lemma_sifted_sorts(nodes, low, i, i);
        }
        let second = lemma_insertion_sorted(next, low, i + 1, high);
        lemma_chain(
            nodes,
            next,
            insertion_sorted(next, low, i + 1, high),
            low,
            high,
            first,
            second,
        )
    }
}

proof fn lemma_partitioned(nodes: Seq<Leaf>, low: int, j: int, boundary: int, high: int) -> (pq: (
    Seq<int>,
    Seq<int>,
))
    requires
        0 <= low <= boundary <= j <= high < nodes.len(),
        forall|x: int| low <= x < boundary ==> (#[trigger] nodes[x]).count > nodes[high].count,
        forall|x: int| boundary <= x < j ==> (#[trigger] nodes[x]).count <= nodes[high].count,
    ensures
        ({
            let (parted, pivot) = partitioned(nodes, j, boundary, high);
            &&& moves(nodes, parted, low, high, pq.0, pq.1)
            &&& low <= pivot <= high
            &&& forall|x: int| low <= x < pivot ==> (#[trigger] parted[x]).count > parted[pivot].count
            &&& forall|x: int|
                pivot < x <= high ==> (#[trigger] parted[x]).count <= parted[pivot].count
        }),
    decreases high - j,
{
    let (parted, pivot) = partitioned(nodes, j, boundary, high);
    if j >= high {
        lemma_swap(nodes, low, high, boundary, high)
    } else if nodes[j].count > nodes[high].count {
        let next = swapped(nodes, boundary, j);
        assert forall|x: int| low <= x < boundary + 1 implies (#[trigger] next[x]).count
            > next[high].count by {
            if x == boundary {
                assert(next[x] == nodes[j]);
            } else {
                assert(next[x] == nodes[x]);
            }
        }
        assert forall|x: int| boundary + 1 <= x < j + 1 implies (#[trigger] next[x]).count
            <= next[high].count by {
            if x == j {
                assert(next[x] == nodes[boundary]);
            } else {
                assert(next[x] == nodes[x]);
            }
        }
        let first = lemma_swap(nodes, low, high, boundary, j);
        let second = lemma_partitioned(next, low, j + 1, boundary + 1, high);
        lemma_chain(nodes, next, parted, low, high, first, second)
    } else {
        lemma_partitioned(nodes, low, j + 1, boundary, high)
    }
}

/// The sort rearranges its range, and leaves it in descending order.
pub proof fn lemma_quick_sorted(nodes: Seq<Leaf>, low: int, high: int) -> (pq: (
    Seq<int>,
    Seq<int>,
))
    requires
        0 <= low,
        high < nodes.len(),
    ensures
        moves(nodes, quick_sorted(nodes, low, high), low, high, pq.0, pq.1),
        descending(quick_sorted(nodes, low, high), low, high),
    decreases high - low + 1, 1nat,
{
    if high - low < INSERTION_SORT_THRESHOLD {
        lemma_insertion_sorted(nodes, low, low + 1, high)
    } else {
        lemma_parted_sorted(nodes, low, high)
    }
}

proof fn lemma_parted_sorted(nodes: Seq<Leaf>, low: int, high: int) -> (pq: (Seq<int>, Seq<int>))
    requires
        0 <= low,
        high < nodes.len(),
    ensures
        moves(nodes, parted_sorted(nodes, low, high), low, high, pq.0, pq.1),
        descending(parted_sorted(nodes, low, high), low, high),
    decreases high - low + 1, 0nat,
{
    if low >= high {
        lemma_stay(nodes, low, high)
    } else {
        let (parted, pivot) = partitioned(nodes, low, low, high);
        let first = lemma_partitioned(nodes, low, low, low, high);
        let done = parted_sorted(nodes, low, high);
        if pivot - low < high - pivot {
            let left = quick_sorted(parted, low, pivot - 1);
            let second = lemma_quick_sorted(parted, low, pivot - 1);
            let third = lemma_parted_sorted(left, pivot + 1, high);
            lemma_sides(parted, left, done, low, pivot, high, second, third, true);
            lemma_widen(parted, left, low, pivot - 1, low, high, second);
            lemma_widen(left, done, pivot + 1, high, low, high, third);
            let both = lemma_chain(nodes, parted, left, low, high, first, second);
            lemma_chain(nodes, left, done, low, high, both, third)
        } else {
            let right = quick_sorted(parted, pivot + 1, high);
            let second = lemma_quick_sorted(parted, pivot + 1, high);
            let third = lemma_parted_sorted(right, low, pivot - 1);
            lemma_sides(parted, right, done, low, pivot, high, second, third, false);
            lemma_widen(parted, right, pivot + 1, high, low, high, second);
            lemma_widen(right, done, low, pivot - 1, low, high, third);
            let both = lemma_chain(nodes, parted, right, low, high, first, second);
            lemma_chain(nodes, right, done, low, high, both, third)
        }
    }
}

/// Both sides of a parted range being sorted, the range is sorted.
proof fn lemma_sides(
    parted: Seq<Leaf>,
    half: Seq<Leaf>,
    done: Seq<Leaf>,
    low: int,
    pivot: int,
    high: int,
    second: (Seq<int>, Seq<int>),
    third: (Seq<int>, Seq<int>),
    left_first: bool,
)
    requires
        0 <= low <= pivot <= high < parted.len(),
        left_first ==> moves(parted, half, low, pivot - 1, second.0, second.1) && moves(
            half,
            done,
            pivot + 1,
            high,
            third.0,
            third.1,
        ) && descending(half, low, pivot - 1) && descending(done, pivot + 1, high),
        !left_first ==> moves(parted, half, pivot + 1, high, second.0, second.1) && moves(
            half,
            done,
            low,
            pivot - 1,
            third.0,
            third.1,
        ) && descending(half, pivot + 1, high) && descending(done, low, pivot - 1),
        forall|x: int| low <= x < pivot ==> (#[trigger] parted[x]).count > parted[pivot].count,
        forall|x: int| pivot < x <= high ==> (#[trigger] parted[x]).count <= parted[pivot].count,
    ensures
        descending(done, low, high),
{
    let p2 = second.0;
    let p3 = third.0;
    assert(p2[pivot] == pivot && p3[pivot] == pivot);
    assert(done[pivot] == parted[pivot]);
    assert forall|x: int| low <= x < pivot implies (#[trigger] done[x]).count
        > parted[pivot].count by {
        if left_first {
            assert(p3[x] == x);
            assert(done[x] == half[x]);
            assert(half[x] == parted[p2[x]]);
        } else {
            let k = p3[x];
            assert(done[x] == half[k]);
            assert(p2[k] == k);
            assert(half[k] == parted[k]);
        }
    }
    assert forall|x: int| pivot < x <= high implies (#[trigger] done[x]).count
        <= parted[pivot].count by {
        if left_first {
            let k = p3[x];
            assert(done[x] == half[k]);
            assert(p2[k] == k);
            assert(half[k] == parted[k]);
        } else {
            assert(p3[x] == x);
            assert(done[x] == half[x]);
            assert(half[x] == parted[p2[x]]);
        }
    }
    assert forall|i: int, j: int| low <= i <= j <= high implies (#[trigger] done[i]).count >= (
    #[trigger] done[j]).count by {
        if left_first && j < pivot {
            assert(p3[i] == i && p3[j] == j);
            assert(done[i] == half[i] && done[j] == half[j]);
        }
        if !left_first && i > pivot {
            assert(p3[i] == i && p3[j] == j);
            assert(done[i] == half[i] && done[j] == half[j]);
        }
    }
}

// ---------------------------------------------------------------------------
// Sorting in place.

fn swap_leaves(nodes: &mut Vec<Leaf>, a: usize, b: usize)
    requires
        a < old(nodes)@.len(),
        b < old(nodes)@.len(),
    ensures
        final(nodes)@ == swapped(old(nodes)@, a as int, b as int),
{
    let x: Leaf = nodes[a];
    let y: Leaf = nodes[b];
    nodes.set(a, y);
    nodes.set(b, x);
}

fn insertion_sort_nodes(nodes: &mut Vec<Leaf>, low: usize, end: usize)
    requires
        low <= end <= old(nodes)@.len(),
        low < usize::MAX,
    ensures
        final(nodes)@ == insertion_sorted(old(nodes)@, low as int, low + 1, end - 1),
        final(nodes)@.len() == old(nodes)@.len(),
{
    let ghost goal = insertion_sorted(nodes@, low as int, low + 1, end - 1);
    let ghost len = nodes@.len();
    let mut i: usize = low + 1;
    while i < end
        invariant
            low < i,
            end <= len,
            nodes@.len() == len,
            insertion_sorted(nodes@, low as int, i as int, end - 1) == goal,
        decreases end - i,
    {
        let ghost whole = sifted(nodes@, low as int, i as int);
        let mut j: usize = i;
        while j > low && nodes[j - 1].count < nodes[j].count
            invariant
                low <= j <= i < end <= len,
                nodes@.len() == len,
                sifted(nodes@, low as int, j as int) == whole,
            decreases j,
        {
            swap_leaves(nodes, j - 1, j);
            j = j - 1;
        }
        i = i + 1;
    }
}

fn partition_nodes(nodes: &mut Vec<Leaf>, low: usize, high: usize) -> (pivot: usize)
    requires
        low <= high < old(nodes)@.len(),
    ensures
        (final(nodes)@, pivot as int) == partitioned(
            old(nodes)@,
            low as int,
            low as int,
            high as int,
        ),
        final(nodes)@.len() == old(nodes)@.len(),
        low <= pivot <= high,
{
    let ghost goal = partitioned(nodes@, low as int, low as int, high as int);
    let ghost len = nodes@.len();
    let mut boundary: usize = low;
    let mut j: usize = low;
    while j < high
        invariant
            low <= boundary <= j <= high < len,
            nodes@.len() == len,
            partitioned(nodes@, j as int, boundary as int, high as int) == goal,
        decreases high - j,
    {
        if nodes[j].count > nodes[high].count {
            swap_leaves(nodes, boundary, j);
            boundary = boundary + 1;
        }
        j = j + 1;
    }
    swap_leaves(nodes, boundary, high);
    boundary
}

/// Sorts the leaves from `low` up to `end`.
fn quick_sort_nodes(nodes: &mut Vec<Leaf>, low: usize, end: usize)
    requires
        low <= end <= old(nodes)@.len(),
        old(nodes)@.len() < usize::MAX,
    ensures
        final(nodes)@ == quick_sorted(old(nodes)@, low as int, end - 1),
        final(nodes)@.len() == old(nodes)@.len(),
    decreases end - low,
{
    if end - low <= INSERTION_SORT_THRESHOLD {
        insertion_sort_nodes(nodes, low, end);
        return;
    }
    let ghost goal = parted_sorted(nodes@, low as int, end - 1);
    let ghost len = nodes@.len();
    let mut low_at: usize = low;
    let mut end_at: usize = end;
    while low_at + 1 < end_at
        invariant
            low <= low_at <= end_at <= end <= len,
            len < usize::MAX,
            nodes@.len() == len,
            parted_sorted(nodes@, low_at as int, end_at - 1) == goal,
        decreases end_at - low_at,
    {
        let high: usize = end_at - 1;
        let pivot: usize = partition_nodes(nodes, low_at, high);
        if pivot - low_at < high - pivot {
            quick_sort_nodes(nodes, low_at, pivot);
            low_at = pivot + 1;
        } else {
            quick_sort_nodes(nodes, pivot + 1, end_at);
            end_at = pivot;
        }
    }
}

// ---------------------------------------------------------------------------
// All symbols.

/// The leaves of the first `k` symbols whose count is in the bucket.
pub open spec fn bucket_leaves(count: Seq<u32>, bucket: nat, k: nat) -> Seq<Leaf>
    decreases k,
{
    if k == 0 {
        Seq::empty()
    } else if bucket_of(count[k - 1] as nat) == bucket {
        bucket_leaves(count, bucket, (k - 1) as nat).push(
            Leaf { count: count[k - 1], byte: (k - 1) as u8 },
        )
    } else {
        bucket_leaves(count, bucket, (k - 1) as nat)
    }
}

/// The leaves of `n` symbols whose counts are in the bucket or a higher one.
pub open spec fn leaves_down_to(count: Seq<u32>, n: nat, bucket: nat) -> Seq<Leaf>
    decreases BUCKETS - bucket,
{
    if bucket >= BUCKETS {
        Seq::empty()
    } else {
        let above = leaves_down_to(count, n, bucket + 1);
        let all = above + bucket_leaves(count, bucket, n);
        if bucket >= FIRST_SORTED_BUCKET {
            quick_sorted(all, above.len() as int, all.len() - 1)
        } else {
            all
        }
    }
}

/// The leaves of `n` symbols by descending count.
pub open spec fn sorted_leaves(count: Seq<u32>, n: nat) -> Seq<Leaf> {
    leaves_down_to(count, n, 0)
}

/// The symbols whose counts are above the bucket, and those before `k` whose
/// count is in it.
pub open spec fn reached(count: Seq<u32>, n: nat, bucket: nat, k: nat, s: int) -> bool {
    &&& 0 <= s < n
    &&& bucket_of(count[s] as nat) > bucket || (bucket_of(count[s] as nat) == bucket && s < k)
}

/// The leaves are those of the symbols that are reached, each once.
pub open spec fn arranged(nodes: Seq<Leaf>, count: Seq<u32>, n: nat, bucket: nat, k: nat) -> bool {
    &&& forall|i: int|
        0 <= i < nodes.len() ==> reached(count, n, bucket, k, (#[trigger] nodes[i]).byte as int)
            && nodes[i].count == count[nodes[i].byte as int]
    &&& forall|i: int, j: int|
        0 <= i < j < nodes.len() ==> (#[trigger] nodes[i]).byte != (#[trigger] nodes[j]).byte
    &&& forall|s: int|
        #[trigger] reached(count, n, bucket, k, s) ==> exists|i: int|
            0 <= i < nodes.len() && (#[trigger] nodes[i]).byte == s
}

/// Rearranging keeps every symbol's leaf.
proof fn lemma_moves_arranged(
    a: Seq<Leaf>,
    b: Seq<Leaf>,
    low: int,
    high: int,
    pq: (Seq<int>, Seq<int>),
    count: Seq<u32>,
    n: nat,
    bucket: nat,
    k: nat,
)
    requires
        moves(a, b, low, high, pq.0, pq.1),
        arranged(a, count, n, bucket, k),
    ensures
        arranged(b, count, n, bucket, k),
{
    let (p, q) = pq;
    assert forall|i: int| 0 <= i < b.len() implies reached(
        count,
        n,
        bucket,
        k,
        (#[trigger] b[i]).byte as int,
    ) && b[i].count == count[b[i].byte as int] by {
        assert(b[i] == a[p[i]]);
    }
    assert forall|i: int, j: int| 0 <= i < j < b.len() implies (#[trigger] b[i]).byte != (
    #[trigger] b[j]).byte by {
        assert(b[i] == a[p[i]] && b[j] == a[p[j]]);
        assert(q[p[i]] == i && q[p[j]] == j);
        if p[i] < p[j] {
            assert(a[p[i]].byte != a[p[j]].byte);
        } else {
            assert(a[p[j]].byte != a[p[i]].byte);
        }
    }
    assert forall|s: int| #[trigger] reached(count, n, bucket, k, s) implies exists|i: int|
        0 <= i < b.len() && (#[trigger] b[i]).byte == s by {
        let i = choose|i: int| 0 <= i < a.len() && (#[trigger] a[i]).byte == s;
        assert(p[q[i]] == i);
        assert(b[q[i]] == a[p[q[i]]]);
    }
}

/// Each symbol once are at most as many leaves as symbols.
pub proof fn lemma_arranged_length(
    nodes: Seq<Leaf>,
    count: Seq<u32>,
    n: nat,
    bucket: nat,
    k: nat,
)
    requires
        arranged(nodes, count, n, bucket, k),
    ensures
        nodes.len() <= n,
{
    let bytes = Seq::new(nodes.len(), |i: int| nodes[i].byte as int);
    assert forall|i: int, j: int| 0 <= i < bytes.len() && 0 <= j < bytes.len() && i != j implies
        #[trigger] bytes[i] != #[trigger] bytes[j] by {
        if i < j {
            assert(nodes[i].byte != nodes[j].byte);
        } else {
            assert(nodes[j].byte != nodes[i].byte);
        }
    }
    bytes.unique_seq_to_set();
    vstd::set_lib::lemma_int_range(0, n as int);
    assert forall|x: int| #[trigger] bytes.to_set().contains(x) implies vstd::set_lib::set_int_range(
        0,
        n as int,
    ).contains(x) by {
        let i = choose|i: int| 0 <= i < bytes.len() && bytes[i] == x;
        assert(reached(count, n, bucket, k, nodes[i].byte as int));
    }
    vstd::set_lib::lemma_len_subset(
        bytes.to_set(),
        vstd::set_lib::set_int_range(0, n as int),
    );
}

proof fn lemma_bucket_arranged(count: Seq<u32>, n: nat, bucket: nat, k: nat, above: Seq<Leaf>)
    requires
        k <= n <= 256,
        n <= count.len(),
        arranged(above, count, n, bucket, 0),
    ensures
        arranged(above + bucket_leaves(count, bucket, k), count, n, bucket, k),
        forall|i: int|
            0 <= i < bucket_leaves(count, bucket, k).len() ==> bucket_of(
                (#[trigger] bucket_leaves(count, bucket, k)[i]).count as nat,
            ) == bucket,
    decreases k,
{
    if k == 0 {
        assert(above + bucket_leaves(count, bucket, 0) =~= above);
    } else {
        let m = (k - 1) as nat;
        lemma_bucket_arranged(count, n, bucket, m, above);
        let before = above + bucket_leaves(count, bucket, m);
        let all = above + bucket_leaves(count, bucket, k);
        if bucket_of(count[m as int] as nat) == bucket {
            let leaf = Leaf { count: count[m as int], byte: m as u8 };
            assert(all =~= before.push(leaf));
            assert forall|s: int| #[trigger] reached(count, n, bucket, k, s) implies exists|i: int|
                0 <= i < all.len() && (#[trigger] all[i]).byte == s by {
                if s == m {
                    assert(all[all.len() - 1].byte == s);
                } else {
                    assert(reached(count, n, bucket, m, s));
                    let i = choose|i: int| 0 <= i < before.len() && (#[trigger] before[i]).byte == s;
                    assert(all[i] == before[i]);
                }
            }
            assert forall|i: int, j: int| 0 <= i < j < all.len() implies (#[trigger] all[i]).byte
                != (#[trigger] all[j]).byte by {
                assert(all[i] == before[i]);
                if j < before.len() {
                    assert(all[j] == before[j]);
                } else {
                    assert(reached(count, n, bucket, m, before[i].byte as int));
                }
            }
            assert forall|i: int| 0 <= i < all.len() implies reached(
                count,
                n,
                bucket,
                k,
                (#[trigger] all[i]).byte as int,
            ) && all[i].count == count[all[i].byte as int] by {
                if i < before.len() {
                    assert(all[i] == before[i]);
                }
            }
        } else {
            assert forall|s: int| #[trigger] reached(count, n, bucket, k, s) implies reached(
                count,
                n,
                bucket,
                m,
                s,
            ) by {}
            assert forall|i: int| 0 <= i < all.len() implies reached(
                count,
                n,
                bucket,
                k,
                (#[trigger] all[i]).byte as int,
            ) by {
                assert(reached(count, n, bucket, m, before[i].byte as int));
            }
        }
    }
}

/// The leaves of the upper buckets: each of their symbols once, by descending
/// count.
proof fn lemma_leaves_down_to(count: Seq<u32>, n: nat, bucket: nat)
    requires
        n <= 256,
        n <= count.len(),
        bucket <= BUCKETS,
    ensures
        arranged(leaves_down_to(count, n, bucket), count, n, bucket, n),
        descending(
            leaves_down_to(count, n, bucket),
            0,
            leaves_down_to(count, n, bucket).len() - 1,
        ),
    decreases BUCKETS - bucket,
{
    if bucket >= BUCKETS {
        assert forall|s: int| !#[trigger] reached(count, n, bucket, n, s) by {
            if 0 <= s < n {
                lemma_bucket_bound(count[s]);
            }
        }
    } else {
        let above = leaves_down_to(count, n, bucket + 1);
        lemma_leaves_down_to(count, n, bucket + 1);
        assert forall|s: int|
            #[trigger] reached(count, n, bucket, 0, s) == reached(
                count,
                n,
                bucket + 1,
                n,
                s,
            ) by {}
        assert(arranged(above, count, n, bucket, 0)) by {
            assert forall|i: int| 0 <= i < above.len() implies reached(
                count,
                n,
                bucket,
                0,
                (#[trigger] above[i]).byte as int,
            ) by {
                assert(reached(count, n, bucket + 1, n, above[i].byte as int));
            }
            assert forall|s: int| #[trigger] reached(count, n, bucket, 0, s) implies exists|i: int|
                0 <= i < above.len() && (#[trigger] above[i]).byte == s by {
                assert(reached(count, n, bucket + 1, n, s));
            }
        }
        let mine = bucket_leaves(count, bucket, n);
        let all = above + mine;
        lemma_bucket_arranged(count, n, bucket, n, above);
        let a = above.len() as int;
        let done = leaves_down_to(count, n, bucket);
        if bucket >= FIRST_SORTED_BUCKET {
            let pq = lemma_quick_sorted(all, a, all.len() - 1);
            lemma_moves_arranged(all, done, a, all.len() - 1, pq, count, n, bucket, n);
            assert forall|i: int| 0 <= i < a implies #[trigger] done[i] == above[i] by {
                assert(pq.0[i] == i);
            }
            assert forall|i: int| a <= i < all.len() implies bucket_of(
                (#[trigger] done[i]).count as nat,
            ) == bucket by {
                let k = pq.0[i];
                assert(done[i] == all[k]);
                assert(all[k] == mine[k - a]);
            }
        } else {
            assert forall|i: int| a <= i < all.len() implies bucket_of(
                (#[trigger] done[i]).count as nat,
            ) == bucket by {
                assert(all[i] == mine[i - a]);
            }
        }
        assert forall|i: int, j: int| 0 <= i <= j <= done.len() - 1 implies (
        #[trigger] done[i]).count >= (#[trigger] done[j]).count by {
            if j < a {
                assert(done[i] == above[i] && done[j] == above[j]);
            } else if i < a {
                assert(done[i] == above[i]);
                assert(reached(count, n, bucket, 0, above[i].byte as int));
                lemma_bucket_order(done[j].count as nat, done[i].count as nat);
            } else if bucket < FIRST_SORTED_BUCKET {
                lemma_distinct_bucket(done[i].count as nat, bucket);
                lemma_distinct_bucket(done[j].count as nat, bucket);
            }
        }
    }
}

proof fn lemma_bucket_bound(count: u32)
    ensures
        bucket_of(count as nat) < BUCKETS,
{
    lemma2_to64();
    if count >= DISTINCT_COUNT_CUTOFF {
        mem::lemma_floor_log2(count as nat);
        if mem::floor_log2(count as nat) >= 32 {
            mem::lemma_pow2_monotone(32, mem::floor_log2(count as nat));
        }
    }
}

proof fn lemma_distinct_bucket(count: nat, bucket: nat)
    requires
        bucket_of(count) == bucket,
        bucket < FIRST_SORTED_BUCKET,
    ensures
        count == bucket,
{
    lemma2_to64();
    if count >= DISTINCT_COUNT_CUTOFF {
        mem::lemma_floor_log2(count);
        if mem::floor_log2(count) < 7 {
            mem::lemma_pow2_monotone(mem::floor_log2(count) + 1, 7);
        }
    }
}

/// Symbol `s` has the leaf at place `i`.
pub open spec fn leaf_at(nodes: Seq<Leaf>, i: int, s: int) -> bool {
    0 <= i < nodes.len() && nodes[i].byte == s
}

/// Symbol `s` has a leaf.
pub open spec fn has_leaf(nodes: Seq<Leaf>, s: int) -> bool {
    exists|i: int| leaf_at(nodes, i, s)
}

/// The sorted leaves hold each symbol once, with its count, by descending
/// count.
pub proof fn law_sorted_leaves(count: Seq<u32>, n: nat)
    requires
        n <= 256,
        n <= count.len(),
    ensures
        ({
            let nodes = sorted_leaves(count, n);
            &&& nodes.len() <= n
            &&& descending(nodes, 0, nodes.len() - 1)
            &&& forall|i: int|
                0 <= i < nodes.len() ==> (#[trigger] nodes[i]).byte < n && nodes[i].count
                    == count[nodes[i].byte as int]
            &&& forall|i: int, j: int|
                0 <= i < j < nodes.len() ==> (#[trigger] nodes[i]).byte != (#[trigger] nodes[j]).byte
            &&& forall|s: int| 0 <= s < n ==> #[trigger] has_leaf(nodes, s)
        }),
{
    let nodes = sorted_leaves(count, n);
    lemma_leaves_down_to(count, n, 0);
    lemma_arranged_length(nodes, count, n, 0, n);
    assert forall|i: int| 0 <= i < nodes.len() implies (#[trigger] nodes[i]).byte < n && nodes[i].count
        == count[nodes[i].byte as int] by {
        assert(reached(count, n, 0, n, nodes[i].byte as int));
    }
    assert forall|s: int| 0 <= s < n implies #[trigger] has_leaf(nodes, s) by {
        assert(reached(count, n, 0, n, s));
        let i = choose|i: int| 0 <= i < nodes.len() && (#[trigger] nodes[i]).byte == s;
        assert(leaf_at(nodes, i, s));
    }
}

/// The leaves of the first `n` symbols by descending count.
pub fn sort_nodes(count: &[u32], n: usize) -> (r: Vec<Leaf>)
    requires
        n <= 256,
        n <= count@.len(),
    ensures
        r@ == sorted_leaves(count@, n as nat),
{
    let mut nodes: Vec<Leaf> = Vec::new();
    let mut bucket: u32 = BUCKETS;
    while bucket > 0
        invariant
            bucket <= BUCKETS,
            n <= 256,
            n <= count@.len(),
            nodes@ == leaves_down_to(count@, n as nat, bucket as nat),
        decreases bucket,
    {
        proof {
            lemma_leaves_down_to(count@, n as nat, bucket as nat);
            lemma_arranged_length(nodes@, count@, n as nat, bucket as nat, n as nat);
        }
        let ghost above = nodes@;
        let start: usize = nodes.len();
        bucket = bucket - 1;
        let mut k: usize = 0;
        proof {
            assert(above + bucket_leaves(count@, bucket as nat, 0) =~= above);
        }
        while k < n
            invariant
                k <= n <= 256,
                n <= count@.len(),
                nodes@ == above + bucket_leaves(count@, bucket as nat, k as nat),
                bucket_leaves(count@, bucket as nat, k as nat).len() <= k,
            decreases n - k,
        {
            if rank_index(count[k]) == bucket {
                nodes.push(Leaf { count: count[k], byte: k as u8 });
            }
            k = k + 1;
            proof {
                assert(nodes@ =~= above + bucket_leaves(count@, bucket as nat, k as nat));
            }
        }
        if bucket >= FIRST_SORTED_BUCKET {
            let end: usize = nodes.len();
            quick_sort_nodes(&mut nodes, start, end);
        }
    }
    nodes
}

} // verus!
