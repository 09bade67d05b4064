//! A k-d tree over the reference vectors, stored implicitly in an array of
//! record indices: the node over `[start, end)` at depth `depth` splits on
//! component `depth % VECTOR_DIM` at its middle position.
use vstd::prelude::*;
use crate::vector::VECTOR_DIM;
use crate::repository::{FraudRepository, has_record, record_offset, RECORD_SIZE};
use crate::select::{key_at, all_present, permuted_within, nth_element};
use crate::perm::lemma_split_multiset;
use crate::heap::{
    BoundedMaxHeap, HeapItem, K, k_nearest, max_dist_of, lemma_k_nearest_offer, lemma_k_nearest_skip,
    lemma_k_nearest_empty, dist_is_nan, dist_rank, dist_less, numeric_dists, no_nearer,
};
use crate::repository::{record_label, lemma_count_fits, component_bits};
use crate::order::f64_is_nan;
use crate::select::nan_free;
use crate::vector::Label;
use vstd::multiset::Multiset;

verus! {

/// Ranges of at most this many records are leaves: they are not split.
pub const LEAF_SIZE: usize = 32;

/// The middle position of a range, where its node keeps its split record.
pub open spec fn split_mid(start: int, end: int) -> int {
    (start + end) / 2
}

/// Whether the node `(s, e, d)` is a node of the tree rooted at
/// `(start, end, depth)`: the root itself or a node of a child, where a
/// range of more than `LEAF_SIZE` records has the children `[start, mid)`
/// and `[mid + 1, end)` one level deeper.
pub open spec fn in_subtree(s: int, e: int, d: int, start: int, end: int, depth: int) -> bool
    decreases end - start,
{
    if end - start > LEAF_SIZE {
        (s == start && e == end && d == depth) || in_subtree(s, e, d, start, split_mid(start, end), depth + 1)
            || in_subtree(s, e, d, split_mid(start, end) + 1, end, depth + 1)
    } else {
        s == start && e == end && d == depth
    }
}

/// Whether a stack of pending ranges holds the node `(s, e, d)`.
pub open spec fn on_stack(stack: Seq<(usize, usize, usize)>, s: int, e: int, d: int) -> bool {
    exists|i: int| 0 <= i < stack.len() && #[trigger] node_is(stack[i], s, e, d)
}

/// Whether a stack entry names the node `(s, e, d)`.
pub open spec fn node_is(t: (usize, usize, usize), s: int, e: int, d: int) -> bool {
    t.0 == s && t.1 == e && t.2 == d
}

/// What is left to do for a stack of ranges: each range weighs twice its
/// size plus one, so that splitting a range lightens the stack.
pub open spec fn stack_weight(stack: Seq<(usize, usize, usize)>) -> int
    decreases stack.len(),
{
    if stack.len() == 0 {
        0
    } else {
        stack_weight(stack.drop_last()) + 2 * (stack.last().1 - stack.last().0) + 1
    }
}

proof fn lemma_stack_weight_nonneg(stack: Seq<(usize, usize, usize)>)
    requires
        forall|i: int| 0 <= i < stack.len() ==> #[trigger] stack[i].0 <= stack[i].1,
    ensures
        stack_weight(stack) >= 0,
    decreases stack.len(),
{
    if stack.len() > 0 {
        let rest = stack.drop_last();
        assert forall|i: int| 0 <= i < rest.len() implies #[trigger] rest[i].0 <= rest[i].1 by {
            assert(rest[i] == stack[i]);
        }
        lemma_stack_weight_nonneg(rest);
        assert(stack[stack.len() - 1].0 <= stack[stack.len() - 1].1);
    }
}

/// Two stack entries hold non-empty ranges that do not overlap.
pub open spec fn apart(t1: (usize, usize, usize), t2: (usize, usize, usize)) -> bool {
    t1.0 < t1.1 && t2.0 < t2.1 && (t1.1 <= t2.0 || t2.1 <= t1.0)
}

/// The split condition of the k-d tree below `(start, end, depth)`, except at
/// the nodes on `stack`, which are still to be split: at every other node of
/// more than `LEAF_SIZE` records, no key of the split component before the
/// middle is above the middle's key, and none after it is below.
pub open spec fn kd_ok(
    repo: &FraudRepository,
    idx: Seq<u32>,
    start: int,
    end: int,
    depth: int,
    stack: Seq<(usize, usize, usize)>,
) -> bool
    decreases end - start,
{
    if end - start <= LEAF_SIZE || on_stack(stack, start, end, depth) {
        true
    } else {
        let mid = split_mid(start, end);
        let dim = depth % (VECTOR_DIM as int);
        &&& forall|i: int| start <= i < mid ==> #[trigger] key_at(repo, idx, i, dim) <= key_at(repo, idx, mid, dim)
        &&& forall|i: int| mid < i < end ==> key_at(repo, idx, mid, dim) <= #[trigger] key_at(repo, idx, i, dim)
        &&& kd_ok(repo, idx, start, mid, depth + 1, stack)
        &&& kd_ok(repo, idx, mid + 1, end, depth + 1, stack)
    }
}

/// The split condition holds at every node below `(start, end, depth)`.
pub open spec fn kd_ordered(repo: &FraudRepository, idx: Seq<u32>, start: int, end: int, depth: int) -> bool {
    kd_ok(repo, idx, start, end, depth, Seq::empty())
}

/// No component of a record that the header announces is a NaN.
pub open spec fn nan_free_records(repo: &FraudRepository) -> bool {
    forall|r: int, d: int| 0 <= r < repo.spec_len() && 0 <= d < VECTOR_DIM ==> !f64_is_nan(
        #[trigger] component_bits(repo@, r, d),
    )
}

/// The sequence `0, 1, ..., n - 1` of record indices.
pub open spec fn all_indices(n: int) -> Seq<u32> {
    Seq::new(n as nat, |i: int| i as u32)
}

/// A node lies within the range of every node above it.
proof fn lemma_subtree_bounds(s: int, e: int, d: int, start: int, end: int, depth: int)
    requires
        in_subtree(s, e, d, start, end, depth),
        start <= end,
    ensures
        start <= s <= e <= end,
        depth <= d,
        (s == start && e == end && d == depth) || e - s < end - start,
    decreases end - start,
{
    if end - start > LEAF_SIZE {
        let mid = split_mid(start, end);
        if in_subtree(s, e, d, start, mid, depth + 1) {
            lemma_subtree_bounds(s, e, d, start, mid, depth + 1);
        } else if in_subtree(s, e, d, mid + 1, end, depth + 1) {
            lemma_subtree_bounds(s, e, d, mid + 1, end, depth + 1);
        }
    }
}

/// The children of a node of a tree are nodes of that tree.
proof fn lemma_subtree_child(s: int, e: int, d: int, start: int, end: int, depth: int)
    requires
        in_subtree(s, e, d, start, end, depth),
        e - s > LEAF_SIZE,
        start <= end,
    ensures
        in_subtree(s, split_mid(s, e), d + 1, start, end, depth),
        in_subtree(split_mid(s, e) + 1, e, d + 1, start, end, depth),
    decreases end - start,
{
    lemma_subtree_bounds(s, e, d, start, end, depth);
    if s == start && e == end && d == depth {
        assert(in_subtree(s, split_mid(s, e), d + 1, s, split_mid(s, e), d + 1));
        assert(in_subtree(split_mid(s, e) + 1, e, d + 1, split_mid(s, e) + 1, e, d + 1));
    } else {
        let mid = split_mid(start, end);
        if in_subtree(s, e, d, start, mid, depth + 1) {
            lemma_subtree_child(s, e, d, start, mid, depth + 1);
        } else {
            lemma_subtree_child(s, e, d, mid + 1, end, depth + 1);
        }
    }
}

/// Rearranging the range of a pending node keeps the split condition of
/// every node that contains it or lies apart from it.
proof fn lemma_kd_frame(
    repo: &FraudRepository,
    idx: Seq<u32>,
    idx2: Seq<u32>,
    start: int,
    end: int,
    depth: int,
    stack: Seq<(usize, usize, usize)>,
    s: int,
    e: int,
    d: int,
)
    requires
        on_stack(stack, s, e, d),
        0 <= start <= end <= idx.len(),
        0 <= s <= e <= idx.len(),
        in_subtree(s, e, d, start, end, depth) || e <= start || end <= s,
        permuted_within(idx, idx2, s, e),
        kd_ok(repo, idx, start, end, depth, stack),
    ensures
        kd_ok(repo, idx2, start, end, depth, stack),
    decreases end - start,
{
    if end - start <= LEAF_SIZE || on_stack(stack, start, end, depth) {
    } else {
        let mid = split_mid(start, end);
        let dim = depth % (VECTOR_DIM as int);
        if e <= start || end <= s {
            lemma_kd_frame(repo, idx, idx2, start, mid, depth + 1, stack, s, e, d);
            lemma_kd_frame(repo, idx, idx2, mid + 1, end, depth + 1, stack, s, e, d);
            assert(idx2[mid] == idx[mid]);
            assert forall|i: int| start <= i < mid implies #[trigger] key_at(repo, idx2, i, dim) <= key_at(repo, idx2, mid, dim) by {
                assert(idx2[i] == idx[i]);
                assert(key_at(repo, idx, i, dim) <= key_at(repo, idx, mid, dim));
            }
            assert forall|i: int| mid < i < end implies key_at(repo, idx2, mid, dim) <= #[trigger] key_at(repo, idx2, i, dim) by {
                assert(idx2[i] == idx[i]);
                assert(key_at(repo, idx, mid, dim) <= key_at(repo, idx, i, dim));
            }
        } else {
            assert(!(s == start && e == end && d == depth));
            let pivot = key_at(repo, idx, mid, dim);
            if in_subtree(s, e, d, start, mid, depth + 1) {
                lemma_subtree_bounds(s, e, d, start, mid, depth + 1);
                lemma_kd_frame(repo, idx, idx2, start, mid, depth + 1, stack, s, e, d);
                lemma_kd_frame(repo, idx, idx2, mid + 1, end, depth + 1, stack, s, e, d);
                assert(idx2[mid] == idx[mid]);
                let p = |x: u32| crate::repository::component_key(repo@, x as int, dim) <= pivot;
                assert forall|i: int| 0 <= i < idx.subrange(s, e).len() implies #[trigger] p(idx.subrange(s, e)[i]) by {
                    assert(idx.subrange(s, e)[i] == idx[s + i]);
                    assert(key_at(repo, idx, s + i, dim) <= pivot);
                }
                crate::perm::lemma_multiset_forall(idx.subrange(s, e), idx2.subrange(s, e), p);
                assert forall|i: int| start <= i < mid implies #[trigger] key_at(repo, idx2, i, dim) <= key_at(repo, idx2, mid, dim) by {
                    if s <= i < e {
                        assert(idx2.subrange(s, e)[i - s] == idx2[i]);
                        assert(p(idx2.subrange(s, e)[i - s]));
                    } else {
                        assert(key_at(repo, idx, i, dim) <= pivot);
                    }
                }
                assert forall|i: int| mid < i < end implies key_at(repo, idx2, mid, dim) <= #[trigger] key_at(repo, idx2, i, dim) by {
                    assert(key_at(repo, idx, mid, dim) <= key_at(repo, idx, i, dim));
                }
            } else {
                assert(in_subtree(s, e, d, mid + 1, end, depth + 1));
                lemma_subtree_bounds(s, e, d, mid + 1, end, depth + 1);
                lemma_kd_frame(repo, idx, idx2, start, mid, depth + 1, stack, s, e, d);
                lemma_kd_frame(repo, idx, idx2, mid + 1, end, depth + 1, stack, s, e, d);
                assert(idx2[mid] == idx[mid]);
                let p = |x: u32| pivot <= crate::repository::component_key(repo@, x as int, dim);
                assert forall|i: int| 0 <= i < idx.subrange(s, e).len() implies #[trigger] p(idx.subrange(s, e)[i]) by {
                    assert(idx.subrange(s, e)[i] == idx[s + i]);
                    assert(pivot <= key_at(repo, idx, s + i, dim));
                }
                crate::perm::lemma_multiset_forall(idx.subrange(s, e), idx2.subrange(s, e), p);
                assert forall|i: int| mid < i < end implies key_at(repo, idx2, mid, dim) <= #[trigger] key_at(repo, idx2, i, dim) by {
                    if s <= i < e {
                        assert(idx2.subrange(s, e)[i - s] == idx2[i]);
                        assert(p(idx2.subrange(s, e)[i - s]));
                    } else {
                        assert(pivot <= key_at(repo, idx, i, dim));
                    }
                }
                assert forall|i: int| start <= i < mid implies #[trigger] key_at(repo, idx2, i, dim) <= key_at(repo, idx2, mid, dim) by {
                    assert(key_at(repo, idx, i, dim) <= key_at(repo, idx, mid, dim));
                }
            }
        }
    }
}

/// Replacing the stack keeps the split condition when every other node of
/// the old stack is on the new one and the replaced node meets it.
proof fn lemma_kd_restack(
    repo: &FraudRepository,
    idx: Seq<u32>,
    start: int,
    end: int,
    depth: int,
    stack1: Seq<(usize, usize, usize)>,
    stack2: Seq<(usize, usize, usize)>,
    s: int,
    e: int,
    d: int,
)
    requires
        kd_ok(repo, idx, start, end, depth, stack1),
        kd_ok(repo, idx, s, e, d, stack2),
        forall|a: int, b: int, c: int|
            #[trigger] on_stack(stack1, a, b, c) && !(a == s && b == e && c == d) ==> on_stack(stack2, a, b, c),
    ensures
        kd_ok(repo, idx, start, end, depth, stack2),
    decreases end - start,
{
    if start == s && end == e && depth == d {
    } else if end - start <= LEAF_SIZE || on_stack(stack1, start, end, depth) || on_stack(stack2, start, end, depth) {
        if on_stack(stack1, start, end, depth) {
            assert(on_stack(stack2, start, end, depth));
        }
    } else {
        let mid = split_mid(start, end);
        lemma_kd_restack(repo, idx, start, mid, depth + 1, stack1, stack2, s, e, d);
        lemma_kd_restack(repo, idx, mid + 1, end, depth + 1, stack1, stack2, s, e, d);
    }
}

/// A rearrangement of a range is one of every range around it.
proof fn lemma_permuted_widen(s1: Seq<u32>, s2: Seq<u32>, a: int, b: int, lo: int, hi: int)
    requires
        permuted_within(s1, s2, a, b),
        0 <= lo <= a <= b <= hi <= s1.len(),
    ensures
        permuted_within(s1, s2, lo, hi),
{
    lemma_split_multiset(s1, lo, a, hi);
    lemma_split_multiset(s1, a, b, hi);
    lemma_split_multiset(s2, lo, a, hi);
    lemma_split_multiset(s2, a, b, hi);
    assert(s1.subrange(lo, a) =~= s2.subrange(lo, a));
    assert(s1.subrange(b, hi) =~= s2.subrange(b, hi));
}

/// The distance key that `dist` gives record `r`.
pub open spec fn dist_of<D: Fn(u32) -> u32>(dist: D, r: u32) -> u32 {
    choose|d: u32| dist.ensures((r,), d)
}

/// `dist` can be called on every record index and gives each one key.
pub open spec fn deterministic<D: Fn(u32) -> u32>(dist: D) -> bool {
    forall|r: u32, d1: u32, d2: u32| #[trigger] dist.ensures((r,), d1) && #[trigger] dist.ensures((r,), d2) ==> d1 == d2
}

/// Every distance key that `dist` gives is a number, not a NaN.
pub open spec fn nan_free_dist<D: Fn(u32) -> u32>(dist: D) -> bool {
    forall|r: u32, d: u32| #[trigger] dist.ensures((r,), d) ==> !dist_is_nan(d)
}

/// The candidate that record `r` makes under `dist`.
pub open spec fn offer<D: Fn(u32) -> u32>(dist: D, r: u32) -> HeapItem {
    HeapItem { index: r, dist: dist_of(dist, r) }
}

/// The candidates that the records named in `idx[s..e]` make under `dist`.
pub open spec fn range_offers<D: Fn(u32) -> u32>(idx: Seq<u32>, dist: D, s: int, e: int) -> Multiset<HeapItem> {
    Seq::new((e - s) as nat, |j: int| offer(dist, idx[s + j])).to_multiset()
}

/// The pruning bound that `split` gives at every node of the tree rooted at
/// `(start, end, depth)` is sound: at a node split on record `idx[mid]` in
/// component `dim`, when `split` answers `(toward_start, bound)` the search
/// descends first into `[s, mid)` if `toward_start` holds and into
/// `[mid + 1, e)` otherwise, `bound` is a number, not a NaN, and every
/// record of the other side has a distance that is a number no nearer than
/// `bound`.
pub open spec fn prune_sound<D: Fn(u32) -> u32, S: Fn(u32, usize) -> (bool, u32)>(
    idx: Seq<u32>,
    start: int,
    end: int,
    depth: int,
    dist: D,
    split: S,
) -> bool {
    forall|s: int, e: int, d: int, g: bool, p: u32, j: int|
        #![trigger in_subtree(s, e, d, start, end, depth), split.ensures((idx[split_mid(s, e)], (d % (VECTOR_DIM as int)) as usize), (g, p)), idx[j]]
        in_subtree(s, e, d, start, end, depth) && e - s > LEAF_SIZE && split.ensures(
            (idx[split_mid(s, e)], (d % (VECTOR_DIM as int)) as usize),
            (g, p),
        ) && (if g {
            split_mid(s, e) < j < e
        } else {
            s <= j < split_mid(s, e)
        }) ==> no_nearer(dist_of(dist, idx[j]), p)
}

/// Whether `m` is a candidate that a record named in `idx[s..e]` can make:
/// its index is that record and `dist` can give it its distance key.
pub open spec fn from_range<D: Fn(u32) -> u32>(idx: Seq<u32>, dist: D, s: int, e: int, m: HeapItem) -> bool {
    exists|j: int| s <= j < e && #[trigger] idx[j] == m.index && dist.ensures((m.index,), m.dist)
}

/// One when `m` is a candidate of the range, zero otherwise.
pub open spec fn from_range_count<D: Fn(u32) -> u32>(idx: Seq<u32>, dist: D, s: int, e: int, m: HeapItem) -> int {
    if from_range(idx, dist, s, e, m) {
        1
    } else {
        0
    }
}

/// The size of a range, or zero for an empty or reversed one.
pub open spec fn range_len(start: int, end: int) -> int {
    if start < end {
        end - start
    } else {
        0
    }
}

/// A record that the leaf search offers at position `i` adds one candidate
/// of the range that ends after it.
proof fn lemma_from_range_extend<D: Fn(u32) -> u32>(idx: Seq<u32>, dist: D, s: int, i: int, m: HeapItem, d: u32)
    requires
        idx.no_duplicates(),
        0 <= s <= i < idx.len(),
        dist.ensures((idx[i],), d),
    ensures
        from_range_count(idx, dist, s, i, m) + (if m == (HeapItem { index: idx[i], dist: d }) { 1int } else { 0int })
            <= from_range_count(idx, dist, s, i + 1, m),
{
    if from_range(idx, dist, s, i, m) {
        let j = choose|j: int| s <= j < i && #[trigger] idx[j] == m.index && dist.ensures((m.index,), m.dist);
        assert(idx[j] == m.index);
        if m == (HeapItem { index: idx[i], dist: d }) {
            assert(idx[j] == idx[i]);
        }
    }
    if m == (HeapItem { index: idx[i], dist: d }) {
        assert(idx[i] == m.index);
    }
}

/// The candidates of a range's middle and of its two halves are candidates
/// of the range, each at most once.
proof fn lemma_from_range_parts<D: Fn(u32) -> u32>(idx: Seq<u32>, dist: D, s: int, mid: int, e: int, m: HeapItem, d: u32)
    requires
        idx.no_duplicates(),
        0 <= s <= mid < e <= idx.len(),
        dist.ensures((idx[mid],), d),
    ensures
        (if m == (HeapItem { index: idx[mid], dist: d }) { 1int } else { 0int }) + from_range_count(idx, dist, s, mid, m)
            + from_range_count(idx, dist, mid + 1, e, m) <= from_range_count(idx, dist, s, e, m),
{
    let at_mid = m == (HeapItem { index: idx[mid], dist: d });
    if at_mid {
        assert(idx[mid] == m.index);
    }
    if from_range(idx, dist, s, mid, m) {
        let j = choose|j: int| s <= j < mid && #[trigger] idx[j] == m.index && dist.ensures((m.index,), m.dist);
        assert(idx[j] == m.index);
        if at_mid {
            assert(idx[j] == idx[mid]);
        }
        if from_range(idx, dist, mid + 1, e, m) {
            let j2 = choose|j2: int| mid + 1 <= j2 < e && #[trigger] idx[j2] == m.index && dist.ensures((m.index,), m.dist);
            assert(idx[j] == idx[j2]);
        }
    }
    if from_range(idx, dist, mid + 1, e, m) {
        let j = choose|j: int| mid + 1 <= j < e && #[trigger] idx[j] == m.index && dist.ensures((m.index,), m.dist);
        assert(idx[j] == m.index);
        if at_mid {
            assert(idx[j] == idx[mid]);
        }
    }
}

/// A rearrangement of `0, 1, ..., n - 1` names no record twice.
proof fn lemma_indices_distinct(idx: Seq<u32>, n: int)
    requires
        idx.len() == n,
        0 <= n <= u32::MAX,
        permuted_within(all_indices(n), idx, 0, n),
    ensures
        idx.no_duplicates(),
{
    let all = all_indices(n);
    assert(all.no_duplicates()) by {
        assert forall|i: int, j: int| 0 <= i < all.len() && 0 <= j < all.len() && i != j implies all[i] != all[j] by {
            assert(all[i] as int == i);
            assert(all[j] as int == j);
        }
    }
    all.lemma_multiset_has_no_duplicates();
    assert(all.subrange(0, n) =~= all);
    assert(idx.subrange(0, n) =~= idx);
    idx.lemma_multiset_has_no_duplicates_conv();
}

/// The soundness of the pruning bounds below a node carries to its children.
proof fn lemma_prune_sound_child<D: Fn(u32) -> u32, S: Fn(u32, usize) -> (bool, u32)>(
    idx: Seq<u32>,
    start: int,
    end: int,
    depth: int,
    dist: D,
    split: S,
)
    requires
        prune_sound(idx, start, end, depth, dist, split),
        end - start > LEAF_SIZE,
    ensures
        prune_sound(idx, start, split_mid(start, end), depth + 1, dist, split),
        prune_sound(idx, split_mid(start, end) + 1, end, depth + 1, dist, split),
{
    let mid = split_mid(start, end);
    assert forall|s: int, e: int, d: int, g: bool, p: u32, j: int|
        #![trigger in_subtree(s, e, d, start, mid, depth + 1), split.ensures((idx[split_mid(s, e)], (d % (VECTOR_DIM as int)) as usize), (g, p)), idx[j]]
        in_subtree(s, e, d, start, mid, depth + 1) && e - s > LEAF_SIZE && split.ensures(
            (idx[split_mid(s, e)], (d % (VECTOR_DIM as int)) as usize),
            (g, p),
        ) && (if g {
            split_mid(s, e) < j < e
        } else {
            s <= j < split_mid(s, e)
        }) implies no_nearer(dist_of(dist, idx[j]), p) by {
        assert(in_subtree(s, e, d, start, end, depth));
    }
    assert forall|s: int, e: int, d: int, g: bool, p: u32, j: int|
        #![trigger in_subtree(s, e, d, mid + 1, end, depth + 1), split.ensures((idx[split_mid(s, e)], (d % (VECTOR_DIM as int)) as usize), (g, p)), idx[j]]
        in_subtree(s, e, d, mid + 1, end, depth + 1) && e - s > LEAF_SIZE && split.ensures(
            (idx[split_mid(s, e)], (d % (VECTOR_DIM as int)) as usize),
            (g, p),
        ) && (if g {
            split_mid(s, e) < j < e
        } else {
            s <= j < split_mid(s, e)
        }) implies no_nearer(dist_of(dist, idx[j]), p) by {
        assert(in_subtree(s, e, d, start, end, depth));
    }
}

/// `n`, capped at `K`.
pub open spec fn at_most_k(n: int) -> int {
    if n < K {
        n
    } else {
        K as int
    }
}

/// How many of the candidates in `h` are records labelled fraud.
pub open spec fn fraud_count(bytes: Seq<u8>, h: Seq<HeapItem>) -> nat
    decreases h.len(),
{
    if h.len() == 0 {
        0
    } else {
        fraud_count(bytes, h.drop_last()) + if record_label(bytes, h.last().index as int) == Label::Fraud {
            1nat
        } else {
            0nat
        }
    }
}

/// The candidates of a range are those of its two halves and its middle.
proof fn lemma_range_offers_split<D: Fn(u32) -> u32>(idx: Seq<u32>, dist: D, s: int, m: int, e: int)
    requires
        0 <= s <= m < e <= idx.len(),
    ensures
        range_offers(idx, dist, s, e) =~= range_offers(idx, dist, s, m).insert(offer(dist, idx[m])).add(
            range_offers(idx, dist, m + 1, e),
        ),
{
    broadcast use vstd::multiset::group_multiset_axioms;

    let all = Seq::new((e - s) as nat, |j: int| offer(dist, idx[s + j]));
    let left = Seq::new((m - s) as nat, |j: int| offer(dist, idx[s + j]));
    let right = Seq::new((e - m - 1) as nat, |j: int| offer(dist, idx[m + 1 + j]));
    assert(all =~= left.push(offer(dist, idx[m])) + right);
    vstd::seq_lib::lemma_multiset_commutative(left.push(offer(dist, idx[m])), right);
    left.to_multiset_ensures();
}

/// The candidates of a range grow by one at its end.
proof fn lemma_range_offers_push<D: Fn(u32) -> u32>(idx: Seq<u32>, dist: D, s: int, e: int)
    requires
        0 <= s <= e < idx.len(),
    ensures
        range_offers(idx, dist, s, e + 1) =~= range_offers(idx, dist, s, e).insert(offer(dist, idx[e])),
{
    let a = Seq::new((e - s) as nat, |j: int| offer(dist, idx[s + j]));
    let b = Seq::new((e + 1 - s) as nat, |j: int| offer(dist, idx[s + j]));
    assert(b =~= a.push(offer(dist, idx[e])));
    a.to_multiset_ensures();
}

/// The candidates of an empty range.
proof fn lemma_range_offers_empty<D: Fn(u32) -> u32>(idx: Seq<u32>, dist: D, s: int)
    ensures
        range_offers(idx, dist, s, s) =~= Multiset::<HeapItem>::empty(),
{
    let a = Seq::new(0nat, |j: int| offer(dist, idx[s + j]));
    assert(a =~= Seq::<HeapItem>::empty());
    a.to_multiset_ensures();
    vstd::multiset::lemma_multiset_empty_len(a.to_multiset());
}

/// Every candidate of a range comes from a position of the range.
proof fn lemma_range_offers_member<D: Fn(u32) -> u32>(idx: Seq<u32>, dist: D, s: int, e: int, x: HeapItem)
    requires
        0 <= s <= e <= idx.len(),
        range_offers(idx, dist, s, e).contains(x),
    ensures
        exists|j: int| s <= j < e && x == offer(dist, #[trigger] idx[j]),
{
    let a = Seq::new((e - s) as nat, |j: int| offer(dist, idx[s + j]));
    a.to_multiset_ensures();
    assert(a.contains(x));
    let j = choose|j: int| 0 <= j < a.len() && a[j] == x;
    assert(x == offer(dist, idx[s + j]));
}

/// The k-d tree: the reference vectors and the order of their indices.
pub struct KdTree {
    repository: FraudRepository,
    indices: Vec<u32>,
}

impl KdTree {
    #[verifier::type_invariant]
    spec fn inv(self) -> bool {
        &&& (self.repository.complete() || self.repository.spec_len() <= LEAF_SIZE)
        &&& self.indices@.len() == self.repository.spec_len()
        &&& permuted_within(all_indices(self.repository.spec_len()), self.indices@, 0, self.repository.spec_len())
        &&& (self.repository.complete() ==> all_present(&self.repository, self.indices@, 0, self.indices@.len() as int))
        &&& (nan_free_records(&self.repository) ==> kd_ordered(&self.repository, self.indices@, 0, self.indices@.len() as int, 0))
    }

    /// The reference vectors of the tree.
    pub closed spec fn spec_repository(&self) -> &FraudRepository {
        &self.repository
    }

    /// The record indices in tree order.
    pub closed spec fn spec_indices(&self) -> Seq<u32> {
        self.indices@
    }

    /// Builds the tree over every record that the header announces: each
    /// range of more than `LEAF_SIZE` records puts at its middle the median
    /// of its records by the component of its depth, then both halves are
    /// built one level deeper. A tree of at most `LEAF_SIZE` records is a
    /// single leaf, built without reading any record; a larger one reads
    /// them all, so they must all lie in the file. Components are compared
    /// as IEEE 754 does; the split condition is promised for files without
    /// NaN components.
    pub fn new(repository: FraudRepository) -> (tree: Self)
        requires
            repository.spec_len() <= LEAF_SIZE || repository.complete(),
        ensures
            tree.spec_repository()@ == repository@,
            repository.spec_len() <= LEAF_SIZE ==> tree.spec_indices() == all_indices(repository.spec_len()),
            tree.spec_indices().len() == repository.spec_len(),
            permuted_within(all_indices(repository.spec_len()), tree.spec_indices(), 0, repository.spec_len()),
            nan_free_records(&repository) ==> kd_ordered(tree.spec_repository(), tree.spec_indices(), 0, repository.spec_len(), 0),
    {
        let count = repository.len();
        let mut indices: Vec<u32> = Vec::new();
        let mut n: usize = 0;
        while n < count
            invariant
                n <= count,
                count == repository.spec_len(),
                indices@ == all_indices(n as int),
            decreases count - n,
        {
            proof {
                crate::repository::lemma_count_fits(&repository);
            }
            indices.push(n as u32);
            n = n + 1;
            assert(indices@ =~= all_indices(n as int));
        }
        let ghost initial = indices@;
        proof {
            if repository.complete() {
                assert forall|i: int| 0 <= i < count implies has_record(repository@, #[trigger] indices@[i] as int) by {
                    crate::repository::lemma_count_fits(&repository);
                    assert(indices@[i] as int == i);
                    assert(record_offset(i) + RECORD_SIZE <= record_offset(count as int));
                }
            }
            assert(indices@.subrange(0, count as int) =~= initial.subrange(0, count as int));
        }

        let mut stack: Vec<(usize, usize, usize)> = Vec::with_capacity(64);
        stack.push((0, count, 0));
        proof {
            assert(node_is(stack@[0], 0, count as int, 0));
            assert(stack@.drop_last() =~= Seq::<(usize, usize, usize)>::empty());
            assert(stack_weight(Seq::<(usize, usize, usize)>::empty()) == 0);
        }

        while stack.len() > 0
            invariant
                count == repository.spec_len(),
                count <= LEAF_SIZE || repository.complete(),
                indices@.len() == count,
                permuted_within(initial, indices@, 0, count as int),
                initial == all_indices(count as int),
                count <= LEAF_SIZE ==> indices@ == initial,
                repository.complete() ==> all_present(&repository, indices@, 0, count as int),
                nan_free_records(&repository) ==> kd_ok(&repository, indices@, 0, count as int, 0, stack@),
                forall|i: int| 0 <= i < stack@.len() ==>
                    in_subtree(#[trigger] stack@[i].0 as int, stack@[i].1 as int, stack@[i].2 as int, 0, count as int, 0),
                forall|i: int| 0 <= i < stack@.len() ==>
                    #[trigger] stack@[i].0 <= stack@[i].1 <= count && stack@[i].2 + (stack@[i].1 - stack@[i].0) <= count,
                forall|i: int, j: int| 0 <= i < stack@.len() && 0 <= j < stack@.len() && i != j ==>
                    apart(#[trigger] stack@[i], #[trigger] stack@[j]),
                stack_weight(stack@) >= 0,
            decreases stack_weight(stack@),
        {
            let ghost stack1 = stack@;
            let (start, end, depth) = stack.pop().unwrap();
            let ghost last = stack1.len() - 1;
            assert(stack1[last] == (start, end, depth));
            assert(node_is(stack1[last], start as int, end as int, depth as int));
            assert(stack@ =~= stack1.drop_last());
            proof {
                lemma_stack_weight_nonneg(stack@);
            }

            if end - start <= LEAF_SIZE {
                proof {
                    assert forall|a: int, b: int, c: int|
                        #[trigger] on_stack(stack1, a, b, c) && !(a == start && b == end && c == depth)
                        implies on_stack(stack@, a, b, c) by {
                        let i = choose|i: int| 0 <= i < stack1.len() && #[trigger] node_is(stack1[i], a, b, c);
                        assert(i != last);
                        assert(node_is(stack@[i], a, b, c));
                    }
                    if nan_free_records(&repository) {
                        lemma_kd_restack(&repository, indices@, 0, count as int, 0, stack1, stack@, start as int, end as int, depth as int);
                    }
                }
                continue;
            }

            let dim = depth % VECTOR_DIM;
            let mid = start + (end - start) / 2;
            assert(mid == split_mid(start as int, end as int));
            assert(repository.complete());
            let ghost before = indices@;
            proof {
                lemma_subtree_bounds(start as int, end as int, depth as int, 0, count as int, 0);
                if nan_free_records(&repository) {
                    let p = |x: u32| x < count;
                    assert forall|i: int| 0 <= i < initial.subrange(0, count as int).len() implies #[trigger] p(
                        initial.subrange(0, count as int)[i],
                    ) by {
                        crate::repository::lemma_count_fits(&repository);
                    }
                    crate::perm::lemma_multiset_forall(initial.subrange(0, count as int), indices@.subrange(0, count as int), p);
                    assert forall|i: int| start <= i < end implies !f64_is_nan(
                        #[trigger] crate::select::bits_at(&repository, indices@, i, dim as int),
                    ) by {
                        assert(indices@.subrange(0, count as int)[i] == indices@[i]);
                        assert(p(indices@[i]));
                        assert(!f64_is_nan(component_bits(repository@, indices@[i] as int, dim as int)));
                    }
                    assert(nan_free(&repository, indices@, start as int, end as int, dim as int));
                }
            }
            nth_element(&repository, &mut indices, start, end, mid, dim);
            proof {
                if nan_free_records(&repository) {
                    lemma_kd_frame(&repository, before, indices@, 0, count as int, 0, stack1, start as int, end as int, depth as int);
                }
                lemma_permuted_widen(before, indices@, start as int, end as int, 0, count as int);
                assert forall|i: int| 0 <= i < count implies has_record(repository@, #[trigger] indices@[i] as int) by {
                    if !(start <= i < end) {
                        assert(indices@[i] == before[i]);
                    }
                }
            }

            let ghost popped = stack@;
            stack.push((start, mid, depth + 1));
            let ghost pushed_one = stack@;
            stack.push((mid + 1, end, depth + 1));
            proof {
                let stack2 = stack@;
                assert(stack2.drop_last() =~= pushed_one);
                assert(pushed_one.drop_last() =~= popped);
                assert(stack_weight(pushed_one) == stack_weight(popped) + 2 * (mid - start) + 1);
                assert(stack_weight(stack2) == stack_weight(pushed_one) + 2 * (end - mid - 1) + 1);
                assert(stack_weight(stack1) == stack_weight(popped) + 2 * (end - start) + 1);
                assert(node_is(stack2[last], start as int, mid as int, depth + 1));
                assert(node_is(stack2[last + 1], mid + 1, end as int, depth + 1));
                assert(!on_stack(stack2, start as int, end as int, depth as int)) by {
                    if on_stack(stack2, start as int, end as int, depth as int) {
                        let i = choose|i: int| 0 <= i < stack2.len() && #[trigger] node_is(stack2[i], start as int, end as int, depth as int);
                        assert(i < last);
                        assert(stack1[i] == stack2[i]);
                    }
                }
                assert(on_stack(stack2, start as int, mid as int, depth + 1));
                assert(on_stack(stack2, mid + 1, end as int, depth + 1));
                assert(kd_ok(&repository, indices@, start as int, mid as int, depth + 1, stack2));
                assert(kd_ok(&repository, indices@, mid + 1, end as int, depth + 1, stack2));
                if nan_free_records(&repository) {
                    assert(kd_ok(&repository, indices@, start as int, end as int, depth as int, stack2));
                }
                assert forall|a: int, b: int, c: int|
                    #[trigger] on_stack(stack1, a, b, c) && !(a == start && b == end && c == depth)
                    implies on_stack(stack2, a, b, c) by {
                    let i = choose|i: int| 0 <= i < stack1.len() && #[trigger] node_is(stack1[i], a, b, c);
                    assert(i != last);
                    assert(stack2[i] == stack1[i]);
                    assert(node_is(stack2[i], a, b, c));
                }
                if nan_free_records(&repository) {
                    lemma_kd_restack(&repository, indices@, 0, count as int, 0, stack1, stack2, start as int, end as int, depth as int);
                }
                lemma_subtree_child(start as int, end as int, depth as int, 0, count as int, 0);
                assert forall|i: int, j: int| 0 <= i < stack2.len() && 0 <= j < stack2.len() && i != j implies
                    apart(#[trigger] stack2[i], #[trigger] stack2[j]) by {
                    if i < last {
                        assert(stack1[i] == stack2[i]);
                        assert(apart(stack1[i], stack1[last]));
                    }
                    if j < last {
                        assert(stack1[j] == stack2[j]);
                        assert(apart(stack1[j], stack1[last]));
                    }
                    if i < last && j < last {
                        assert(apart(stack1[i], stack1[j]));
                    }
                }
            }
        }
        proof {
            assert(stack@ =~= Seq::<(usize, usize, usize)>::empty());
        }
        KdTree { repository, indices }
    }

    /// The reference vectors of the tree.
    pub fn repository(&self) -> (repo: &FraudRepository)
        ensures
            repo@ == self.spec_repository()@,
    {
        &self.repository
    }

    /// The record indices in tree order.
    pub fn indices(&self) -> (idx: &Vec<u32>)
        ensures
            idx@ == self.spec_indices(),
    {
        &self.indices
    }

    /// Searches the subtree rooted at `[start, end)` at depth `depth`,
    /// offering its records to `heap`: an empty or reversed range offers
    /// nothing; a leaf offers all its records in order; a larger range
    /// offers its middle record, searches the side that `split` names first,
    /// and searches the other side only while the heap has room or the
    /// pruning bound is below the farthest kept distance. The heap ends
    /// holding at most `K`, each kept candidate coming from the heap or from
    /// one position of the range; and when `dist` gives every record one
    /// distance that is a number and the pruning bounds are sound, a heap
    /// that held the nearest of the candidates `offered` so far holds the
    /// nearest of those and of every record of the range, just as if each
    /// had been offered in turn.
    pub fn search<D: Fn(u32) -> u32, S: Fn(u32, usize) -> (bool, u32)>(
        &self,
        dist: &D,
        split: &S,
        start: usize,
        end: usize,
        depth: usize,
        heap: &mut BoundedMaxHeap,
        Ghost(offered): Ghost<Multiset<HeapItem>>,
    )
        requires
            old(heap).wf(),
            start >= end || (end <= self.spec_indices().len() && depth + (end - start) <= usize::MAX),
            forall|r: u32| #[trigger] dist.requires((r,)),
            forall|r: u32, dim: usize| dim < VECTOR_DIM ==> #[trigger] split.requires((r, dim)),
        ensures
            start >= end ==> *final(heap) == *old(heap),
            final(heap).wf(),
            final(heap).spec_len() == at_most_k(old(heap).spec_len() + range_len(start as int, end as int)),
            forall|m: HeapItem| #[trigger] final(heap).contents().count(m) <= old(heap).contents().count(m)
                + from_range_count(self.spec_indices(), *dist, start as int, end as int, m),
            start <= end && deterministic(*dist) && nan_free_dist(*dist) && prune_sound(
                self.spec_indices(),
                start as int,
                end as int,
                depth as int,
                *dist,
                *split,
            ) && k_nearest(old(heap).contents(), offered) ==> k_nearest(
                final(heap).contents(),
                offered.add(range_offers(self.spec_indices(), *dist, start as int, end as int)),
            ),
        decreases end - start,
    {
        proof {
            use_type_invariant(self);
            heap.lemma_len();
        }
        let ghost idx = self.indices@;
        let ghost n = idx.len() as int;
        let ghost hyp = deterministic(*dist) && nan_free_dist(*dist) && prune_sound(
            idx,
            start as int,
            end as int,
            depth as int,
            *dist,
            *split,
        );
        if start >= end {
            proof {
                if start == end {
                    lemma_range_offers_empty(idx, *dist, start as int);
                    assert(offered.add(range_offers(idx, *dist, start as int, end as int)) =~= offered);
                }
            }
            return;
        }
        proof {
            lemma_count_fits(&self.repository);
            lemma_indices_distinct(idx, n);
        }

        if end - start <= LEAF_SIZE {
            let mut i = start;
            proof {
                lemma_range_offers_empty(idx, *dist, start as int);
                assert(offered.add(range_offers(idx, *dist, start as int, start as int)) =~= offered);
            }
            while i < end
                invariant
                    start <= i <= end <= idx.len(),
                    idx == self.indices@,
                    n == idx.len(),
                    idx.no_duplicates(),
                    heap.wf(),
                    forall|r: u32| #[trigger] dist.requires((r,)),
                    heap.spec_len() == at_most_k(old(heap).spec_len() + (i - start)),
                    forall|m: HeapItem| #[trigger] heap.contents().count(m) <= old(heap).contents().count(m)
                        + from_range_count(idx, *dist, start as int, i as int, m),
                    hyp == (deterministic(*dist) && nan_free_dist(*dist) && prune_sound(
                        idx,
                        start as int,
                        end as int,
                        depth as int,
                        *dist,
                        *split,
                    )),
                    hyp && k_nearest(old(heap).contents(), offered) ==> k_nearest(
                        heap.contents(),
                        offered.add(range_offers(idx, *dist, start as int, i as int)),
                    ),
                decreases end - i,
            {
                let r = self.indices[i];
                let d = dist(r);
                let ghost before = heap.contents();
                proof {
                    heap.lemma_len();
                }
                heap.push(r, d);
                proof {
                    let item = HeapItem { index: r, dist: d };
                    assert forall|m: HeapItem| #[trigger] heap.contents().count(m) <= old(heap).contents().count(m)
                        + from_range_count(idx, *dist, start as int, i + 1, m) by {
                        assert(before.count(m) <= old(heap).contents().count(m) + from_range_count(idx, *dist, start as int, i as int, m));
                        lemma_from_range_extend(idx, *dist, start as int, i as int, m, d);
                    }
                    lemma_range_offers_push(idx, *dist, start as int, i as int);
                    if hyp && k_nearest(old(heap).contents(), offered) {
                        assert(d == dist_of(*dist, r));
                        assert(!dist_is_nan(d));
                        let o = offered.add(range_offers(idx, *dist, start as int, i as int));
                        assert(numeric_dists(before)) by {
                            assert forall|m: HeapItem| #[trigger] before.contains(m) implies !dist_is_nan(m.dist) by {
                                assert(before.count(m) <= o.count(m));
                                assert(o.contains(m));
                            }
                        }
                        lemma_k_nearest_offer(before, o, item, heap.contents());
                        assert(o.insert(offer(*dist, idx[i as int])) =~= offered.add(
                            range_offers(idx, *dist, start as int, i + 1),
                        ));
                    }
                }
                i = i + 1;
            }
            return;
        }

        let dim = depth % VECTOR_DIM;
        let mid = start + (end - start) / 2;
        assert(mid == split_mid(start as int, end as int));
        let mid_idx = self.indices[mid];

        let d = dist(mid_idx);
        let ghost h0 = heap.contents();
        let ghost mid_item = HeapItem { index: mid_idx, dist: d };
        proof {
            heap.lemma_len();
        }
        heap.push(mid_idx, d);
        let ghost h1 = heap.contents();
        let ghost offered1 = offered.insert(offer(*dist, mid_idx));
        proof {
            if hyp && k_nearest(old(heap).contents(), offered) {
                assert(d == dist_of(*dist, mid_idx));
                assert(!dist_is_nan(d));
                assert(numeric_dists(h0)) by {
                    assert forall|m: HeapItem| #[trigger] h0.contains(m) implies !dist_is_nan(m.dist) by {
                        assert(h0.count(m) <= offered.count(m));
                        assert(offered.contains(m));
                    }
                }
                lemma_k_nearest_offer(h0, offered, mid_item, heap.contents());
            }
        }

        let (toward_start, bound) = split(mid_idx, dim);
        let (first_start, first_end, second_start, second_end) = if toward_start {
            (start, mid, mid + 1, end)
        } else {
            (mid + 1, end, start, mid)
        };

        proof {
            if hyp {
                lemma_prune_sound_child(idx, start as int, end as int, depth as int, *dist, *split);
            }
        }
        self.search(dist, split, first_start, first_end, depth + 1, heap, Ghost(offered1));
        let ghost h2 = heap.contents();
        let ghost offered2 = offered1.add(range_offers(idx, *dist, first_start as int, first_end as int));

        let full = heap.is_full();
        assert(heap.spec_len() == at_most_k(old(heap).spec_len() + 1 + (first_end - first_start)));
        let searched_second = !full || dist_less(bound, heap.max_dist());
        if searched_second {
            self.search(dist, split, second_start, second_end, depth + 1, heap, Ghost(offered2));
        } else {
            proof {
                if hyp && k_nearest(old(heap).contents(), offered) {
                    heap.lemma_len();
                    let second = range_offers(idx, *dist, second_start as int, second_end as int);
                    let h = heap.contents();
                    assert(numeric_dists(h)) by {
                        assert forall|m: HeapItem| #[trigger] h.contains(m) implies !dist_is_nan(m.dist) by {
                            assert(h.count(m) <= offered2.count(m));
                            assert(offered2.contains(m));
                        }
                    }
                    let mx = heap.spec_items()[0].dist;
                    assert(!dist_is_nan(mx)) by {
                        heap.lemma_member(0);
                    }
                    assert forall|x: HeapItem| #[trigger] second.contains(x) implies !dist_is_nan(x.dist) && dist_rank(x.dist)
                        >= dist_rank(max_dist_of(h)) by {
                        lemma_range_offers_member(idx, *dist, second_start as int, second_end as int, x);
                        let j = choose|j: int| second_start <= j < second_end && x == offer(*dist, #[trigger] idx[j]);
                        assert(in_subtree(start as int, end as int, depth as int, start as int, end as int, depth as int));
                        assert(split.ensures((idx[split_mid(start as int, end as int)], dim), (toward_start, bound)));
                        assert(dim == (depth as int % (VECTOR_DIM as int)) as usize);
                        assert(no_nearer(dist_of(*dist, idx[j]), bound));
                    }
                    lemma_k_nearest_skip(heap.contents(), offered2, second);
                }
            }
        }
        proof {
            assert forall|m: HeapItem| #[trigger] heap.contents().count(m) <= old(heap).contents().count(m)
                + from_range_count(idx, *dist, start as int, end as int, m) by {
                assert(h1.count(m) <= h0.count(m) + if m == mid_item { 1int } else { 0int });
                assert(h2.count(m) <= h1.count(m) + from_range_count(idx, *dist, first_start as int, first_end as int, m));
                assert(heap.contents().count(m) <= h2.count(m) + from_range_count(idx, *dist, second_start as int, second_end as int, m));
                lemma_from_range_parts(idx, *dist, start as int, mid as int, end as int, m, d);
            }
            if hyp && k_nearest(old(heap).contents(), offered) {
                lemma_range_offers_split(idx, *dist, start as int, mid as int, end as int);
                assert(offered2.add(range_offers(idx, *dist, second_start as int, second_end as int)) =~= offered.add(
                    range_offers(idx, *dist, start as int, end as int),
                ));
            }
        }
    }

    /// Finds the `K` records nearest to a query, as `dist` measures them,
    /// by a search of the tree pruned with the bounds that `split` gives,
    /// and counts how many of them are labelled fraud: the result is that
    /// count and the number of neighbours found. The neighbours are records
    /// of the tree, each at most once; they are the `K` nearest whenever
    /// `dist` gives every record one distance that is a number and the
    /// pruning bounds are sound.
    pub fn knn<D: Fn(u32) -> u32, S: Fn(u32, usize) -> (bool, u32)>(&self, dist: &D, split: &S) -> (votes: (u32, usize))
        requires
            self.spec_repository().complete(),
            forall|r: u32| #[trigger] dist.requires((r,)),
            forall|r: u32, dim: usize| dim < VECTOR_DIM ==> #[trigger] split.requires((r, dim)),
        ensures
            votes.0 <= votes.1,
            votes.1 == at_most_k(self.spec_indices().len() as int),
            exists|h: Seq<HeapItem>|
                {
                    &&& h.len() == votes.1
                    &&& votes.0 == fraud_count(self.spec_repository()@, h)
                    &&& forall|i: int| 0 <= i < h.len() ==> has_record(self.spec_repository()@, #[trigger] h[i].index as int)
                    &&& forall|m: HeapItem| #[trigger] h.to_multiset().count(m) <= from_range_count(
                        self.spec_indices(),
                        *dist,
                        0,
                        self.spec_indices().len() as int,
                        m,
                    )
                    &&& (deterministic(*dist) && nan_free_dist(*dist) && prune_sound(
                        self.spec_indices(),
                        0,
                        self.spec_indices().len() as int,
                        0,
                        *dist,
                        *split,
                    ) ==> k_nearest(
                        h.to_multiset(),
                        range_offers(self.spec_indices(), *dist, 0, self.spec_indices().len() as int),
                    ))
                },
    {
        proof {
            use_type_invariant(self);
            lemma_k_nearest_empty();
        }
        let mut heap = BoundedMaxHeap::new();
        let ghost empty = heap.contents();
        self.search(dist, split, 0, self.indices.len(), 0, &mut heap, Ghost(empty));
        proof {
            assert forall|m: HeapItem| #[trigger] heap.contents().contains(m) implies has_record(self.repository@, m.index as int) by {
                assert(empty.count(m) == 0);
                assert(from_range(self.indices@, *dist, 0, self.indices@.len() as int, m));
                let j = choose|j: int| 0 <= j < self.indices@.len() && #[trigger] self.indices@[j] == m.index && dist.ensures((m.index,), m.dist);
                assert(has_record(self.repository@, self.indices@[j] as int));
            }
            assert(empty.add(range_offers(self.indices@, *dist, 0, self.indices@.len() as int)) =~= range_offers(
                self.indices@,
                *dist,
                0,
                self.indices@.len() as int,
            ));
        }

        let mut fraud: u32 = 0;
        let n = heap.len();
        let mut i: usize = 0;
        while i < n
            invariant
                i <= n,
                n == heap.spec_len(),
                n <= K,
                heap.wf(),
                fraud <= i,
                fraud == fraud_count(self.repository@, heap.spec_items().take(i as int)),
                self.repository.complete(),
                all_present(&self.repository, self.indices@, 0, self.indices@.len() as int),
                forall|m: HeapItem| #[trigger] heap.contents().contains(m) ==> has_record(self.repository@, m.index as int),
            decreases n - i,
        {
            let item = heap.get(i);
            proof {
                heap.lemma_member(i as int);
            }
            assert(heap.spec_items().take(i + 1).drop_last() =~= heap.spec_items().take(i as int));
            if self.repository.get_label(item.index as usize) == Label::Fraud {
                fraud = fraud + 1;
            }
            i = i + 1;
        }
        proof {
            assert(heap.spec_items().take(n as int) =~= heap.spec_items());
            heap.lemma_len();
            let h = heap.spec_items();
            assert(h.len() == n);
            assert(fraud == fraud_count(self.spec_repository()@, h));
            assert(self.spec_indices() == self.indices@);
            assert forall|m: HeapItem| #[trigger] h.to_multiset().count(m) <= from_range_count(
                self.spec_indices(),
                *dist,
                0,
                self.spec_indices().len() as int,
                m,
            ) by {
                assert(empty.count(m) == 0);
            }
            assert forall|i: int| 0 <= i < h.len() implies has_record(self.spec_repository()@, #[trigger] h[i].index as int) by {
                heap.lemma_member(i);
            }
            if deterministic(*dist) && nan_free_dist(*dist) && prune_sound(
                self.indices@,
                0,
                self.indices@.len() as int,
                0,
                *dist,
                *split,
            ) {
                assert(k_nearest(h.to_multiset(), range_offers(self.indices@, *dist, 0, self.indices@.len() as int)));
            }
        }
        (fraud, n)
    }
}

} // verus!
