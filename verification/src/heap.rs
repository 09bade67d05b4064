//! A max-heap that keeps at most `K` candidates: the `K` nearest records
//! met so far, with the farthest of them at the root.
use vstd::prelude::*;
use vstd::multiset::Multiset;
use crate::perm::{seq_swap, lemma_swap_multiset};

verus! {

/// The number of neighbours that a search keeps.
pub const K: usize = 7;

/// The distance key that an empty heap reports as its largest: the bit
/// pattern of the greatest finite `f32`.
pub const MAX_DIST: u32 = 0x7F7F_FFFF;

/// The sign bit of an `f32` bit pattern.
pub const DIST_SIGN_BIT: u32 = 0x8000_0000;

/// The bit pattern of positive infinity in `f32`; magnitudes above it are
/// NaNs.
pub const DIST_INFINITY_BITS: u32 = 0x7F80_0000;

/// Whether a distance key, the bit pattern of an `f32`, encodes a NaN.
pub open spec fn dist_is_nan(d: u32) -> bool {
    if d >= DIST_SIGN_BIT {
        d - DIST_SIGN_BIT > DIST_INFINITY_BITS
    } else {
        d > DIST_INFINITY_BITS
    }
}

/// The numeric rank of a distance key that is not a NaN: its magnitude,
/// negated when the sign bit is set, so that both zeros rank 0 and ranks
/// order as the `f32` values do (IEEE 754, 3.4).
pub open spec fn dist_rank(d: u32) -> int {
    if d >= DIST_SIGN_BIT {
        -(d - DIST_SIGN_BIT)
    } else {
        d as int
    }
}

/// IEEE 754 `<` of two `f32` values given by their bit patterns: false when
/// either is a NaN.
pub open spec fn dist_lt(a: u32, b: u32) -> bool {
    !dist_is_nan(a) && !dist_is_nan(b) && dist_rank(a) < dist_rank(b)
}

/// Distance keys compare as IEEE 754 orders the `f32` values they encode:
/// a pattern is a NaN exactly when its magnitude (the pattern without its
/// sign bit) is above that of infinity, and a NaN is never below or above
/// anything; two non-negative numbers compare as their patterns do as
/// unsigned integers; two negative numbers compare as their magnitudes do,
/// reversed; and a negative number is below a non-negative one, but for
/// negative zero, which equals positive zero.
pub proof fn lemma_dist_lt_is_f32_order(a: u32, b: u32)
    ensures
        dist_is_nan(a) <==> a % 0x8000_0000 > 0x7F80_0000,
        dist_is_nan(a) || dist_is_nan(b) ==> !dist_lt(a, b),
        a <= 0x7F80_0000 && b <= 0x7F80_0000 ==> (dist_lt(a, b) <==> a < b),
        0x8000_0000 <= a <= 0xFF80_0000 && 0x8000_0000 <= b <= 0xFF80_0000 ==> (dist_lt(a, b) <==> b < a),
        0x8000_0000 <= a <= 0xFF80_0000 && b <= 0x7F80_0000 ==> (dist_lt(a, b) <==> !(a == 0x8000_0000
            && b == 0)),
        a <= 0x7F80_0000 && 0x8000_0000 <= b <= 0xFF80_0000 ==> !dist_lt(a, b),
{
}

/// `x` and `bound` are numbers, not NaNs, and `x` is no nearer than `bound`.
pub open spec fn no_nearer(x: u32, bound: u32) -> bool {
    !dist_is_nan(x) && !dist_is_nan(bound) && dist_rank(x) >= dist_rank(bound)
}

/// Compares two distance keys as `f32` values with IEEE 754 `<`.
pub fn dist_less(a: u32, b: u32) -> (lt: bool)
    ensures
        lt == dist_lt(a, b),
{
    let a_nan = if a >= DIST_SIGN_BIT { a - DIST_SIGN_BIT > DIST_INFINITY_BITS } else { a > DIST_INFINITY_BITS };
    let b_nan = if b >= DIST_SIGN_BIT { b - DIST_SIGN_BIT > DIST_INFINITY_BITS } else { b > DIST_INFINITY_BITS };
    let a_rank: i64 = if a >= DIST_SIGN_BIT { -((a - DIST_SIGN_BIT) as i64) } else { a as i64 };
    let b_rank: i64 = if b >= DIST_SIGN_BIT { -((b - DIST_SIGN_BIT) as i64) } else { b as i64 };
    !a_nan && !b_nan && a_rank < b_rank
}

/// No candidate of `h` has a NaN distance.
pub open spec fn numeric_dists(h: Multiset<HeapItem>) -> bool {
    forall|m: HeapItem| #[trigger] h.contains(m) ==> !dist_is_nan(m.dist)
}

/// A candidate: a record index and its distance key, the bit pattern of an
/// `f32` distance. Keys are compared as the `f32` values they encode, so a
/// NaN distance is neither nearer nor farther than any other.
#[derive(Clone, Copy, PartialEq, Eq, Structural)]
pub struct HeapItem {
    pub index: u32,
    pub dist: u32,
}

/// The position of the parent of position `i > 0`.
pub open spec fn parent_of(i: int) -> int {
    (i - 1) / 2
}

/// The max-heap condition on the first `n` items: no item is strictly
/// farther than its parent.
pub open spec fn heap_ordered(s: Seq<HeapItem>, n: int) -> bool {
    forall|i: int| 0 < i < n ==> !dist_lt((#[trigger] s[parent_of(i)]).dist, s[i].dist)
}

/// The max-heap condition everywhere but between `idx` and its parent, with
/// no child of `idx` strictly farther than the parent of `idx`.
pub open spec fn heap_ordered_but_up(s: Seq<HeapItem>, n: int, idx: int) -> bool {
    &&& forall|i: int| 0 < i < n && i != idx ==> !dist_lt((#[trigger] s[parent_of(i)]).dist, s[i].dist)
    &&& forall|i: int|
        0 < i < n && parent_of(i) == idx && idx > 0 ==> !dist_lt(s[parent_of(idx)].dist, (#[trigger] s[i]).dist)
}

/// The max-heap condition everywhere but between `idx` and its children,
/// with no child of `idx` strictly farther than the parent of `idx`.
pub open spec fn heap_ordered_but_down(s: Seq<HeapItem>, n: int, idx: int) -> bool {
    &&& forall|i: int| 0 < i < n && parent_of(i) != idx ==> !dist_lt((#[trigger] s[parent_of(i)]).dist, s[i].dist)
    &&& forall|i: int|
        0 < i < n && parent_of(i) == idx && idx > 0 ==> !dist_lt(s[parent_of(idx)].dist, (#[trigger] s[i]).dist)
}

/// The items after the item at `idx` is sifted up: while it is strictly
/// farther than its parent, the two are exchanged.
pub open spec fn sift_up_spec(s: Seq<HeapItem>, idx: int) -> Seq<HeapItem>
    decreases idx,
{
    if idx > 0 && idx < s.len() && dist_lt(s[parent_of(idx)].dist, s[idx].dist) {
        sift_up_spec(seq_swap(s, idx, parent_of(idx)), parent_of(idx))
    } else {
        s
    }
}

/// The child of `idx` among the first `n` items that sifting down moves
/// up: the left child when it is strictly farther than `idx`, then the
/// right child when it is strictly farther than that; `idx` itself when
/// neither is.
pub open spec fn sift_target(s: Seq<HeapItem>, n: int, idx: int) -> int {
    let left = 2 * idx + 1;
    let right = 2 * idx + 2;
    let l = if left < n && dist_lt(s[idx].dist, s[left].dist) {
        left
    } else {
        idx
    };
    if right < n && dist_lt(s[l].dist, s[right].dist) {
        right
    } else {
        l
    }
}

/// The items after the item at `idx` is sifted down among the first `n`:
/// while a child is its sift target, the two are exchanged.
pub open spec fn sift_down_spec(s: Seq<HeapItem>, n: int, idx: int) -> Seq<HeapItem>
    decreases n - idx,
{
    if 0 <= idx < n && sift_target(s, n, idx) != idx {
        sift_down_spec(seq_swap(s, idx, sift_target(s, n, idx)), n, sift_target(s, n, idx))
    } else {
        s
    }
}

/// The distance key of a farthest candidate of `s`, ranked as the `f32`
/// values compare (meaningful when no distance of `s` is a NaN), or
/// `MAX_DIST` when `s` is empty.
pub open spec fn max_dist_of(s: Multiset<HeapItem>) -> u32 {
    if s.len() == 0 {
        MAX_DIST
    } else {
        choose|d: u32| is_max_dist(s, d)
    }
}

/// `d` is the distance key of an item of `s`, and no item of `s` is farther.
pub open spec fn is_max_dist(s: Multiset<HeapItem>, d: u32) -> bool {
    &&& exists|m: HeapItem| #[trigger] s.contains(m) && m.dist == d
    &&& forall|m: HeapItem| #[trigger] s.contains(m) ==> dist_rank(m.dist) <= dist_rank(d)
}

/// `h` holds the `K` nearest of the `offered` candidates (all of them when
/// fewer were offered), none of which has a NaN distance: it is a part of
/// them of that size, and no offered candidate left out is nearer than a
/// candidate kept.
pub open spec fn k_nearest(h: Multiset<HeapItem>, offered: Multiset<HeapItem>) -> bool {
    &&& numeric_dists(offered)
    &&& forall|v: HeapItem| #[trigger] h.count(v) <= offered.count(v)
    &&& h.len() == if offered.len() < K { offered.len() } else { K as nat }
    &&& forall|a: HeapItem, b: HeapItem|
        #[trigger] offered.count(a) > h.count(a) && #[trigger] h.count(b) > 0 ==> dist_rank(b.dist) <= dist_rank(a.dist)
}

/// What one offer of `x` does to the candidates `h` of a heap, leaving `h2`:
/// while there is room `x` is added; once `K` are held, `x` replaces a
/// farthest candidate when it is strictly nearer, and nothing changes
/// otherwise.
pub open spec fn push_step(h: Multiset<HeapItem>, x: HeapItem, h2: Multiset<HeapItem>) -> bool {
    &&& h.len() < K ==> h2 == h.insert(x)
    &&& h.len() == K && dist_lt(x.dist, max_dist_of(h)) ==> exists|m: HeapItem|
        #[trigger] h.contains(m) && dist_rank(m.dist) == dist_rank(max_dist_of(h)) && h2 == h.remove(m).insert(x)
    &&& h.len() == K && !dist_lt(x.dist, max_dist_of(h)) ==> h2 == h
}

/// Nothing kept of nothing offered.
pub proof fn lemma_k_nearest_empty()
    ensures
        k_nearest(Multiset::empty(), Multiset::empty()),
{
    broadcast use vstd::multiset::group_multiset_axioms;
}

/// Offering one more candidate, whose distance is a number, to a heap that
/// keeps the nearest candidates offered so far keeps the nearest of them all:
/// the heap's `push` adds it while there is room, and otherwise it either
/// replaces a farthest kept candidate, when it is nearer, or is dropped.
pub proof fn lemma_k_nearest_offer(
    h: Multiset<HeapItem>,
    offered: Multiset<HeapItem>,
    x: HeapItem,
    h2: Multiset<HeapItem>,
)
    requires
        k_nearest(h, offered),
        !dist_is_nan(x.dist),
        push_step(h, x, h2),
    ensures
        k_nearest(h2, offered.insert(x)),
{
    broadcast use vstd::multiset::group_multiset_axioms;

    let o2 = offered.insert(x);
    assert forall|m: HeapItem| #[trigger] o2.contains(m) implies !dist_is_nan(m.dist) by {
        if m != x {
            assert(offered.contains(m));
        }
    }
    if h.len() < K {
        lemma_k_nearest_all(h, offered);
        assert(h2 =~= o2);
    } else {
        lemma_max_of_full(h);
        let mx = max_dist_of(h);
        let w = choose|w: HeapItem| #[trigger] h.contains(w) && w.dist == mx;
        assert(h.count(w) <= offered.count(w));
        assert(offered.contains(w));
        assert(!dist_is_nan(mx));
        if dist_lt(x.dist, mx) {
            let m = choose|m: HeapItem|
                #[trigger] h.contains(m) && dist_rank(m.dist) == dist_rank(mx) && h2 == h.remove(m).insert(x);
            assert(m != x);
            assert forall|a: HeapItem, b: HeapItem|
                #[trigger] o2.count(a) > h2.count(a) && #[trigger] h2.count(b) > 0 implies dist_rank(b.dist)
                <= dist_rank(a.dist) by {
                if b != x {
                    assert(h.count(b) > 0);
                    assert(h.contains(b));
                    assert(dist_rank(b.dist) <= dist_rank(mx));
                } else {
                    assert(dist_rank(b.dist) < dist_rank(mx));
                }
                if a == m {
                } else if a == x {
                    assert(offered.count(x) > h.count(x));
                    assert(h.count(m) > 0);
                    assert(dist_rank(m.dist) <= dist_rank(x.dist));
                    assert(false);
                } else {
                    assert(offered.count(a) > h.count(a));
                    assert(h.count(m) > 0);
                    assert(dist_rank(m.dist) <= dist_rank(a.dist));
                }
            }
            assert forall|v: HeapItem| #[trigger] h2.count(v) <= o2.count(v) by {
                assert(h.count(v) <= offered.count(v));
            }
        } else {
            assert forall|a: HeapItem, b: HeapItem|
                #[trigger] o2.count(a) > h2.count(a) && #[trigger] h2.count(b) > 0 implies dist_rank(b.dist)
                <= dist_rank(a.dist) by {
                assert(h.contains(b));
                assert(dist_rank(b.dist) <= dist_rank(mx));
                if a != x {
                    assert(offered.count(a) > h.count(a));
                } else {
                    assert(dist_rank(x.dist) >= dist_rank(mx));
                }
            }
            assert forall|v: HeapItem| #[trigger] h2.count(v) <= o2.count(v) by {
                assert(h.count(v) <= offered.count(v));
            }
        }
    }
}

/// A heap that starts empty and is offered the candidates `xs`, none with a
/// NaN distance, one after another, passing through the contents `hs` (`hs[i + 1]` after the offer
/// of `xs[i]`), ends holding the `K` nearest of all of them (all of them when
/// fewer were offered), as many as `K` or as were offered, whichever is
/// fewer.
pub proof fn lemma_k_nearest_pushes(xs: Seq<HeapItem>, hs: Seq<Multiset<HeapItem>>)
    requires
        hs.len() == xs.len() + 1,
        hs[0] == Multiset::<HeapItem>::empty(),
        forall|i: int| 0 <= i < xs.len() ==> !dist_is_nan((#[trigger] xs[i]).dist),
        forall|i: int| 0 <= i < xs.len() ==> push_step(#[trigger] hs[i], xs[i], hs[i + 1]),
    ensures
        k_nearest(hs.last(), xs.to_multiset()),
        hs.last().len() == if xs.len() < K { xs.len() } else { K as nat },
    decreases xs.len(),
{
    broadcast use vstd::multiset::group_multiset_axioms;

    xs.to_multiset_ensures();
    if xs.len() == 0 {
        lemma_k_nearest_empty();
        assert(xs.to_multiset() =~= Multiset::<HeapItem>::empty());
    } else {
        let n = xs.len() - 1;
        let ys = xs.drop_last();
        let gs = hs.drop_last();
        assert forall|i: int| 0 <= i < ys.len() implies push_step(#[trigger] gs[i], ys[i], gs[i + 1]) by {
            assert(push_step(hs[i], xs[i], hs[i + 1]));
        }
        assert forall|i: int| 0 <= i < ys.len() implies !dist_is_nan((#[trigger] ys[i]).dist) by {
            assert(!dist_is_nan(xs[i].dist));
        }
        assert(!dist_is_nan(xs[n].dist));
        lemma_k_nearest_pushes(ys, gs);
        assert(gs.last() == hs[n]);
        assert(push_step(hs[n], xs[n], hs[n + 1]));
        lemma_k_nearest_offer(hs[n], ys.to_multiset(), xs[n], hs[n + 1]);
        assert(xs =~= ys.push(xs[n]));
        ys.to_multiset_ensures();
        assert(xs.to_multiset() =~= ys.to_multiset().insert(xs[n]));
    }
}

/// Offering candidates, none with a NaN distance and all no nearer than the
/// farthest candidate of a full heap that keeps the nearest candidates
/// offered so far, changes nothing: the heap still keeps the nearest of them
/// all.
pub proof fn lemma_k_nearest_skip(h: Multiset<HeapItem>, offered: Multiset<HeapItem>, extra: Multiset<HeapItem>)
    requires
        k_nearest(h, offered),
        h.len() == K,
        forall|x: HeapItem| #[trigger] extra.contains(x) ==> !dist_is_nan(x.dist) && dist_rank(x.dist) >= dist_rank(
            max_dist_of(h),
        ),
    ensures
        k_nearest(h, offered.add(extra)),
{
    broadcast use vstd::multiset::group_multiset_axioms;

    lemma_max_of_full(h);
    let o2 = offered.add(extra);
    assert forall|m: HeapItem| #[trigger] o2.contains(m) implies !dist_is_nan(m.dist) by {
        if !offered.contains(m) {
            assert(extra.contains(m));
        }
    }
    assert forall|a: HeapItem, b: HeapItem|
        #[trigger] o2.count(a) > h.count(a) && #[trigger] h.count(b) > 0 implies dist_rank(b.dist) <= dist_rank(
        a.dist,
    ) by {
        assert(h.contains(b));
        assert(dist_rank(b.dist) <= dist_rank(max_dist_of(h)));
        if offered.count(a) <= h.count(a) {
            assert(extra.count(a) > 0);
            assert(extra.contains(a));
        }
    }
}

/// A heap that keeps fewer than `K` candidates keeps all that were offered.
proof fn lemma_k_nearest_all(h: Multiset<HeapItem>, offered: Multiset<HeapItem>)
    requires
        k_nearest(h, offered),
        h.len() < K,
    ensures
        h =~= offered,
{
    broadcast use vstd::multiset::group_multiset_axioms;

    assert(h.subset_of(offered));
    let rest = offered.sub(h);
    assert(rest.len() == 0);
    vstd::multiset::lemma_multiset_empty_len(rest);
    assert forall|v: HeapItem| #[trigger] h.count(v) == offered.count(v) by {
        assert(rest.count(v) == 0);
    }
}

/// A non-empty multiset has a greatest distance key.
pub proof fn lemma_max_of_full(h: Multiset<HeapItem>)
    requires
        h.len() > 0,
    ensures
        is_max_dist(h, max_dist_of(h)),
{
    broadcast use vstd::multiset::group_multiset_axioms;

    lemma_max_exists(h);
    let d = choose|d: u32| is_max_dist(h, d);
    assert(is_max_dist(h, d));
}

/// A non-empty multiset of candidates has a farthest candidate.
proof fn lemma_max_exists(h: Multiset<HeapItem>)
    requires
        h.len() > 0,
    ensures
        exists|d: u32| is_max_dist(h, d),
    decreases h.len(),
{
    broadcast use vstd::multiset::group_multiset_axioms;

    let m = h.choose();
    assert(h.count(m) > 0);
    let r = h.remove(m);
    assert(r.len() == h.len() - 1);
    if r.len() == 0 {
        vstd::multiset::lemma_multiset_empty_len(r);
        assert forall|v: HeapItem| #[trigger] h.contains(v) implies dist_rank(v.dist) <= dist_rank(m.dist) by {
            if v != m {
                assert(r.count(v) == 0);
            }
        }
        assert(h.contains(m));
        assert(is_max_dist(h, m.dist));
    } else {
        lemma_max_exists(r);
        let d = choose|d: u32| is_max_dist(r, d);
        let w = choose|w: HeapItem| #[trigger] r.contains(w) && w.dist == d;
        assert(r.contains(w));
        if dist_rank(d) >= dist_rank(m.dist) {
            assert(h.contains(w));
            assert forall|v: HeapItem| #[trigger] h.contains(v) implies dist_rank(v.dist) <= dist_rank(d) by {
                if v != m {
                    assert(r.contains(v));
                }
            }
            assert(is_max_dist(h, d));
        } else {
            assert(h.contains(m));
            assert forall|v: HeapItem| #[trigger] h.contains(v) implies dist_rank(v.dist) <= dist_rank(m.dist) by {
                if v != m {
                    assert(r.contains(v));
                }
            }
            assert(is_max_dist(h, m.dist));
        }
    }
}

/// The root of a heap whose first `n` items have no NaN distance is no
/// nearer than any of them.
pub proof fn lemma_root_is_max(s: Seq<HeapItem>, n: int, i: int)
    requires
        heap_ordered(s, n),
        forall|j: int| 0 <= j < n ==> !dist_is_nan((#[trigger] s[j]).dist),
        0 <= i < n,
    ensures
        dist_rank(s[0].dist) >= dist_rank(s[i].dist),
    decreases i,
{
    if i > 0 {
        lemma_root_is_max(s, n, parent_of(i));
        assert(!dist_lt(s[parent_of(i)].dist, s[i].dist));
        assert(!dist_is_nan(s[parent_of(i)].dist));
        assert(!dist_is_nan(s[i].dist));
    }
}

/// A bounded max-heap of candidates.
pub struct BoundedMaxHeap {
    items: [HeapItem; K],
    len: usize,
}

impl BoundedMaxHeap {
    /// The candidates held, in heap order.
    pub closed spec fn spec_items(&self) -> Seq<HeapItem> {
        self.items@.subrange(0, self.len as int)
    }

    /// All `K` slots of the heap, those beyond its length included.
    pub closed spec fn spec_slots(&self) -> Seq<HeapItem> {
        self.items@
    }

    /// The number of slots in use, as stored; a well-formed heap uses at
    /// most `K`.
    pub closed spec fn spec_fill(&self) -> int {
        self.len as int
    }

    /// The candidates held, as a multiset.
    pub open spec fn contents(&self) -> Multiset<HeapItem> {
        self.spec_items().to_multiset()
    }

    /// The number of candidates held.
    pub open spec fn spec_len(&self) -> int {
        self.spec_items().len() as int
    }

    /// The heap holds at most `K` candidates in max-heap order.
    pub closed spec fn wf(&self) -> bool {
        &&& self.len <= K
        &&& heap_ordered(self.items@, self.len as int)
    }

    /// Every candidate that the heap holds is one of its items in heap order.
    pub proof fn lemma_member(&self, i: int)
        requires
            0 <= i < self.spec_len(),
        ensures
            self.contents().contains(self.spec_items()[i]),
    {
        self.spec_items().to_multiset_ensures();
        assert(self.spec_items().contains(self.spec_items()[i]));
    }

    /// The count of a heap's candidates, as a multiset, is its length.
    pub proof fn lemma_len(&self)
        requires
            self.wf(),
        ensures
            self.contents().len() == self.spec_len(),
            self.spec_len() <= K,
    {
        self.spec_items().to_multiset_ensures();
    }

    proof fn lemma_max(&self)
        requires
            self.wf(),
        ensures
            self.len == 0 ==> max_dist_of(self.contents()) == MAX_DIST,
            self.contents().len() == self.len,
            self.len > 0 ==> self.contents().contains(self.items@[0]),
            self.len > 0 && numeric_dists(self.contents()) ==> is_max_dist(self.contents(), self.items@[0].dist)
                && dist_rank(max_dist_of(self.contents())) == dist_rank(self.items@[0].dist) && !dist_is_nan(
                self.items@[0].dist,
            ),
    {
        let s = self.spec_items();
        s.to_multiset_ensures();
        if self.len > 0 {
            assert(s[0] == self.items@[0]);
            assert(s.contains(s[0]));
        }
        if self.len > 0 && numeric_dists(self.contents()) {
            assert forall|j: int| 0 <= j < self.len implies !dist_is_nan((#[trigger] self.items@[j]).dist) by {
                assert(s[j] == self.items@[j]);
                assert(s.contains(s[j]));
                assert(self.contents().contains(s[j]));
            }
            assert forall|m: HeapItem| #[trigger] self.contents().contains(m) implies dist_rank(m.dist) <= dist_rank(
                self.items@[0].dist,
            ) by {
                assert(s.contains(m));
                let i = choose|i: int| 0 <= i < s.len() && s[i] == m;
                lemma_root_is_max(self.items@, self.len as int, i);
            }
            let d = self.items@[0].dist;
            assert(self.contents().contains(self.items@[0]));
            assert(is_max_dist(self.contents(), d));
            let c = max_dist_of(self.contents());
            assert(is_max_dist(self.contents(), c));
            let m = choose|m: HeapItem| self.contents().contains(m) && m.dist == c;
            assert(dist_rank(m.dist) <= dist_rank(d));
            assert(dist_rank(self.items@[0].dist) <= dist_rank(c));
        }
    }

    /// An empty heap.
    pub fn new() -> (heap: Self)
        ensures
            heap.wf(),
            heap.contents() =~= Multiset::<HeapItem>::empty(),
            heap.spec_len() == 0,
    {
        let heap = BoundedMaxHeap { items: [HeapItem { index: 0, dist: 0 }; K], len: 0 };
        assert(heap.spec_items() =~= Seq::<HeapItem>::empty());
        proof {
            heap.spec_items().to_multiset_ensures();
            vstd::multiset::lemma_multiset_empty_len(heap.contents());
        }
        heap
    }

    /// The number of candidates held.
    pub fn len(&self) -> (n: usize)
        requires
            self.wf(),
        ensures
            n == self.spec_len(),
            n <= K,
    {
        self.len
    }

    /// The candidate at position `i` in heap order.
    pub fn get(&self, i: usize) -> (item: HeapItem)
        requires
            self.wf(),
            i < self.spec_len(),
        ensures
            item == self.spec_items()[i as int],
    {
        self.items[i]
    }

    /// Whether the heap holds `K` candidates.
    pub fn is_full(&self) -> (full: bool)
        requires
            self.wf(),
        ensures
            full == (self.spec_len() == K),
    {
        self.len == K
    }

    /// The distance key of the candidate at the root, the farthest one when
    /// no candidate has a NaN distance, or `MAX_DIST` when the heap is empty.
    pub fn max_dist(&self) -> (d: u32)
        requires
            self.wf(),
        ensures
            self.spec_len() == 0 ==> d == MAX_DIST && d == max_dist_of(self.contents()),
            self.spec_len() > 0 ==> d == self.spec_items()[0].dist,
            self.spec_len() > 0 && numeric_dists(self.contents()) ==> is_max_dist(self.contents(), d) && dist_rank(d)
                == dist_rank(max_dist_of(self.contents())),
    {
        proof {
            self.lemma_max();
        }
        if self.len == 0 {
            MAX_DIST
        } else {
            self.items[0].dist
        }
    }

    /// Offers a candidate: it is added while the heap has room; once the
    /// heap is full it replaces the candidate at the root when it is
    /// strictly nearer, as `f32` values compare, and is dropped otherwise.
    /// When no candidate has a NaN distance, the root is a farthest one.
    pub fn push(&mut self, index: u32, dist: u32)
        requires
            old(self).wf(),
        ensures
            final(self).wf(),
            old(self).spec_len() < K ==> final(self).contents() =~= old(self).contents().insert(
                HeapItem { index, dist },
            ),
            old(self).spec_len() == K && dist_lt(dist, old(self).spec_slots()[0].dist) ==> final(self).contents()
                =~= old(self).contents().remove(old(self).spec_slots()[0]).insert(HeapItem { index, dist }),
            old(self).spec_len() == K && !dist_lt(dist, old(self).spec_slots()[0].dist) ==> *final(self) == *old(
                self,
            ),
            numeric_dists(old(self).contents()) && !dist_is_nan(dist) ==> push_step(
                old(self).contents(),
                HeapItem { index, dist },
                final(self).contents(),
            ),
            forall|m: HeapItem| #[trigger] final(self).contents().contains(m) ==> old(self).contents().contains(m)
                || m == (HeapItem { index, dist }),
            final(self).spec_len() == if old(self).spec_len() < K {
                old(self).spec_len() + 1
            } else {
                old(self).spec_len()
            },
            forall|m: HeapItem| #[trigger] final(self).contents().count(m) <= old(self).contents().count(m)
                + if m == (HeapItem { index, dist }) { 1int } else { 0int },
            old(self).spec_len() < K ==> final(self).spec_slots() == sift_up_spec(
                old(self).spec_slots().update(old(self).spec_len(), HeapItem { index, dist }),
                old(self).spec_len(),
            ),
            old(self).spec_len() == K && dist_lt(dist, old(self).spec_slots()[0].dist) ==> final(self).spec_slots()
                == sift_down_spec(old(self).spec_slots().update(0, HeapItem { index, dist }), K as int, 0),
    {
        proof {
            self.lemma_max();
            self.lemma_len();
        }
        let item = HeapItem { index, dist };
        if self.len < K {
            let ghost before = self.spec_items();
            let n = self.len;
            self.items[n] = item;
            self.len = n + 1;
            assert(self.spec_items() =~= before.push(item));
            proof {
                before.to_multiset_ensures();
            }
            self.sift_up(n);
            proof {
                assert(final(self).contents() =~= old(self).contents().insert(item));
            }
        } else if dist_less(dist, self.items[0].dist) {
            let ghost before = self.spec_items();
            let ghost root = self.items@[0];
            self.items[0] = item;
            assert(self.spec_items() =~= before.update(0, item));
            proof {
                crate::perm::lemma_update_multiset(before, 0, item);
                assert(before[0] == root);
            }
            self.sift_down(0);
            proof {
                before.to_multiset_ensures();
                assert(before.contains(before[0]));
                assert(old(self).contents().count(root) > 0);
                assert(old(self).contents().contains(root));
                assert(final(self).contents() =~= old(self).contents().remove(root).insert(item));
                assert forall|m: HeapItem| #[trigger] final(self).contents().contains(m) implies old(self).contents().contains(m)
                    || m == item by {
                    if m != item {
                        assert(old(self).contents().remove(root).count(m) > 0);
                    }
                }
                if numeric_dists(old(self).contents()) && !dist_is_nan(dist) {
                    assert(dist_rank(root.dist) == dist_rank(max_dist_of(old(self).contents())));
                }
            }
        } else {
            proof {
                if numeric_dists(old(self).contents()) && !dist_is_nan(dist) {
                    assert(!dist_is_nan(max_dist_of(old(self).contents()))) by {
                        let w = choose|w: HeapItem| #[trigger] old(self).contents().contains(w) && w.dist == max_dist_of(
                            old(self).contents(),
                        );
                    }
                }
            }
        }
    }

    /// Moves the item at `idx` up while it is strictly farther than its
    /// parent. On a heap whose order fails at most between `idx` and its
    /// parent, this restores the max-heap order, keeps the same candidates and
    /// leaves the length and the unused slots alone.
    pub fn sift_up(&mut self, idx: usize)
        requires
            old(self).spec_fill() <= K,
            idx < old(self).spec_fill(),
            heap_ordered_but_up(old(self).spec_slots(), old(self).spec_fill(), idx as int),
        ensures
            final(self).spec_fill() == old(self).spec_fill(),
            final(self).wf(),
            heap_ordered(final(self).spec_slots(), final(self).spec_fill()),
            final(self).contents() == old(self).contents(),
            final(self).spec_slots() == sift_up_spec(old(self).spec_slots(), idx as int),
            forall|i: int| old(self).spec_fill() <= i < K ==> final(self).spec_slots()[i] == old(self).spec_slots()[i],
    {
        let ghost idx0 = idx;
        let mut idx = idx;
        let ghost start = self.spec_items();
        while idx > 0
            invariant
                self.len <= K,
                idx < self.len,
                heap_ordered_but_up(self.items@, self.len as int, idx as int),
                self.spec_items().to_multiset() == start.to_multiset(),
                self.len == old(self).len,
                start == old(self).spec_items(),
                sift_up_spec(self.items@, idx as int) == sift_up_spec(old(self).items@, idx0 as int),
                forall|i: int| old(self).len <= i < K ==> self.items@[i] == old(self).items@[i],
            ensures
                self.len == old(self).len,
                heap_ordered(self.items@, self.len as int),
                self.spec_items().to_multiset() == start.to_multiset(),
                self.items@ == sift_up_spec(old(self).items@, idx0 as int),
                forall|i: int| old(self).len <= i < K ==> self.items@[i] == old(self).items@[i],
            decreases idx,
        {
            let parent = (idx - 1) / 2;
            if dist_less(self.items[parent].dist, self.items[idx].dist) {
                let ghost before = self.items@;
                let a = self.items[idx];
                let b = self.items[parent];
                self.items[idx] = b;
                self.items[parent] = a;
                assert(self.items@ =~= seq_swap(before, idx as int, parent as int));
                proof {
                    assert(self.spec_items() =~= seq_swap(before.subrange(0, self.len as int), idx as int, parent as int));
                    lemma_swap_multiset(before.subrange(0, self.len as int), idx as int, parent as int);
                    let s = self.items@;
                    let n = self.len as int;
                    let p = parent as int;
                    assert forall|i: int| 0 < i < n && i != p implies !dist_lt((#[trigger] s[parent_of(i)]).dist, s[i].dist) by {
                        if i == idx {
                        } else if parent_of(i) == idx {
                            assert(!dist_lt(before[parent_of(idx as int)].dist, before[i].dist));
                        } else if parent_of(i) == p {
                            assert(!dist_lt(before[parent_of(i)].dist, before[i].dist));
                        } else {
                            assert(!dist_lt(before[parent_of(i)].dist, before[i].dist));
                        }
                    }
                    assert forall|i: int| 0 < i < n && parent_of(i) == p && p > 0 implies !dist_lt(s[parent_of(p)].dist, (#[trigger] s[i]).dist) by {
                        assert(!dist_lt(before[parent_of(p)].dist, before[p].dist));
                        if i != idx {
                            assert(!dist_lt(before[parent_of(i)].dist, before[i].dist));
                        }
                    }
                }
                idx = parent;
            } else {
                proof {
                    let s = self.items@;
                    assert forall|i: int| 0 < i < self.len implies !dist_lt((#[trigger] s[parent_of(i)]).dist, s[i].dist) by {
                        if i == idx {
                            assert(parent_of(i) == parent);
                        }
                    }
                }
                break;
            }
        }
    }

    /// Moves the item at `idx` down while a child is strictly farther. On a
    /// heap whose order fails at most between `idx` and its children, this
    /// restores the max-heap order, keeps the same candidates and leaves the
    /// length and the unused slots alone.
    pub fn sift_down(&mut self, idx: usize)
        requires
            old(self).spec_fill() <= K,
            idx < old(self).spec_fill(),
            heap_ordered_but_down(old(self).spec_slots(), old(self).spec_fill(), idx as int),
        ensures
            final(self).spec_fill() == old(self).spec_fill(),
            final(self).wf(),
            heap_ordered(final(self).spec_slots(), final(self).spec_fill()),
            final(self).contents() == old(self).contents(),
            final(self).spec_slots() == sift_down_spec(old(self).spec_slots(), old(self).spec_fill(), idx as int),
            forall|i: int| old(self).spec_fill() <= i < K ==> final(self).spec_slots()[i] == old(self).spec_slots()[i],
    {
        let ghost idx0 = idx;
        let mut idx = idx;
        let ghost start = self.spec_items();
        loop
            invariant
                self.len <= K,
                idx < self.len,
                heap_ordered_but_down(self.items@, self.len as int, idx as int),
                self.spec_items().to_multiset() == start.to_multiset(),
                self.len == old(self).len,
                start == old(self).spec_items(),
                sift_down_spec(self.items@, self.len as int, idx as int) == sift_down_spec(
                    old(self).items@,
                    old(self).len as int,
                    idx0 as int,
                ),
                forall|i: int| old(self).len <= i < K ==> self.items@[i] == old(self).items@[i],
            ensures
                self.len == old(self).len,
                heap_ordered(self.items@, self.len as int),
                self.spec_items().to_multiset() == start.to_multiset(),
                self.items@ == sift_down_spec(old(self).items@, old(self).len as int, idx0 as int),
                forall|i: int| old(self).len <= i < K ==> self.items@[i] == old(self).items@[i],
            decreases self.len - idx,
        {
            let left = 2 * idx + 1;
            let right = 2 * idx + 2;
            let mut largest = idx;

            if left < self.len && dist_less(self.items[largest].dist, self.items[left].dist) {
                largest = left;
            }
            if right < self.len && dist_less(self.items[largest].dist, self.items[right].dist) {
                largest = right;
            }
            if largest == idx {
                proof {
                    let s = self.items@;
                    assert forall|i: int| 0 < i < self.len && parent_of(i) == idx implies !dist_lt((#[trigger] s[parent_of(i)]).dist, s[i].dist) by {
                        assert(i == left || i == right);
                    }
                }
                break;
            }
            let ghost before = self.items@;
            let a = self.items[idx];
            let b = self.items[largest];
            self.items[idx] = b;
            self.items[largest] = a;
            assert(self.items@ =~= seq_swap(before, idx as int, largest as int));
            proof {
                assert(self.spec_items() =~= seq_swap(before.subrange(0, self.len as int), idx as int, largest as int));
                lemma_swap_multiset(before.subrange(0, self.len as int), idx as int, largest as int);
                let s = self.items@;
                let n = self.len as int;
                let l = largest as int;
                assert(parent_of(l) == idx);
                assert forall|i: int| 0 < i < n && parent_of(i) != l implies !dist_lt((#[trigger] s[parent_of(i)]).dist, s[i].dist) by {
                    if i == l {
                    } else if parent_of(i) == idx {
                        assert(i == left || i == right);
                    } else if i == idx {
                        assert(!dist_lt(before[parent_of(i)].dist, before[l].dist));
                    } else {
                        assert(!dist_lt(before[parent_of(i)].dist, before[i].dist));
                    }
                }
                assert forall|i: int| 0 < i < n && parent_of(i) == l && l > 0 implies !dist_lt(s[parent_of(l)].dist, (#[trigger] s[i]).dist) by {
                    assert(!dist_lt(before[parent_of(i)].dist, before[i].dist));
                }
            }
            idx = largest;
        }
    }
}

} // verus!
