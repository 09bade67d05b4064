//! Facts about sequences whose elements are exchanged in place.
use vstd::prelude::*;

verus! {

/// The sequence with the elements at `i` and `j` exchanged.
pub open spec fn seq_swap<A>(s: Seq<A>, i: int, j: int) -> Seq<A> {
    s.update(i, s[j]).update(j, s[i])
}

/// Replacing one element removes the old one from the multiset and adds
/// the new one.
pub proof fn lemma_update_multiset<A>(s: Seq<A>, i: int, v: A)
    requires
        0 <= i < s.len(),
    ensures
        s.update(i, v).to_multiset() =~= s.to_multiset().remove(s[i]).insert(v),
{
    broadcast use vstd::multiset::group_multiset_axioms;

    let t = s.update(i, v);
    assert(t.remove(i) =~= s.remove(i));
    s.to_multiset_ensures();
    t.to_multiset_ensures();
    assert(t.contains(v)) by {
        assert(t[i] == v);
    }
    let m = t.to_multiset();
    assert(t.remove(i).to_multiset() =~= m.remove(v));
    assert(s.remove(i).to_multiset() =~= s.to_multiset().remove(s[i]));
    assert(m.count(v) > 0);
    assert(m.remove(v).insert(v) =~= m);
}

/// Exchanging two elements keeps the multiset of the sequence.
pub proof fn lemma_swap_multiset<A>(s: Seq<A>, i: int, j: int)
    requires
        0 <= i < s.len(),
        0 <= j < s.len(),
    ensures
        seq_swap(s, i, j).to_multiset() =~= s.to_multiset(),
{
    broadcast use vstd::multiset::group_multiset_axioms;

    let u = s.update(i, s[j]);
    lemma_update_multiset(s, i, s[j]);
    lemma_update_multiset(u, j, s[i]);
    s.to_multiset_ensures();
    assert(s.contains(s[i]));
    assert(s.contains(s[j]));
    let m = s.to_multiset();
    if i == j {
        assert(u =~= s);
        assert(m.remove(s[i]).insert(s[i]) =~= m);
    } else {
        assert(u[j] == s[j]);
        assert(m.remove(s[i]).insert(s[j]).remove(s[j]).insert(s[i]) =~= m);
    }
}

/// Exchanging two elements inside `[a, b)` keeps the multiset of that range.
pub proof fn lemma_swap_range_multiset<A>(s: Seq<A>, a: int, b: int, i: int, j: int)
    requires
        0 <= a <= i < b <= s.len(),
        a <= j < b,
    ensures
        seq_swap(s, i, j).subrange(a, b).to_multiset() =~= s.subrange(a, b).to_multiset(),
{
    let r = s.subrange(a, b);
    assert(seq_swap(s, i, j).subrange(a, b) =~= seq_swap(r, i - a, j - a));
    lemma_swap_multiset(r, i - a, j - a);
}

/// Two sequences with one multiset satisfy the same predicates of all
/// their elements.
pub proof fn lemma_multiset_forall<A>(s1: Seq<A>, s2: Seq<A>, p: spec_fn(A) -> bool)
    requires
        s1.to_multiset() =~= s2.to_multiset(),
        forall|i: int| 0 <= i < s1.len() ==> #[trigger] p(s1[i]),
    ensures
        forall|i: int| 0 <= i < s2.len() ==> #[trigger] p(s2[i]),
{
    s1.to_multiset_ensures();
    s2.to_multiset_ensures();
    assert forall|i: int| 0 <= i < s2.len() implies #[trigger] p(s2[i]) by {
        let x = s2[i];
        assert(s2.contains(x));
        assert(s2.to_multiset().count(x) > 0);
        assert(s1.to_multiset().count(x) > 0);
        assert(s1.contains(x));
        let j = choose|j: int| 0 <= j < s1.len() && s1[j] == x;
        assert(p(s1[j]));
    }
}

/// A range that is split in two has the multiset of its two halves.
pub proof fn lemma_split_multiset<A>(s: Seq<A>, a: int, m: int, b: int)
    requires
        0 <= a <= m <= b <= s.len(),
    ensures
        s.subrange(a, b).to_multiset() =~= s.subrange(a, m).to_multiset().add(
            s.subrange(m, b).to_multiset(),
        ),
{
    assert(s.subrange(a, b) =~= s.subrange(a, m) + s.subrange(m, b));
    vstd::seq_lib::lemma_multiset_commutative(s.subrange(a, m), s.subrange(m, b));
}

} // verus!
