//! Selection of the k-th smallest record of a range of record indices, by
//! one component of the records.
use vstd::prelude::*;
use crate::vector::VECTOR_DIM;
use crate::repository::{FraudRepository, component_key, component_bits, has_record};
use crate::order::{f64_is_nan, ieee_le, less_than, less_or_equal};
use crate::perm::{seq_swap, lemma_swap_range_multiset};

verus! {

/// The key of component `dim` of the record that `s[i]` names.
pub open spec fn key_at(repo: &FraudRepository, s: Seq<u32>, i: int, dim: int) -> u64 {
    component_key(repo@, s[i] as int, dim)
}

/// The bit pattern of component `dim` of the record that `s[i]` names.
pub open spec fn bits_at(repo: &FraudRepository, s: Seq<u32>, i: int, dim: int) -> u64 {
    component_bits(repo@, s[i] as int, dim)
}

/// No record that `s` names in `[start, end)` has a NaN in component `dim`.
pub open spec fn nan_free(repo: &FraudRepository, s: Seq<u32>, start: int, end: int, dim: int) -> bool {
    forall|i: int| start <= i < end ==> !f64_is_nan(#[trigger] bits_at(repo, s, i, dim))
}

/// Every record that `s` names in `[start, end)` lies in the file.
pub open spec fn all_present(repo: &FraudRepository, s: Seq<u32>, start: int, end: int) -> bool {
    forall|i: int| start <= i < end ==> has_record(repo@, #[trigger] s[i] as int)
}

/// `s2` is `s1` with the elements of `[start, end)` rearranged.
pub open spec fn permuted_within(s1: Seq<u32>, s2: Seq<u32>, start: int, end: int) -> bool {
    &&& s2.len() == s1.len()
    &&& forall|i: int| 0 <= i < s1.len() && !(start <= i < end) ==> s2[i] == s1[i]
    &&& s2.subrange(start, end).to_multiset() == s1.subrange(start, end).to_multiset()
}

/// Exchanges two elements of a vector.
pub fn swap(v: &mut Vec<u32>, i: usize, j: usize)
    requires
        i < old(v).len(),
        j < old(v).len(),
    ensures
        final(v)@ == seq_swap(old(v)@, i as int, j as int),
{
    let a = v[i];
    let b = v[j];
    v.set(i, b);
    v.set(j, a);
}

/// How the keys of a sequence change when two of its elements are exchanged.
pub proof fn lemma_swap_keys(repo: &FraudRepository, s: Seq<u32>, i: int, j: int, dim: int)
    requires
        0 <= i < s.len(),
        0 <= j < s.len(),
    ensures
        forall|m: int| 0 <= m < s.len() && m != i && m != j ==>
            #[trigger] key_at(repo, seq_swap(s, i, j), m, dim) == key_at(repo, s, m, dim),
        key_at(repo, seq_swap(s, i, j), i, dim) == key_at(repo, s, j, dim),
        key_at(repo, seq_swap(s, i, j), j, dim) == key_at(repo, s, i, dim),
        forall|m: int| 0 <= m < s.len() && m != i && m != j ==>
            #[trigger] bits_at(repo, seq_swap(s, i, j), m, dim) == bits_at(repo, s, m, dim),
        bits_at(repo, seq_swap(s, i, j), i, dim) == bits_at(repo, s, j, dim),
        bits_at(repo, seq_swap(s, i, j), j, dim) == bits_at(repo, s, i, dim),
        forall|m: int| 0 <= m < s.len() && m != i && m != j ==>
            #[trigger] seq_swap(s, i, j)[m] == s[m],
        seq_swap(s, i, j)[i] == s[j],
        seq_swap(s, i, j)[j] == s[i],
        seq_swap(s, i, j).len() == s.len(),
{
}

/// Which of `left`, `mid`, `right` holds the median of the components `a`,
/// `b`, `c` found there, compared as IEEE 754 does: `mid` if `b` lies
/// between the others, else `left` if `a` does, else `right` (so `right`
/// whenever a NaN stops both tests).
pub open spec fn median_pick(a: u64, b: u64, c: u64, left: int, mid: int, right: int) -> int {
    if (ieee_le(a, b) && ieee_le(b, c)) || (ieee_le(c, b) && ieee_le(b, a)) {
        mid
    } else if (ieee_le(b, a) && ieee_le(a, c)) || (ieee_le(c, a) && ieee_le(a, b)) {
        left
    } else {
        right
    }
}

/// The position, among `left`, the middle of `[left, right]` and `right`,
/// of the median of their values in component `dim`.
pub fn median_of_three(repo: &FraudRepository, slice: &Vec<u32>, left: usize, right: usize, dim: usize) -> (pick: usize)
    requires
        left <= right < slice.len(),
        dim < VECTOR_DIM,
        has_record(repo@, slice@[left as int] as int),
        has_record(repo@, slice@[(left + right) / 2] as int),
        has_record(repo@, slice@[right as int] as int),
    ensures
        pick == median_pick(
            bits_at(repo, slice@, left as int, dim as int),
            bits_at(repo, slice@, (left + right) / 2, dim as int),
            bits_at(repo, slice@, right as int, dim as int),
            left as int,
            (left + right) / 2,
            right as int,
        ),
        left <= pick <= right,
{
    let mid = left + (right - left) / 2;
    assert(mid == (left + right) / 2);
    let a = repo.get_component(slice[left] as usize, dim);
    let b = repo.get_component(slice[mid] as usize, dim);
    let c = repo.get_component(slice[right] as usize, dim);

    if (less_or_equal(a, b) && less_or_equal(b, c)) || (less_or_equal(c, b) && less_or_equal(b, a)) {
        mid
    } else if (less_or_equal(b, a) && less_or_equal(a, c)) || (less_or_equal(c, a) && less_or_equal(a, b)) {
        left
    } else {
        right
    }
}

/// Rearranges `slice[start..end]` so that position `k`, when it lies in the
/// range and no record there has a NaN in component `dim`, holds the element
/// that a sort of the range by that component would put there: no value
/// before it is above its value, and no value after it is below. A `k` past
/// the range, or a NaN, leaves only a rearrangement of the range. This is
/// quickselect with a median-of-three pivot and a Lomuto partition, with
/// values compared as IEEE 754 does.
pub fn nth_element(repo: &FraudRepository, slice: &mut Vec<u32>, start: usize, end: usize, k: usize, dim: usize)
    requires
        start <= end <= old(slice).len(),
        start <= k,
        dim < VECTOR_DIM,
        end - start <= 1 || all_present(repo, old(slice)@, start as int, end as int),
    ensures
        permuted_within(old(slice)@, final(slice)@, start as int, end as int),
        all_present(repo, old(slice)@, start as int, end as int) ==> all_present(repo, final(slice)@, start as int, end as int),
        nan_free(repo, old(slice)@, start as int, end as int, dim as int) ==> nan_free(
            repo,
            final(slice)@,
            start as int,
            end as int,
            dim as int,
        ),
        k < end && nan_free(repo, old(slice)@, start as int, end as int, dim as int) ==> forall|i: int| start <= i < k ==>
            #[trigger] key_at(repo, final(slice)@, i, dim as int) <= key_at(repo, final(slice)@, k as int, dim as int),
        k < end && nan_free(repo, old(slice)@, start as int, end as int, dim as int) ==> forall|i: int| k < i < end ==>
            key_at(repo, final(slice)@, k as int, dim as int) <= #[trigger] key_at(repo, final(slice)@, i, dim as int),
{
    let ghost orig = slice@;
    let ghost nf = nan_free(repo, orig, start as int, end as int, dim as int);
    if end - start <= 1 {
        proof {
            assert(slice@.subrange(start as int, end as int) =~= orig.subrange(start as int, end as int));
        }
        return;
    }
    let mut left = start;
    let mut right = end - 1;
    let ghost mut lo: int = 0;
    let ghost mut hi: int = u64::MAX as int;
    while left < right
        invariant
            start <= left <= right + 1,
            right < end <= slice.len(),
            start <= k,
            k < end ==> left <= k <= right,
            dim < VECTOR_DIM,
            orig == old(slice)@,
            nf == nan_free(repo, orig, start as int, end as int, dim as int),
            permuted_within(orig, slice@, start as int, end as int),
            all_present(repo, slice@, start as int, end as int),
            nf ==> nan_free(repo, slice@, start as int, end as int, dim as int),
            nf ==> forall|i: int| start <= i < left ==> #[trigger] key_at(repo, slice@, i, dim as int) <= lo,
            nf ==> forall|i: int| left <= i <= right ==>
                lo <= #[trigger] key_at(repo, slice@, i, dim as int) <= hi,
            nf ==> forall|i: int| right < i < end ==> hi <= #[trigger] key_at(repo, slice@, i, dim as int),
        decreases right + 1 - left,
    {
        let pivot_idx = median_of_three(repo, slice, left, right, dim);
        let pivot_bits = repo.get_component(slice[pivot_idx] as usize, dim);
        let ghost pivot_val = key_at(repo, slice@, pivot_idx as int, dim as int);
        assert(nf ==> lo <= pivot_val <= hi);
        proof {
            lemma_swap_range_multiset(slice@, start as int, end as int, pivot_idx as int, right as int);
            lemma_swap_keys(repo, slice@, pivot_idx as int, right as int, dim as int);
        }
        swap(slice, pivot_idx, right);
        assert(key_at(repo, slice@, right as int, dim as int) == pivot_val);
        assert(bits_at(repo, slice@, right as int, dim as int) == pivot_bits);

        let mut store = left;
        let mut i = left;
        while i < right
            invariant
                start <= left <= store <= i <= right < end <= slice.len(),
                start <= k,
                k < end ==> left <= k <= right,
                dim < VECTOR_DIM,
                orig == old(slice)@,
                nf == nan_free(repo, orig, start as int, end as int, dim as int),
                permuted_within(orig, slice@, start as int, end as int),
                all_present(repo, slice@, start as int, end as int),
                nf ==> nan_free(repo, slice@, start as int, end as int, dim as int),
                key_at(repo, slice@, right as int, dim as int) == pivot_val,
                bits_at(repo, slice@, right as int, dim as int) == pivot_bits,
                nf ==> lo <= pivot_val <= hi,
                nf ==> forall|m: int| left <= m < store ==> #[trigger] key_at(repo, slice@, m, dim as int) < pivot_val,
                nf ==> forall|m: int| store <= m < i ==> pivot_val <= #[trigger] key_at(repo, slice@, m, dim as int),
                nf ==> forall|m: int| start <= m < left ==> #[trigger] key_at(repo, slice@, m, dim as int) <= lo,
                nf ==> forall|m: int| left <= m <= right ==>
                    lo <= #[trigger] key_at(repo, slice@, m, dim as int) <= hi,
                nf ==> forall|m: int| right < m < end ==> hi <= #[trigger] key_at(repo, slice@, m, dim as int),
            decreases right - i,
        {
            assert(has_record(repo@, slice@[i as int] as int));
            let value = repo.get_component(slice[i] as usize, dim);
            proof {
                if nf {
                    assert(!f64_is_nan(bits_at(repo, slice@, i as int, dim as int)));
                    assert(!f64_is_nan(bits_at(repo, slice@, right as int, dim as int)));
                }
            }
            if less_than(value, pivot_bits) {
                proof {
                    lemma_swap_range_multiset(slice@, start as int, end as int, i as int, store as int);
                    lemma_swap_keys(repo, slice@, i as int, store as int, dim as int);
                }
                let ghost before = slice@;
                swap(slice, i, store);
                assert(key_at(repo, slice@, store as int, dim as int) == key_at(repo, before, i as int, dim as int));
                assert(key_at(repo, slice@, i as int, dim as int) == key_at(repo, before, store as int, dim as int));
                store = store + 1;
            }
            i = i + 1;
        }
        proof {
            lemma_swap_range_multiset(slice@, start as int, end as int, store as int, right as int);
            lemma_swap_keys(repo, slice@, store as int, right as int, dim as int);
        }
        let ghost before = slice@;
        swap(slice, store, right);
        assert(key_at(repo, slice@, store as int, dim as int) == pivot_val);
        assert(key_at(repo, slice@, right as int, dim as int) == key_at(repo, before, store as int, dim as int));

        if store == k {
            return;
        } else if k < store {
            right = store - 1;
            proof {
                hi = pivot_val as int;
            }
        } else {
            left = store + 1;
            proof {
                lo = pivot_val as int;
            }
        }
    }
}

} // verus!
