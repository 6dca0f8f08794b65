//! Stand-alone sorting utilities: a merge sort and an in-place quicksort,
//! each proved to sort and to permute (the multiset of elements is kept).
use vstd::prelude::*;
use vstd::seq_lib::{lemma_multiset_commutative, to_multiset_update};

verus! {

/// The sequence is sorted in non-decreasing order.
pub open spec fn is_sorted(s: Seq<u64>) -> bool {
    forall|i: int, j: int| 0 <= i < j < s.len() ==> s[i] <= s[j]
}

/// Merges two sorted vectors into `sorted`, which must come in empty.
pub fn merge(l_arr: &Vec<u64>, r_arr: &Vec<u64>, sorted: &mut Vec<u64>)
    requires
        is_sorted(l_arr@),
        is_sorted(r_arr@),
        old(sorted)@.len() == 0,
    ensures
        is_sorted(final(sorted)@),
        final(sorted)@.to_multiset() == l_arr@.to_multiset().add(r_arr@.to_multiset()),
        final(sorted)@.len() == l_arr@.len() + r_arr@.len(),
{
    broadcast use vstd::seq_lib::group_to_multiset_ensures;
    broadcast use vstd::multiset::group_multiset_axioms;

    let mut left: usize = 0;
    let mut right: usize = 0;
    while left < l_arr.len() || right < r_arr.len()
        invariant
            is_sorted(l_arr@),
            is_sorted(r_arr@),
            left <= l_arr@.len(),
            right <= r_arr@.len(),
            sorted@.len() == left + right,
            is_sorted(sorted@),
            sorted@.to_multiset() == l_arr@.subrange(0, left as int).to_multiset().add(
                r_arr@.subrange(0, right as int).to_multiset(),
            ),
            forall|i: int, k: int|
                0 <= i < sorted@.len() && left <= k < l_arr@.len() ==> sorted@[i] <= l_arr@[k],
            forall|i: int, k: int|
                0 <= i < sorted@.len() && right <= k < r_arr@.len() ==> sorted@[i] <= r_arr@[k],
        decreases l_arr@.len() + r_arr@.len() - left - right,
    {
        let take_left = if left < l_arr.len() && right < r_arr.len() {
            l_arr[left] <= r_arr[right]
        } else {
            left < l_arr.len()
        };
        if take_left {
            proof {
                assert(l_arr@.subrange(0, left + 1).drop_last() =~= l_arr@.subrange(
                    0,
                    left as int,
                ));
                assert(l_arr@.subrange(0, left + 1) =~= l_arr@.subrange(0, left as int).push(
                    l_arr@[left as int],
                ));
            }
            let ghost prev = sorted@;
            let ghost x = l_arr@[left as int];
            sorted.push(l_arr[left]);
            proof {
                broadcast use vstd::seq_lib::group_to_multiset_ensures;
                broadcast use vstd::multiset::group_multiset_axioms;

                assert(sorted@ == prev.push(x));
                assert(prev.push(x).to_multiset() =~= prev.to_multiset().insert(x));
                assert(sorted@.to_multiset() =~= l_arr@.subrange(0, left + 1).to_multiset().add(
                    r_arr@.subrange(0, right as int).to_multiset(),
                ));
            }
            left = left + 1;
        } else {
            proof {
                assert(r_arr@.subrange(0, right + 1) =~= r_arr@.subrange(0, right as int).push(
                    r_arr@[right as int],
                ));
            }
            let ghost prev = sorted@;
            let ghost x = r_arr@[right as int];
            sorted.push(r_arr[right]);
            proof {
                broadcast use vstd::seq_lib::group_to_multiset_ensures;
                broadcast use vstd::multiset::group_multiset_axioms;

                assert(sorted@ == prev.push(x));
                assert(prev.push(x).to_multiset() =~= prev.to_multiset().insert(x));
                assert(sorted@.to_multiset() =~= l_arr@.subrange(0, left as int).to_multiset().add(
                    r_arr@.subrange(0, right + 1).to_multiset(),
                ));
            }
            right = right + 1;
        }
    }
    proof {
        assert(l_arr@.subrange(0, l_arr@.len() as int) =~= l_arr@);
        assert(r_arr@.subrange(0, r_arr@.len() as int) =~= r_arr@);
    }
}

/// Sorts the vector by recursive merging.
pub fn merge_sort(array: &mut Vec<u64>)
    ensures
        is_sorted(final(array)@),
        final(array)@.to_multiset() == old(array)@.to_multiset(),
        final(array)@.len() == old(array)@.len(),
    decreases old(array)@.len(),
{
    broadcast use vstd::seq_lib::group_to_multiset_ensures;
    broadcast use vstd::multiset::group_multiset_axioms;

    let len = array.len();
    if len < 2 {
        return ;
    }
    let middle = len / 2;
    let mut left: Vec<u64> = Vec::new();
    let mut i: usize = 0;
    while i < middle
        invariant
            middle <= array@.len(),
            i <= middle,
            left@ == array@.subrange(0, i as int),
        decreases middle - i,
    {
        proof {
            assert(array@.subrange(0, i + 1) =~= array@.subrange(0, i as int).push(
                array@[i as int],
            ));
        }
        left.push(array[i]);
        i = i + 1;
    }
    let mut right: Vec<u64> = Vec::new();
    let mut k: usize = middle;
    while k < len
        invariant
            middle <= k <= len,
            len == array@.len(),
            right@ == array@.subrange(middle as int, k as int),
        decreases len - k,
    {
        proof {
            assert(array@.subrange(middle as int, k + 1) =~= array@.subrange(
                middle as int,
                k as int,
            ).push(array@[k as int]));
        }
        right.push(array[k]);
        k = k + 1;
    }
    let ghost whole = array@;
    proof {
        assert(whole =~= whole.subrange(0, middle as int) + whole.subrange(
            middle as int,
            len as int,
        ));
        lemma_multiset_commutative(
            whole.subrange(0, middle as int),
            whole.subrange(middle as int, len as int),
        );
    }
    merge_sort(&mut left);
    merge_sort(&mut right);
    let mut merged: Vec<u64> = Vec::new();
    merge(&left, &right, &mut merged);
    *array = merged;
}

/// Sorts the vector in place with quicksort; the inclusive index scheme
/// needs at least one element.
pub fn quick_sort(array: &mut Vec<u64>)
    requires
        1 <= old(array)@.len() <= isize::MAX,
    ensures
        is_sorted(final(array)@),
        final(array)@.to_multiset() == old(array)@.to_multiset(),
        final(array)@.len() == old(array)@.len(),
{
    let start: isize = 0;
    let end = (array.len() - 1) as isize;
    quick_sort_partition(array, start, end);
    proof {
        assert(array@.subrange(0, array@.len() as int) =~= array@);
        assert(old(array)@.subrange(0, old(array)@.len() as int) =~= old(array)@);
    }
}

/// Sorts the index range `[start, end]` of the vector in place; positions
/// outside the range are untouched and the range keeps its elements.
pub fn quick_sort_partition(array: &mut Vec<u64>, start: isize, end: isize)
    requires
        0 <= start,
        end < old(array)@.len(),
        start <= end + 1,
        old(array)@.len() <= isize::MAX,
    ensures
        final(array)@.len() == old(array)@.len(),
        forall|k: int| 0 <= k < start ==> final(array)@[k] == old(array)@[k],
        forall|k: int| end < k < final(array)@.len() ==> final(array)@[k] == old(array)@[k],
        final(array)@.subrange(start as int, end + 1).to_multiset() == old(array)@.subrange(
            start as int,
            end + 1,
        ).to_multiset(),
        is_sorted(final(array)@.subrange(start as int, end + 1)),
    decreases end + 1 - start,
{
    broadcast use vstd::seq_lib::group_to_multiset_ensures;
    broadcast use vstd::multiset::group_multiset_axioms;

    if start < end && end - start >= 1 {
        let pivot = partition(array, start, end);
        let ghost mid = array@;
        quick_sort_partition(array, start, pivot - 1);
        let ghost after_left = array@;
        proof {
            lemma_sort_range_frame(mid, after_left, start as int, pivot - 1, start as int, end as int);
        }
        quick_sort_partition(array, pivot + 1, end);
        proof {
            lemma_sort_range_frame(after_left, array@, pivot + 1, end as int, start as int, end as int);
            // The two sorted halves around the untouched pivot.
            assert(array@[pivot as int] == mid[pivot as int]);
            assert(array@.subrange(start as int, pivot as int) =~= after_left.subrange(
                start as int,
                pivot as int,
            ));
            assert(after_left.subrange(pivot + 1, end + 1) =~= mid.subrange(pivot + 1, end + 1));
            assert(is_sorted(array@.subrange(start as int, pivot as int)));
            lemma_quick_sort_glue(mid, array@, start as int, pivot as int, end as int);
        }
    }
}

/// Elements of equal multisets bound each other: every element of one
/// sequence occurs in the other.
proof fn lemma_multiset_elements(a: Seq<u64>, b: Seq<u64>)
    requires
        a.to_multiset() == b.to_multiset(),
    ensures
        forall|i: int| 0 <= i < b.len() ==> #[trigger] a.contains(b[i]),
{
    broadcast use vstd::seq_lib::group_to_multiset_ensures;
    broadcast use vstd::multiset::group_multiset_axioms;

    assert forall|i: int| 0 <= i < b.len() implies #[trigger] a.contains(b[i]) by {
        let x = b[i];
        assert(b.contains(x)) by {
            assert(0 <= i < b.len() && b[i] == x);
        }
        assert(b.to_multiset().count(x) > 0);
        assert(a.to_multiset().count(x) > 0);
    }
}

/// Sorting a left (or right) half inside `[lo, hi]` keeps the other
/// positions of `[lo, hi]` and its overall multiset.
proof fn lemma_sort_range_frame(
    before: Seq<u64>,
    after: Seq<u64>,
    s: int,
    e: int,
    lo: int,
    hi: int,
)
    requires
        before.len() == after.len(),
        0 <= lo <= hi < before.len(),
        lo <= s,
        e <= hi,
        s <= e + 1 || s > e,
        forall|k: int| 0 <= k < s ==> after[k] == before[k],
        forall|k: int| e < k < after.len() ==> after[k] == before[k],
        s > e || after.subrange(s, e + 1).to_multiset() == before.subrange(s, e + 1).to_multiset(),
    ensures
        after.subrange(lo, hi + 1).to_multiset() == before.subrange(lo, hi + 1).to_multiset(),
{
    broadcast use vstd::seq_lib::group_to_multiset_ensures;
    broadcast use vstd::multiset::group_multiset_axioms;

    if s > e {
        assert(after.subrange(lo, hi + 1) =~= before.subrange(lo, hi + 1));
    } else {
        let a1 = after.subrange(lo, s);
        let a2 = after.subrange(s, e + 1);
        let a3 = after.subrange(e + 1, hi + 1);
        let b1 = before.subrange(lo, s);
        let b2 = before.subrange(s, e + 1);
        let b3 = before.subrange(e + 1, hi + 1);
        assert(after.subrange(lo, hi + 1) =~= a1 + a2 + a3);
        assert(before.subrange(lo, hi + 1) =~= b1 + b2 + b3);
        assert(a1 =~= b1);
        assert(a3 =~= b3);
        lemma_multiset_commutative(a1 + a2, a3);
        lemma_multiset_commutative(a1, a2);
        lemma_multiset_commutative(b1 + b2, b3);
        lemma_multiset_commutative(b1, b2);
    }
}

/// Glues the two sorted halves around the pivot into a sorted range.
proof fn lemma_quick_sort_glue(mid: Seq<u64>, fin: Seq<u64>, lo: int, p: int, hi: int)
    requires
        mid.len() == fin.len(),
        0 <= lo <= p <= hi < mid.len(),
        forall|k: int| lo <= k <= p ==> mid[k] <= mid[p],
        forall|k: int| p < k <= hi ==> mid[k] > mid[p],
        fin[p] == mid[p],
        fin.subrange(lo, p).to_multiset() == mid.subrange(lo, p).to_multiset(),
        fin.subrange(p + 1, hi + 1).to_multiset() == mid.subrange(p + 1, hi + 1).to_multiset(),
        is_sorted(fin.subrange(lo, p)),
        is_sorted(fin.subrange(p + 1, hi + 1)),
    ensures
        is_sorted(fin.subrange(lo, hi + 1)),
{
    broadcast use vstd::seq_lib::group_to_multiset_ensures;
    broadcast use vstd::multiset::group_multiset_axioms;

    lemma_multiset_elements(mid.subrange(lo, p), fin.subrange(lo, p));
    lemma_multiset_elements(mid.subrange(p + 1, hi + 1), fin.subrange(p + 1, hi + 1));
    assert forall|k: int| lo <= k < p implies fin[k] <= mid[p] by {
        assert(fin.subrange(lo, p)[k - lo] == fin[k]);
        assert(mid.subrange(lo, p).contains(fin.subrange(lo, p)[k - lo]));
        let w = choose|w: int|
            0 <= w < mid.subrange(lo, p).len() && #[trigger] mid.subrange(lo, p)[w]
                == fin.subrange(lo, p)[k - lo];
        assert(mid[lo + w] <= mid[p]);
    }
    assert forall|k: int| p < k <= hi implies fin[k] > mid[p] by {
        assert(fin.subrange(p + 1, hi + 1)[k - (p + 1)] == fin[k]);
        assert(mid.subrange(p + 1, hi + 1).contains(fin.subrange(p + 1, hi + 1)[k - (p + 1)]));
        let w = choose|w: int|
            0 <= w < mid.subrange(p + 1, hi + 1).len() && #[trigger] mid.subrange(p + 1, hi + 1)[w]
                == fin.subrange(p + 1, hi + 1)[k - (p + 1)];
        assert(mid[p + 1 + w] > mid[p]);
    }
    assert forall|i: int, j: int|
        0 <= i < j < fin.subrange(lo, hi + 1).len() implies #[trigger] fin.subrange(lo, hi + 1)[i]
        <= #[trigger] fin.subrange(lo, hi + 1)[j] by {
        let a = lo + i;
        let b = lo + j;
        assert(fin.subrange(lo, hi + 1)[i] == fin[a]);
        assert(fin.subrange(lo, hi + 1)[j] == fin[b]);
        if a < p && b < p {
            assert(fin.subrange(lo, p)[a - lo] == fin[a]);
            assert(fin.subrange(lo, p)[b - lo] == fin[b]);
        } else if a > p && b > p {
            assert(fin.subrange(p + 1, hi + 1)[a - (p + 1)] == fin[a]);
            assert(fin.subrange(p + 1, hi + 1)[b - (p + 1)] == fin[b]);
        }
    }
}

/// Swaps two positions of the vector.
fn swap_at(array: &mut Vec<u64>, a: usize, b: usize)
    requires
        a < old(array)@.len(),
        b < old(array)@.len(),
    ensures
        final(array)@ == old(array)@.update(a as int, old(array)@[b as int]).update(
            b as int,
            old(array)@[a as int],
        ),
        final(array)@.len() == old(array)@.len(),
{
    let va = array[a];
    let vb = array[b];
    array[a] = vb;
    array[b] = va;
}

/// A swap inside `[lo, hi)` keeps the multiset of that range.
proof fn lemma_swap_subrange_multiset(s: Seq<u64>, lo: int, hi: int, a: int, b: int)
    requires
        0 <= lo <= a < hi <= s.len(),
        lo <= b < hi,
    ensures
        s.update(a, s[b]).update(b, s[a]).subrange(lo, hi).to_multiset() == s.subrange(
            lo,
            hi,
        ).to_multiset(),
{
    broadcast use vstd::seq_lib::group_to_multiset_ensures;
    broadcast use vstd::multiset::group_multiset_axioms;

    let sub = s.subrange(lo, hi);
    let t = s.update(a, s[b]).update(b, s[a]);
    if a == b {
        assert(t.subrange(lo, hi) =~= sub);
    } else {
        assert(t.subrange(lo, hi) =~= sub.update(a - lo, s[b]).update(b - lo, s[a]));
        to_multiset_update(sub, a - lo, s[b]);
        to_multiset_update(sub.update(a - lo, s[b]), b - lo, s[a]);
        assert(sub.update(a - lo, s[b])[b - lo] == s[b]);
        assert(sub[a - lo] == s[a]);
        assert(sub.update(a - lo, s[b]).update(b - lo, s[a]).to_multiset() =~= sub.to_multiset());
    }
}

/// Partitions the index range `[l, h]` around the value at `h`: after the
/// call, everything in `[l, p]` is at most the pivot, which sits at `p`,
/// and everything in `(p, h]` is greater.
pub fn partition(array: &mut Vec<u64>, l: isize, h: isize) -> (p: isize)
    requires
        0 <= l <= h < old(array)@.len(),
        old(array)@.len() <= isize::MAX,
    ensures
        final(array)@.len() == old(array)@.len(),
        l <= p <= h,
        forall|k: int| 0 <= k < l ==> final(array)@[k] == old(array)@[k],
        forall|k: int| h < k < final(array)@.len() ==> final(array)@[k] == old(array)@[k],
        final(array)@.subrange(l as int, h + 1).to_multiset() == old(array)@.subrange(
            l as int,
            h + 1,
        ).to_multiset(),
        forall|k: int| l <= k <= p ==> final(array)@[k] <= final(array)@[p as int],
        forall|k: int| p < k <= h ==> final(array)@[k] > final(array)@[p as int],
{
    let pivot = array[h as usize];
    let mut i: isize = l - 1;
    let mut j: isize = l;
    while j < h
        invariant
            0 <= l <= h < array@.len(),
            array@.len() == old(array)@.len(),
            array@.len() <= isize::MAX,
            l - 1 <= i < j <= h,
            pivot == array@[h as int],
            forall|k: int| 0 <= k < l ==> array@[k] == old(array)@[k],
            forall|k: int| h < k < array@.len() ==> array@[k] == old(array)@[k],
            array@.subrange(l as int, h + 1).to_multiset() == old(array)@.subrange(
                l as int,
                h + 1,
            ).to_multiset(),
            forall|k: int| l <= k <= i ==> array@[k] <= pivot,
            forall|k: int| i < k < j ==> array@[k] > pivot,
        decreases h - j,
    {
        if array[j as usize] <= pivot {
            i = i + 1;
            let ghost before = array@;
            swap_at(array, i as usize, j as usize);
            proof {
                lemma_swap_subrange_multiset(before, l as int, h + 1, i as int, j as int);
            }
        }
        j = j + 1;
    }
    let ghost before = array@;
    swap_at(array, (i + 1) as usize, h as usize);
    proof {
        lemma_swap_subrange_multiset(before, l as int, h + 1, i + 1, h as int);
    }
    i + 1
}

} // verus!
