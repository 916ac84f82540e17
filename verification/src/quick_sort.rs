//! In-place quicksort over a subrange of a vector, with the pivot taken from
//! the right end of the range.
//!
//! [`quick_sort`] consumes a non-empty vector and returns it sorted: the
//! result is ascending and holds exactly the elements of the input, with
//! multiplicity.  [`partition`] and [`quick_sort_recursive`] expose the two
//! classical building blocks on an explicit `[left_index, right_index]`
//! window; both leave everything outside the window untouched.

use vstd::prelude::*;
use vstd::multiset::Multiset;
use vstd::seq_lib::group_to_multiset_ensures;
use vstd::pervasive::VecAdditionalExecFns;

verus! {

broadcast use group_to_multiset_ensures, vstd::multiset::group_multiset_axioms;

/// The elements of `s` between `lo` and `hi`, both inclusive, are ascending.
pub open spec fn sorted_between(s: Seq<i32>, lo: int, hi: int) -> bool {
    forall|i: int, j: int| lo <= i <= j <= hi ==> s[i] <= s[j]
}

/// The whole sequence is ascending.
pub open spec fn sorted(s: Seq<i32>) -> bool {
    forall|i: int, j: int| 0 <= i <= j < s.len() ==> s[i] <= s[j]
}

/// Exchanging two positions permutes a sequence: the multiset of elements is
/// unchanged.
proof fn lemma_swap_preserves_multiset(s: Seq<i32>, i: int, j: int)
    requires
        0 <= i < s.len(),
        0 <= j < s.len(),
    ensures
        s.update(i, s[j]).update(j, s[i]).to_multiset() == s.to_multiset(),
{
    if i == j {
        assert(s.update(i, s[j]).update(j, s[i]) =~= s);
    } else {
        let s1 = s.update(i, s[j]);
        assert(s1[j] == s[j]);
        assert(s.contains(s[i]));
        assert(s1.update(j, s[i]).to_multiset() =~= s.to_multiset());
    }
}

/// A swap inside the window `[lo, hi)` permutes the window and leaves its
/// length alone.
proof fn lemma_swap_in_window(s: Seq<i32>, lo: int, hi: int, i: int, j: int)
    requires
        0 <= lo <= i < hi <= s.len(),
        lo <= j < hi,
    ensures
        s.update(i, s[j]).update(j, s[i]).subrange(lo, hi).to_multiset() == s.subrange(
            lo,
            hi,
        ).to_multiset(),
{
    let w = s.subrange(lo, hi);
    assert(s.update(i, s[j]).update(j, s[i]).subrange(lo, hi) =~= w.update(i - lo, w[j - lo]).update(
        j - lo,
        w[i - lo],
    ));
    lemma_swap_preserves_multiset(w, i - lo, j - lo);
}

/// If two sequences hold the same elements, every bound satisfied by all
/// elements of the first is satisfied by all elements of the second.
proof fn lemma_multiset_keeps_bounds(a: Seq<i32>, b: Seq<i32>, k: int)
    requires
        a.to_multiset() == b.to_multiset(),
        0 <= k < b.len(),
    ensures
        a.contains(b[k]),
{
    assert(b.contains(b[k]));
    assert(b.to_multiset().count(b[k]) > 0);
}

/// Exchanges the elements at `i` and `j`.
fn swap_in_vec(input: &mut Vec<i32>, i: usize, j: usize)
    requires
        i < old(input)@.len(),
        j < old(input)@.len(),
    ensures
        final(input)@ == old(input)@.update(i as int, old(input)@[j as int]).update(
            j as int,
            old(input)@[i as int],
        ),
{
    let vi = input[i];
    let vj = input[j];
    input.set(i, vj);
    input.set(j, vi);
}

/// Lomuto partition of the window `[left_index, right_index]`, with the
/// pivot value taken from `right_index`.  Returns the pivot's final
/// position: everything left of it in the window is strictly smaller,
/// everything right of it is at least as large, and the window is permuted
/// in place while the rest of the vector stays as it was.
pub fn partition(input: &mut Vec<i32>, left_index: usize, right_index: usize) -> (p: usize)
    requires
        left_index <= right_index < old(input)@.len(),
    ensures
        left_index <= p <= right_index,
        final(input)@.len() == old(input)@.len(),
        forall|k: int|
            0 <= k < old(input)@.len() && !(left_index <= k <= right_index) ==> final(input)@[k]
                == old(input)@[k],
        final(input)@.subrange(left_index as int, right_index + 1).to_multiset() == old(
            input,
        )@.subrange(left_index as int, right_index + 1).to_multiset(),
        forall|k: int| left_index <= k < p ==> final(input)@[k] < final(input)@[p as int],
        forall|k: int| p < k <= right_index ==> final(input)@[k] >= final(input)@[p as int],
{
    let ghost lo = left_index as int;
    let ghost hi = right_index + 1;
    let pivot_value = input[right_index];
    let mut temp_pivot_index = left_index;
    let mut index = left_index;
    while index < right_index
        invariant
            lo == left_index as int,
            hi == right_index + 1,
            left_index <= temp_pivot_index <= index <= right_index < input@.len(),
            input@.len() == old(input)@.len(),
            input@[right_index as int] == pivot_value,
            forall|k: int|
                0 <= k < input@.len() && !(lo <= k < hi) ==> input@[k] == old(input)@[k],
            input@.subrange(lo, hi).to_multiset() == old(input)@.subrange(lo, hi).to_multiset(),
            forall|k: int| lo <= k < temp_pivot_index ==> input@[k] < pivot_value,
            forall|k: int| temp_pivot_index <= k < index ==> input@[k] >= pivot_value,
        decreases right_index - index,
    {
        if input[index] < pivot_value {
            proof {
                lemma_swap_in_window(input@, lo, hi, temp_pivot_index as int, index as int);
            }
            swap_in_vec(input, temp_pivot_index, index);
            temp_pivot_index = temp_pivot_index + 1;
        }
        index = index + 1;
    }
    if input[temp_pivot_index] > pivot_value {
        proof {
            lemma_swap_in_window(input@, lo, hi, temp_pivot_index as int, right_index as int);
        }
        swap_in_vec(input, temp_pivot_index, right_index);
    }
    temp_pivot_index
}

/// Sorts the window `[left_index, right_index]` in place: afterwards the
/// window is ascending and holds the same elements it held before, and
/// nothing outside it has moved.
pub fn quick_sort_recursive(input: &mut Vec<i32>, left_index: usize, right_index: usize)
    requires
        left_index <= right_index < old(input)@.len(),
    ensures
        final(input)@.len() == old(input)@.len(),
        forall|k: int|
            0 <= k < old(input)@.len() && !(left_index <= k <= right_index) ==> final(input)@[k]
                == old(input)@[k],
        final(input)@.subrange(left_index as int, right_index + 1).to_multiset() == old(
            input,
        )@.subrange(left_index as int, right_index + 1).to_multiset(),
        sorted_between(final(input)@, left_index as int, right_index as int),
    decreases right_index - left_index,
{
    let ghost lo = left_index as int;
    let ghost hi = right_index + 1;
    let partition_index = partition(input, left_index, right_index);
    let ghost mid = input@;

    if (partition_index > 1) && (partition_index - 1 > left_index) {
        quick_sort_recursive(input, left_index, partition_index - 1);
        proof {
            lemma_frame_right(mid, input@, lo, partition_index as int, hi);
        }
    }
    let ghost mid2 = input@;

    if right_index - partition_index > 1 {
        quick_sort_recursive(input, partition_index + 1, right_index);
        proof {
            lemma_frame_left(mid2, input@, lo, partition_index as int, hi);
        }
    }

    proof {
        lemma_quick_sort_combine(
            mid,
            mid2,
            input@,
            lo,
            partition_index as int,
            right_index as int,
        );
    }
}

/// After sorting only the left part `[lo, p)`, the window's multiset is
/// still that of `mid`, because the left part was permuted and the rest not
/// touched.
proof fn lemma_frame_right(mid: Seq<i32>, now: Seq<i32>, lo: int, p: int, hi: int)
    requires
        0 <= lo < p < hi <= mid.len(),
        now.len() == mid.len(),
        forall|k: int| 0 <= k < mid.len() && !(lo <= k <= p - 1) ==> now[k] == mid[k],
        now.subrange(lo, p).to_multiset() == mid.subrange(lo, p).to_multiset(),
    ensures
        now.subrange(lo, hi).to_multiset() == mid.subrange(lo, hi).to_multiset(),
{
    assert(now.subrange(lo, hi) =~= now.subrange(lo, p) + now.subrange(p, hi));
    assert(mid.subrange(lo, hi) =~= mid.subrange(lo, p) + mid.subrange(p, hi));
    assert(now.subrange(p, hi) =~= mid.subrange(p, hi));
    lemma_to_multiset_add(now.subrange(lo, p), now.subrange(p, hi));
    lemma_to_multiset_add(mid.subrange(lo, p), mid.subrange(p, hi));
}

/// After sorting only the right part `(p, hi)`, the window's multiset is
/// still that of `mid`.
proof fn lemma_frame_left(mid: Seq<i32>, now: Seq<i32>, lo: int, p: int, hi: int)
    requires
        0 <= lo <= p < hi - 1,
        hi <= mid.len(),
        now.len() == mid.len(),
        forall|k: int| 0 <= k < mid.len() && !(p + 1 <= k <= hi - 1) ==> now[k] == mid[k],
        now.subrange(p + 1, hi).to_multiset() == mid.subrange(p + 1, hi).to_multiset(),
    ensures
        now.subrange(lo, hi).to_multiset() == mid.subrange(lo, hi).to_multiset(),
{
    assert(now.subrange(lo, hi) =~= now.subrange(lo, p + 1) + now.subrange(p + 1, hi));
    assert(mid.subrange(lo, hi) =~= mid.subrange(lo, p + 1) + mid.subrange(p + 1, hi));
    assert(now.subrange(lo, p + 1) =~= mid.subrange(lo, p + 1));
    lemma_to_multiset_add(now.subrange(lo, p + 1), now.subrange(p + 1, hi));
    lemma_to_multiset_add(mid.subrange(lo, p + 1), mid.subrange(p + 1, hi));
}

/// `to_multiset` distributes over concatenation.
proof fn lemma_to_multiset_add(a: Seq<i32>, b: Seq<i32>)
    ensures
        (a + b).to_multiset() == a.to_multiset().add(b.to_multiset()),
    decreases b.len(),
{
    if b.len() == 0 {
        assert(a + b =~= a);
        assert(b.to_multiset() =~= Multiset::<i32>::empty());
        assert((a + b).to_multiset() =~= a.to_multiset().add(b.to_multiset()));
    } else {
        lemma_to_multiset_add(a, b.drop_last());
        assert(a + b =~= (a + b.drop_last()).push(b.last()));
        assert(b =~= b.drop_last().push(b.last()));
        assert((a + b).to_multiset() =~= a.to_multiset().add(b.to_multiset()));
    }
}

/// Stitches the two recursively sorted parts and the pivot together: the
/// whole window `[lo, r]` is sorted, given that the parts kept their bags of
/// elements and the partition bounds held of `mid`.
proof fn lemma_quick_sort_combine(mid: Seq<i32>, mid2: Seq<i32>, now: Seq<i32>, lo: int, p: int, r: int)
    requires
        0 <= lo <= p <= r < mid.len(),
        mid2.len() == mid.len(),
        now.len() == mid.len(),
        // partition bounds on mid
        forall|k: int| lo <= k < p ==> mid[k] < mid[p],
        forall|k: int| p < k <= r ==> mid[k] >= mid[p],
        // left recursion: mid -> mid2
        forall|k: int| 0 <= k < mid.len() && !(lo <= k <= p - 1) ==> mid2[k] == mid[k],
        mid2.subrange(lo, p).to_multiset() == mid.subrange(lo, p).to_multiset(),
        sorted_between(mid2, lo, p - 1),
        // right recursion: mid2 -> now
        forall|k: int| 0 <= k < mid.len() && !(p + 1 <= k <= r) ==> now[k] == mid2[k],
        now.subrange(p + 1, r + 1).to_multiset() == mid2.subrange(p + 1, r + 1).to_multiset(),
        sorted_between(now, p + 1, r),
    ensures
        sorted_between(now, lo, r),
{
    assert(now[p] == mid[p]);
    assert(forall|k: int| lo <= k < p ==> now[k] == mid2[k]);
    assert(mid2.subrange(p + 1, r + 1) =~= mid.subrange(p + 1, r + 1));
    assert forall|k: int| lo <= k < p implies now[k] < now[p] by {
        lemma_multiset_keeps_bounds(mid.subrange(lo, p), mid2.subrange(lo, p), k - lo);
        let v = mid2.subrange(lo, p)[k - lo];
        let i = choose|i: int|
            #![trigger mid.subrange(lo, p)[i]]
            0 <= i < p - lo && mid.subrange(lo, p)[i] == v;
        assert(mid[lo + i] == v);
    }
    assert forall|k: int| p < k <= r implies now[k] >= now[p] by {
        lemma_multiset_keeps_bounds(
            mid2.subrange(p + 1, r + 1),
            now.subrange(p + 1, r + 1),
            k - (p + 1),
        );
        let v = now.subrange(p + 1, r + 1)[k - (p + 1)];
        let i = choose|i: int|
            #![trigger mid2.subrange(p + 1, r + 1)[i]]
            0 <= i < r - p && mid2.subrange(p + 1, r + 1)[i] == v;
        assert(mid[p + 1 + i] == v);
    }
    assert(sorted_between(mid2, lo, p - 1));
    assert(forall|k: int| lo <= k <= p - 1 ==> now[k] == mid2[k]);
}

/// Sorts a non-empty vector ascending.  The result holds exactly the
/// elements of the input, with multiplicity.
pub fn quick_sort(input: Vec<i32>) -> (r: Vec<i32>)
    requires
        input@.len() >= 1,
    ensures
        sorted(r@),
        r@.to_multiset() == input@.to_multiset(),
{
    let mut input = input;
    let input_len = input.len();
    let ghost orig = input@;
    quick_sort_recursive(&mut input, 0, input_len - 1);
    proof {
        assert(input@.subrange(0, orig.len() as int) =~= input@);
        assert(orig.subrange(0, orig.len() as int) =~= orig);
    }
    input
}

} // verus!
