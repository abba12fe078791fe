//! In-place sorting of `i32` slices into ascending order.
use vstd::prelude::*;
use vstd::multiset::Multiset;

verus! {

broadcast use vstd::seq_lib::group_to_multiset_ensures;

/// Ascending between positions `lo` (included) and `hi` (excluded).
pub open spec fn sorted_between(s: Seq<i32>, lo: int, hi: int) -> bool {
    forall|a: int, b: int| lo <= a < b < hi ==> s[a] <= s[b]
}

/// Ascending throughout.
pub open spec fn sorted(s: Seq<i32>) -> bool {
    sorted_between(s, 0, s.len() as int)
}

/// `t` holds the same values as `s`, each as often.
pub open spec fn permutes(s: Seq<i32>, t: Seq<i32>) -> bool {
    s.to_multiset() == t.to_multiset()
}

proof fn lemma_swap_permutes(s: Seq<i32>, i: int, j: int)
    requires
        0 <= i < s.len(),
        0 <= j < s.len(),
    ensures
        permutes(s.update(i, s[j]).update(j, s[i]), s),
{
    broadcast use vstd::seq_lib::to_multiset_update;
    broadcast use vstd::multiset::group_multiset_axioms;

    let t = s.update(i, s[j]);
    assert(t[j] == s[j]);
    assert(t.update(j, s[i]).to_multiset() =~= s.to_multiset());
}

/// Swaps the values at `i` and `j`.
fn swap(arr: &mut [i32], i: usize, j: usize)
    requires
        i < old(arr)@.len(),
        j < old(arr)@.len(),
    ensures
        final(arr)@ == old(arr)@.update(i as int, old(arr)@[j as int]).update(j as int, old(arr)@[i as int]),
        permutes(final(arr)@, old(arr)@),
{
    proof {
        lemma_swap_permutes(old(arr)@, i as int, j as int);
    }
    let a = arr[i];
    let b = arr[j];
    arr[i] = b;
    arr[j] = a;
}

/// Sorts by repeatedly swapping neighbours that are out of order, each
/// pass carrying the largest remaining value to the end.
pub fn bubble_sort(arr: &mut [i32])
    ensures
        final(arr)@.len() == old(arr)@.len(),
        sorted(final(arr)@),
        permutes(final(arr)@, old(arr)@),
{
    let n = arr.len();
    let mut i: usize = 0;
    while i < n
        invariant
            n == arr@.len(),
            0 <= i <= n,
            permutes(arr@, old(arr)@),
            sorted_between(arr@, n - i, n as int),
            forall|a: int, b: int| 0 <= a < n - i <= b < n ==> arr@[a] <= arr@[b],
        decreases n - i,
    {
        let mut j: usize = 0;
        while j < n - i - 1
            invariant
                n == arr@.len(),
                0 <= i < n,
                0 <= j <= n - i - 1,
                permutes(arr@, old(arr)@),
                sorted_between(arr@, n - i, n as int),
                forall|a: int, b: int| 0 <= a < n - i <= b < n ==> arr@[a] <= arr@[b],
                forall|a: int| 0 <= a <= j ==> arr@[a] <= arr@[j as int],
            decreases n - i - 1 - j,
        {
            if arr[j] > arr[j + 1] {
                swap(arr, j, j + 1);
            }
            j = j + 1;
        }
        i = i + 1;
    }
}

/// Sorts by moving the smallest remaining value to the front, position by
/// position.
pub fn selection_sort(arr: &mut [i32])
    ensures
        final(arr)@.len() == old(arr)@.len(),
        sorted(final(arr)@),
        permutes(final(arr)@, old(arr)@),
{
    let n = arr.len();
    let mut i: usize = 0;
    while i < n
        invariant
            n == arr@.len(),
            0 <= i <= n,
            permutes(arr@, old(arr)@),
            sorted_between(arr@, 0, i as int),
            forall|a: int, b: int| 0 <= a < i <= b < n ==> arr@[a] <= arr@[b],
        decreases n - i,
    {
        let mut min_index: usize = i;
        let mut j: usize = i + 1;
        while j < n
            invariant
                n == arr@.len(),
                0 <= i < n,
                i <= min_index < n,
                i + 1 <= j <= n,
                forall|a: int| i <= a < j ==> arr@[min_index as int] <= arr@[a],
            decreases n - j,
        {
            if arr[j] < arr[min_index] {
                min_index = j;
            }
            j = j + 1;
        }
        swap(arr, i, min_index);
        i = i + 1;
    }
}

/// One insertion pass with stride `gap`: each value moves back past the
/// larger values `gap` places before it. With stride 1 the result is sorted.
fn gap_insertion(arr: &mut [i32], gap: usize)
    requires
        gap >= 1,
    ensures
        final(arr)@.len() == old(arr)@.len(),
        permutes(final(arr)@, old(arr)@),
        gap == 1 ==> sorted(final(arr)@),
{
    let n = arr.len();
    let mut i: usize = gap;
    while i < n
        invariant
            n == arr@.len(),
            gap >= 1,
            gap <= i || n <= i,
            permutes(arr@, old(arr)@),
            gap == 1 ==> sorted_between(arr@, 0, if i < n { i as int } else { n as int }),
        decreases n - i,
    {
        let mut j: usize = i;
        while j >= gap && arr[j - gap] > arr[j]
            invariant
                n == arr@.len(),
                gap >= 1,
                i < n,
                j <= i,
                permutes(arr@, old(arr)@),
                gap == 1 ==> forall|a: int, b: int|
                    0 <= a < b <= i && a != j && b != j ==> arr@[a] <= arr@[b],
                gap == 1 ==> forall|b: int| j < b <= i ==> arr@[j as int] < arr@[b],
            decreases j,
        {
            swap(arr, j - gap, j);
            j = j - gap;
        }
        proof {
            if gap == 1 {
                assert forall|a: int, b: int| 0 <= a < b < i + 1 implies arr@[a] <= arr@[b] by {
                    if b == j && a < j - 1 {
                        assert(arr@[a] <= arr@[j - 1]);
                    }
                }
            }
        }
        i = i + 1;
    }
}

/// Sorts by inserting each value into the sorted part before it.
pub fn insertion_sort(arr: &mut [i32])
    ensures
        final(arr)@.len() == old(arr)@.len(),
        sorted(final(arr)@),
        permutes(final(arr)@, old(arr)@),
{
    gap_insertion(arr, 1);
}

/// Shell's sort: insertion passes with strides `n / 2`, `n / 4`, ..., 1.
pub fn shell_sort(arr: &mut [i32])
    ensures
        final(arr)@.len() == old(arr)@.len(),
        sorted(final(arr)@),
        permutes(final(arr)@, old(arr)@),
{
    let n = arr.len();
    let mut gap: usize = n / 2;
    while gap > 0
        invariant
            n == arr@.len(),
            gap <= n,
            permutes(arr@, old(arr)@),
            gap == 0 ==> sorted(arr@),
        decreases gap,
    {
        gap_insertion(arr, gap);
        gap = gap / 2;
    }
}

/// Every value of `s` is below `bound` (`below`) or at least `bound`.
pub open spec fn all_below(s: Seq<i32>, bound: i32) -> bool {
    forall|k: int| 0 <= k < s.len() ==> s[k] < bound
}

pub open spec fn all_at_least(s: Seq<i32>, bound: i32) -> bool {
    forall|k: int| 0 <= k < s.len() ==> s[k] >= bound
}

proof fn lemma_permutes_bounds(s: Seq<i32>, t: Seq<i32>, bound: i32)
    requires
        permutes(s, t),
    ensures
        all_below(t, bound) ==> all_below(s, bound),
        all_at_least(t, bound) ==> all_at_least(s, bound),
{
    assert forall|k: int| 0 <= k < s.len() implies t.contains(#[trigger] s[k]) by {
        assert(s.contains(s[k]));
        assert(s.to_multiset().count(s[k]) > 0);
        assert(t.to_multiset().count(s[k]) > 0);
    }
    if all_below(t, bound) {
        assert forall|k: int| 0 <= k < s.len() implies s[k] < bound by {
            assert(t.contains(s[k]));
        }
    }
    if all_at_least(t, bound) {
        assert forall|k: int| 0 <= k < s.len() implies s[k] >= bound by {
            assert(t.contains(s[k]));
        }
    }
}

/// Swaps positions `i` and `j` of the range `[lo, hi)`.
fn swap_in(arr: &mut [i32], lo: usize, hi: usize, i: usize, j: usize)
    requires
        lo <= i < hi,
        lo <= j < hi,
        hi <= old(arr)@.len(),
    ensures
        final(arr)@ == old(arr)@.update(i as int, old(arr)@[j as int]).update(j as int, old(arr)@[i as int]),
        final(arr)@.len() == old(arr)@.len(),
        permutes(final(arr)@.subrange(lo as int, hi as int), old(arr)@.subrange(lo as int, hi as int)),
{
    let ghost sub = old(arr)@.subrange(lo as int, hi as int);
    swap(arr, i, j);
    proof {
        lemma_swap_permutes(sub, i - lo, j - lo);
        assert(arr@.subrange(lo as int, hi as int) =~= sub.update(i - lo, sub[j - lo]).update(j - lo, sub[i - lo]));
    }
}

/// Lomuto partition of `[lo, hi)` around its last value: returns where that
/// value ends up, with smaller values before it and the others after.
fn partition(arr: &mut [i32], lo: usize, hi: usize) -> (p: usize)
    requires
        lo < hi <= old(arr)@.len(),
    ensures
        lo <= p < hi,
        final(arr)@.len() == old(arr)@.len(),
        forall|k: int| 0 <= k < old(arr)@.len() && !(lo <= k < hi) ==> final(arr)@[k] == old(arr)@[k],
        permutes(final(arr)@.subrange(lo as int, hi as int), old(arr)@.subrange(lo as int, hi as int)),
        forall|k: int| lo <= k < p ==> final(arr)@[k] < final(arr)@[p as int],
        forall|k: int| p < k < hi ==> final(arr)@[k] >= final(arr)@[p as int],
{
    let pivot = arr[hi - 1];
    let mut i: usize = lo;
    let mut j: usize = lo;
    while j < hi - 1
        invariant
            lo <= i <= j <= hi - 1,
            hi <= arr@.len(),
            arr@.len() == old(arr)@.len(),
            arr@[hi - 1] == pivot,
            forall|k: int| 0 <= k < old(arr)@.len() && !(lo <= k < hi) ==> arr@[k] == old(arr)@[k],
            permutes(arr@.subrange(lo as int, hi as int), old(arr)@.subrange(lo as int, hi as int)),
            forall|k: int| lo <= k < i ==> arr@[k] < pivot,
            forall|k: int| i <= k < j ==> arr@[k] >= pivot,
        decreases hi - 1 - j,
    {
        if arr[j] < pivot {
            swap_in(arr, lo, hi, i, j);
            i = i + 1;
        }
        j = j + 1;
    }
    swap_in(arr, lo, hi, i, hi - 1);
    i
}

fn quick_sort_range(arr: &mut [i32], lo: usize, hi: usize)
    requires
        lo <= hi <= old(arr)@.len(),
    ensures
        final(arr)@.len() == old(arr)@.len(),
        forall|k: int| 0 <= k < old(arr)@.len() && !(lo <= k < hi) ==> final(arr)@[k] == old(arr)@[k],
        permutes(final(arr)@.subrange(lo as int, hi as int), old(arr)@.subrange(lo as int, hi as int)),
        sorted_between(final(arr)@, lo as int, hi as int),
    decreases hi - lo,
{
    if hi - lo <= 1 {
        return;
    }
    let p = partition(arr, lo, hi);
    let ghost mid = arr@;
    let ghost pivot = arr@[p as int];
    proof {
        assert(all_below(mid.subrange(lo as int, p as int), pivot));
        assert(all_at_least(mid.subrange(p + 1, hi as int), pivot));
    }
    quick_sort_range(arr, lo, p);
    let ghost left = arr@;
    quick_sort_range(arr, p + 1, hi);
    proof {
        let fin = arr@;
        assert(left.subrange(p + 1, hi as int) =~= mid.subrange(p + 1, hi as int));
        assert(fin.subrange(lo as int, p as int) =~= left.subrange(lo as int, p as int));
        lemma_permutes_bounds(fin.subrange(lo as int, p as int), mid.subrange(lo as int, p as int), pivot);
        lemma_permutes_bounds(fin.subrange(p + 1, hi as int), mid.subrange(p + 1, hi as int), pivot);
        assert(fin[p as int] == pivot);
        assert forall|a: int, b: int| lo <= a < b < hi implies fin[a] <= fin[b] by {
            if a < p {
                assert(fin.subrange(lo as int, p as int)[a - lo] < pivot);
            }
            if b > p {
                assert(fin.subrange(p + 1, hi as int)[b - p - 1] >= pivot);
            }
        }
        let whole_mid = mid.subrange(lo as int, hi as int);
        let whole_fin = fin.subrange(lo as int, hi as int);
        assert(whole_mid =~= mid.subrange(lo as int, p as int) + seq![pivot] + mid.subrange(p + 1, hi as int));
        assert(whole_fin =~= fin.subrange(lo as int, p as int) + seq![pivot] + fin.subrange(p + 1, hi as int));
        vstd::seq_lib::lemma_multiset_commutative(
            fin.subrange(lo as int, p as int) + seq![pivot],
            fin.subrange(p + 1, hi as int),
        );
        vstd::seq_lib::lemma_multiset_commutative(fin.subrange(lo as int, p as int), seq![pivot]);
        vstd::seq_lib::lemma_multiset_commutative(
            mid.subrange(lo as int, p as int) + seq![pivot],
            mid.subrange(p + 1, hi as int),
        );
        vstd::seq_lib::lemma_multiset_commutative(mid.subrange(lo as int, p as int), seq![pivot]);
    }
}

/// Quicksort: partition around the last value, then sort both sides.
pub fn quick_sort(arr: &mut [i32])
    ensures
        final(arr)@.len() == old(arr)@.len(),
        sorted(final(arr)@),
        permutes(final(arr)@, old(arr)@),
{
    let n = arr.len();
    quick_sort_range(arr, 0, n);
    proof {
        assert(arr@.subrange(0, n as int) =~= arr@);
        assert(old(arr)@.subrange(0, n as int) =~= old(arr)@);
    }
}

/// Capacity of the merge buffer.
pub const MERGE_CAPACITY: usize = 256;

/// Merges the sorted ranges `[lo, mid)` and `[mid, hi)` through `temp`.
fn merge(arr: &mut [i32], lo: usize, mid: usize, hi: usize, temp: &mut [i32; MERGE_CAPACITY])
    requires
        lo <= mid <= hi <= old(arr)@.len(),
        hi - lo <= MERGE_CAPACITY,
        sorted_between(old(arr)@, lo as int, mid as int),
        sorted_between(old(arr)@, mid as int, hi as int),
    ensures
        final(arr)@.len() == old(arr)@.len(),
        forall|k: int| 0 <= k < old(arr)@.len() && !(lo <= k < hi) ==> final(arr)@[k] == old(arr)@[k],
        permutes(final(arr)@.subrange(lo as int, hi as int), old(arr)@.subrange(lo as int, hi as int)),
        sorted_between(final(arr)@, lo as int, hi as int),
{
    broadcast use vstd::seq_lib::to_multiset_build;
    broadcast use vstd::seq_lib::lemma_multiset_commutative;

    let ghost a = arr@;
    let mut i: usize = lo;
    let mut j: usize = mid;
    let mut k: usize = 0;
    while i < mid || j < hi
        invariant
            arr@ == a,
            lo <= i <= mid <= j <= hi <= a.len(),
            hi - lo <= MERGE_CAPACITY,
            k == (i - lo) + (j - mid),
            sorted_between(a, lo as int, mid as int),
            sorted_between(a, mid as int, hi as int),
            sorted_between(temp@, 0, k as int),
            temp@.subrange(0, k as int).to_multiset() == a.subrange(lo as int, i as int).to_multiset().add(
                a.subrange(mid as int, j as int).to_multiset(),
            ),
            k > 0 && i < mid ==> temp@[k - 1] <= a[i as int],
            k > 0 && j < hi ==> temp@[k - 1] <= a[j as int],
        decreases (mid - i) + (hi - j),
    {
        let ghost before = temp@.subrange(0, k as int);
        if j >= hi || (i < mid && arr[i] <= arr[j]) {
            temp[k] = arr[i];
            proof {
                assert(temp@.subrange(0, k + 1) =~= before.push(a[i as int]));
                assert(a.subrange(lo as int, i + 1) =~= a.subrange(lo as int, i as int).push(a[i as int]));
            }
            i = i + 1;
        } else {
            temp[k] = arr[j];
            proof {
                assert(temp@.subrange(0, k + 1) =~= before.push(a[j as int]));
                assert(a.subrange(mid as int, j + 1) =~= a.subrange(mid as int, j as int).push(a[j as int]));
            }
            j = j + 1;
        }
        k = k + 1;
    }
    let n = hi - lo;
    let mut t: usize = 0;
    while t < n
        invariant
            n == hi - lo,
            k == n,
            lo <= mid <= hi <= a.len(),
            arr@.len() == a.len(),
            0 <= t <= n,
            n <= MERGE_CAPACITY,
            forall|q: int| 0 <= q < a.len() && !(lo <= q < lo + t) ==> arr@[q] == a[q],
            forall|q: int| 0 <= q < t ==> arr@[lo + q] == temp@[q],
            sorted_between(temp@, 0, n as int),
        decreases n - t,
    {
        arr[lo + t] = temp[t];
        t = t + 1;
    }
    proof {
        assert(arr@.subrange(lo as int, hi as int) =~= temp@.subrange(0, n as int));
        assert forall|x: int, y: int| lo <= x < y < hi implies arr@[x] <= arr@[y] by {
            assert(arr@[x] == temp@[x - lo] && arr@[y] == temp@[y - lo]);
        }
        assert(a.subrange(lo as int, hi as int) =~= a.subrange(lo as int, mid as int) + a.subrange(mid as int, hi as int));
        assert(a.subrange(lo as int, mid as int) == a.subrange(lo as int, i as int));
        assert(a.subrange(mid as int, hi as int) == a.subrange(mid as int, j as int));
    }
}

fn merge_sort_range(arr: &mut [i32], lo: usize, hi: usize)
    requires
        lo <= hi <= old(arr)@.len(),
        hi - lo <= MERGE_CAPACITY,
    ensures
        final(arr)@.len() == old(arr)@.len(),
        forall|k: int| 0 <= k < old(arr)@.len() && !(lo <= k < hi) ==> final(arr)@[k] == old(arr)@[k],
        permutes(final(arr)@.subrange(lo as int, hi as int), old(arr)@.subrange(lo as int, hi as int)),
        sorted_between(final(arr)@, lo as int, hi as int),
    decreases hi - lo,
{
    broadcast use vstd::seq_lib::lemma_multiset_commutative;

    let n = hi - lo;
    if n <= 1 {
        return;
    }
    let mid = lo + n / 2;
    let mut temp = [0i32; MERGE_CAPACITY];
    let ghost a0 = arr@;
    merge_sort_range(arr, lo, mid);
    let ghost a1 = arr@;
    merge_sort_range(arr, mid, hi);
    let ghost a2 = arr@;
    proof {
        assert(a2.subrange(lo as int, mid as int) =~= a1.subrange(lo as int, mid as int));
        assert(a1.subrange(mid as int, hi as int) =~= a0.subrange(mid as int, hi as int));
        assert forall|x: int, y: int| lo <= x < y < mid implies a2[x] <= a2[y] by {
            assert(a2[x] == a1[x] && a2[y] == a1[y]);
        }
        assert(a0.subrange(lo as int, hi as int) =~= a0.subrange(lo as int, mid as int) + a0.subrange(mid as int, hi as int));
        assert(a2.subrange(lo as int, hi as int) =~= a2.subrange(lo as int, mid as int) + a2.subrange(mid as int, hi as int));
    }
    merge(arr, lo, mid, hi, &mut temp);
}

/// Merge sort: sort both halves, then merge them through a buffer of 256
/// values, which bounds the length.
pub fn merge_sort(arr: &mut [i32])
    requires
        old(arr)@.len() <= MERGE_CAPACITY,
    ensures
        final(arr)@.len() == old(arr)@.len(),
        sorted(final(arr)@),
        permutes(final(arr)@, old(arr)@),
{
    let n = arr.len();
    merge_sort_range(arr, 0, n);
    proof {
        assert(arr@.subrange(0, n as int) =~= arr@);
        assert(old(arr)@.subrange(0, n as int) =~= old(arr)@);
    }
}

/// Every value of `s` is at most `bound`.
pub open spec fn all_at_most(s: Seq<i32>, bound: i32) -> bool {
    forall|k: int| 0 <= k < s.len() ==> s[k] <= bound
}

proof fn lemma_permutes_at_most(s: Seq<i32>, t: Seq<i32>, bound: i32)
    requires
        permutes(s, t),
        all_at_most(t, bound),
    ensures
        all_at_most(s, bound),
{
    assert forall|k: int| 0 <= k < s.len() implies s[k] <= bound by {
        assert(s.contains(s[k]));
        assert(s.to_multiset().count(s[k]) > 0);
        assert(t.to_multiset().count(s[k]) > 0);
        assert(t.contains(s[k]));
    }
}

/// Parent of node `k` of a binary heap laid out in an array.
pub open spec fn parent(k: int) -> int {
    (k - 1) / 2
}

/// Max-heap order on nodes `[lo, n)` except node `i`: each node is at least
/// its children below `n`; and node `i`'s children are at most `i`'s parent
/// (when that parent is in range).
pub open spec fn heap_except(s: Seq<i32>, n: int, lo: int, i: int) -> bool {
    &&& forall|k: int, c: int|
        lo <= k < n && k != i && (c == 2 * k + 1 || c == 2 * k + 2) && c < n ==> #[trigger] s[c] <= #[trigger] s[k]
    &&& lo <= parent(i) && 0 < i ==> forall|c: int|
        (c == 2 * i + 1 || c == 2 * i + 2) && c < n ==> #[trigger] s[c] <= s[parent(i)]
}

/// Max-heap order on nodes `[lo, n)`.
pub open spec fn heap(s: Seq<i32>, n: int, lo: int) -> bool {
    forall|k: int, c: int|
        lo <= k < n && (c == 2 * k + 1 || c == 2 * k + 2) && c < n ==> #[trigger] s[c] <= #[trigger] s[k]
}

proof fn lemma_root_is_max(s: Seq<i32>, n: int, k: int)
    requires
        heap(s, n, 0),
        0 <= k < n,
    ensures
        s[k] <= s[0],
    decreases k,
{
    if k > 0 {
        let p = parent(k);
        assert(k == 2 * p + 1 || k == 2 * p + 2);
        assert(s[k] <= s[p]);
        lemma_root_is_max(s, n, p);
    }
}

/// Sifts node `i` down the heap of the first `n` values.
fn heapify(arr: &mut [i32], n: usize, i: usize, lo: Ghost<int>)
    requires
        n <= old(arr)@.len(),
        old(arr)@.len() < usize::MAX / 2,
        0 <= lo@ <= i < n,
        heap_except(old(arr)@, n as int, lo@, i as int),
    ensures
        final(arr)@.len() == old(arr)@.len(),
        heap(final(arr)@, n as int, lo@),
        forall|k: int| 0 <= k < old(arr)@.len() && !(i <= k < n) ==> final(arr)@[k] == old(arr)@[k],
        permutes(final(arr)@.subrange(0, n as int), old(arr)@.subrange(0, n as int)),
    decreases n - i,
{
    let ghost s = arr@;
    let mut largest: usize = i;
    let left: usize = 2 * i + 1;
    let right: usize = 2 * i + 2;
    if left < n && arr[left] > arr[largest] {
        largest = left;
    }
    if right < n && arr[right] > arr[largest] {
        largest = right;
    }
    proof {
        assert(parent(left as int) == i);
        assert(parent(right as int) == i);
    }
    if largest != i {
        swap_in(arr, 0, n, i, largest);
        let ghost t = arr@;
        proof {
            let l = largest as int;
            let ii = i as int;
            assert(s[l] > s[ii]);
            assert(forall|c: int| (c == 2 * ii + 1 || c == 2 * ii + 2) && c < n ==> #[trigger] s[c] <= s[l]);
            assert forall|k: int, c: int|
                lo@ <= k < n && k != l && (c == 2 * k + 1 || c == 2 * k + 2) && c < n implies #[trigger] t[c]
                <= #[trigger] t[k] by {
                if k == ii {
                } else if c == ii {
                    assert(parent(c) == k);
                } else {
                    assert(s[c] <= s[k]);
                }
            }
            assert(parent(l) == ii);
            assert forall|c: int| (c == 2 * l + 1 || c == 2 * l + 2) && c < n implies #[trigger] t[c] <= t[parent(l)] by {
                assert(s[c] <= s[l]);
            }
            assert(heap_except(t, n as int, lo@, l));
        }
        heapify(arr, n, largest, lo);
        proof {
            broadcast use vstd::seq_lib::group_to_multiset_ensures;
        }
    } else {
        proof {
            assert forall|k: int, c: int|
                lo@ <= k < n && (c == 2 * k + 1 || c == 2 * k + 2) && c < n implies #[trigger] s[c]
                <= #[trigger] s[k] by {
                if k != i {
                    assert(s[c] <= s[k]);
                }
            }
        }
    }
}

/// Heap sort: build a max-heap, then repeatedly move its root behind it.
pub fn heap_sort(arr: &mut [i32])
    requires
        old(arr)@.len() < usize::MAX / 2,
    ensures
        final(arr)@.len() == old(arr)@.len(),
        sorted(final(arr)@),
        permutes(final(arr)@, old(arr)@),
{
    let n = arr.len();
    let mut i: usize = n / 2;
    while i > 0
        invariant
            n == arr@.len(),
            n < usize::MAX / 2,
            i <= n / 2,
            heap(arr@, n as int, i as int),
            permutes(arr@, old(arr)@),
        decreases i,
    {
        i = i - 1;
        proof {
            assert(heap_except(arr@, n as int, i as int, i as int));
        }
        let ghost before = arr@;
        heapify(arr, n, i, Ghost(i as int));
        proof {
            assert(before.subrange(0, n as int) =~= before);
            assert(arr@.subrange(0, n as int) =~= arr@);
        }
    }
    let mut end: usize = n;
    while end > 1
        invariant
            n == arr@.len(),
            n < usize::MAX / 2,
            end <= n,
            n > 0 ==> end >= 1,
            heap(arr@, end as int, 0),
            sorted_between(arr@, end as int, n as int),
            forall|a: int, b: int| 0 <= a < end <= b < n ==> arr@[a] <= arr@[b],
            permutes(arr@, old(arr)@),
        decreases end,
    {
        end = end - 1;
        proof {
            assert forall|k: int| 0 <= k < end + 1 implies #[trigger] arr@[k] <= arr@[0] by {
                lemma_root_is_max(arr@, end + 1, k);
            }
        }
        let ghost h0 = arr@;
        swap(arr, 0, end);
        let ghost h1 = arr@;
        proof {
            assert(heap_except(h1, end as int, 0, 0));
            assert(all_at_most(h1.subrange(0, end as int), h1[end as int]));
        }
        heapify(arr, end, 0, Ghost(0int));
        proof {
            let h2 = arr@;
            lemma_permutes_at_most(h2.subrange(0, end as int), h1.subrange(0, end as int), h1[end as int]);
            assert(h2.subrange(end as int, n as int) =~= h1.subrange(end as int, n as int));
            assert forall|a: int, b: int| 0 <= a < end <= b < n implies h2[a] <= h2[b] by {
                assert(h2.subrange(0, end as int)[a] <= h1[end as int]);
                if b > end {
                    assert(h1[end as int] == h0[0]);
                }
            }
            assert(h2 =~= h2.subrange(0, end as int) + h2.subrange(end as int, n as int));
            assert(h1 =~= h1.subrange(0, end as int) + h1.subrange(end as int, n as int));
            vstd::seq_lib::lemma_multiset_commutative(h2.subrange(0, end as int), h2.subrange(end as int, n as int));
            vstd::seq_lib::lemma_multiset_commutative(h1.subrange(0, end as int), h1.subrange(end as int, n as int));
        }
    }
}

/// Slots of the counting buffers.
pub const COUNT_CAPACITY: usize = 256;

/// Occurrences of `v` in `s`.
pub open spec fn occurrences(s: Seq<i32>, v: int) -> nat {
    s.to_multiset().count(v as i32)
}

/// Number of values of `s` from `base` to `base + x` (0 for negative `x`).
pub open spec fn at_most(s: Seq<i32>, base: int, x: int) -> nat
    decreases x + 1,
{
    if x < 0 {
        0
    } else {
        at_most(s, base, x - 1) + occurrences(s, base + x)
    }
}

/// Positions `[lo, hi)` of `s` holding `v`.
pub open spec fn count_in(s: Seq<i32>, v: i32, lo: int, hi: int) -> nat
    decreases hi - lo,
{
    if hi <= lo {
        0
    } else {
        count_in(s, v, lo, hi - 1) + if s[hi - 1] == v {
            1nat
        } else {
            0nat
        }
    }
}

proof fn lemma_count_in_multiset(s: Seq<i32>, v: i32)
    ensures
        count_in(s, v, 0, s.len() as int) == s.to_multiset().count(v),
    decreases s.len(),
{
    if s.len() > 0 {
        let t = s.drop_last();
        lemma_count_in_multiset(t, v);
        assert(s =~= t.push(s.last()));
        lemma_count_in_same(s, t, v, 0, t.len() as int);
    }
}

proof fn lemma_count_in_same(s: Seq<i32>, t: Seq<i32>, v: i32, lo: int, hi: int)
    requires
        0 <= lo,
        hi <= s.len(),
        hi <= t.len(),
        forall|k: int| lo <= k < hi ==> s[k] == t[k],
    ensures
        count_in(s, v, lo, hi) == count_in(t, v, lo, hi),
    decreases hi - lo,
{
    if hi > lo {
        lemma_count_in_same(s, t, v, lo, hi - 1);
    }
}

proof fn lemma_count_in_split(s: Seq<i32>, v: i32, lo: int, mid: int, hi: int)
    requires
        lo <= mid <= hi,
    ensures
        count_in(s, v, lo, hi) == count_in(s, v, lo, mid) + count_in(s, v, mid, hi),
    decreases hi - mid,
{
    if hi > mid {
        lemma_count_in_split(s, v, lo, mid, hi - 1);
    }
}

proof fn lemma_count_in_block(s: Seq<i32>, v: i32, w: i32, lo: int, hi: int)
    requires
        lo <= hi,
        forall|k: int| lo <= k < hi ==> s[k] == w,
    ensures
        count_in(s, v, lo, hi) == if v == w { (hi - lo) as nat } else { 0 },
    decreases hi - lo,
{
    if hi > lo {
        lemma_count_in_block(s, v, w, lo, hi - 1);
    }
}

proof fn lemma_at_most_monotone(s: Seq<i32>, base: int, x: int, y: int)
    requires
        x <= y,
    ensures
        at_most(s, base, x) <= at_most(s, base, y),
    decreases y - x,
{
    if x < y {
        lemma_at_most_monotone(s, base, x, y - 1);
    }
}

proof fn lemma_at_most_all(s: Seq<i32>, base: int, x: int)
    requires
        x >= -1,
        i32::MIN <= base,
        base + x <= i32::MAX,
        forall|k: int| 0 <= k < s.len() ==> base <= #[trigger] s[k] <= base + x,
    ensures
        at_most(s, base, x) == s.len(),
{
    assert forall|x2: int| -1 <= x2 <= x implies #[trigger] at_most(s, base, x2) == count_in_range(s, base, base + x2) by {
        lemma_at_most_range(s, base, x2);
    }
    lemma_range_all(s, base, base + x);
}

/// Values of `s` between `lo` and `hi` (both included).
pub open spec fn count_in_range(s: Seq<i32>, lo: int, hi: int) -> nat
    decreases s.len(),
{
    if s.len() == 0 {
        0
    } else {
        count_in_range(s.drop_last(), lo, hi) + if lo <= s.last() <= hi {
            1nat
        } else {
            0nat
        }
    }
}

proof fn lemma_range_all(s: Seq<i32>, lo: int, hi: int)
    requires
        forall|k: int| 0 <= k < s.len() ==> lo <= #[trigger] s[k] <= hi,
    ensures
        count_in_range(s, lo, hi) == s.len(),
    decreases s.len(),
{
    if s.len() > 0 {
        lemma_range_all(s.drop_last(), lo, hi);
    }
}

proof fn lemma_at_most_range(s: Seq<i32>, base: int, x: int)
    requires
        x >= -1,
        i32::MIN <= base,
        base + x <= i32::MAX,
    ensures
        at_most(s, base, x) == count_in_range(s, base, base + x),
    decreases x + 1,
{
    if x >= 0 {
        lemma_at_most_range(s, base, x - 1);
        lemma_range_step(s, base, base + x);
    } else {
        lemma_range_empty(s, base, base + x);
    }
}

proof fn lemma_range_empty(s: Seq<i32>, lo: int, hi: int)
    requires
        hi < lo,
    ensures
        count_in_range(s, lo, hi) == 0,
    decreases s.len(),
{
    if s.len() > 0 {
        lemma_range_empty(s.drop_last(), lo, hi);
    }
}

proof fn lemma_range_step(s: Seq<i32>, lo: int, hi: int)
    requires
        lo <= hi,
        i32::MIN <= hi <= i32::MAX,
    ensures
        count_in_range(s, lo, hi) == count_in_range(s, lo, hi - 1) + occurrences(s, hi),
    decreases s.len(),
{
    broadcast use vstd::seq_lib::group_to_multiset_ensures;
    broadcast use vstd::multiset::group_multiset_axioms;

    if s.len() > 0 {
        let t = s.drop_last();
        lemma_range_step(t, lo, hi);
        assert(s =~= t.push(s.last()));
    } else {
        assert(s.to_multiset() =~= vstd::multiset::Multiset::empty());
    }
}

proof fn lemma_prefix_push(s: Seq<i32>, j: int)
    requires
        0 <= j < s.len(),
    ensures
        forall|v: i32|
            #[trigger] s.subrange(0, j + 1).to_multiset().count(v) == s.subrange(0, j).to_multiset().count(v) + if s[j]
                == v {
                1nat
            } else {
                0nat
            },
{
    broadcast use vstd::multiset::group_multiset_axioms;

    assert(s.subrange(0, j + 1) =~= s.subrange(0, j).push(s[j]));
}

proof fn lemma_prefix_at_most_whole(s: Seq<i32>, j: int, v: i32)
    requires
        0 <= j <= s.len(),
    ensures
        s.subrange(0, j).to_multiset().count(v) <= s.to_multiset().count(v),
{
    let t = s.subrange(0, j);
    lemma_count_in_multiset(t, v);
    lemma_count_in_multiset(s, v);
    lemma_count_in_same(t, s, v, 0, j);
    lemma_count_in_split(s, v, 0, j, s.len() as int);
}

proof fn lemma_find_block(s: Seq<i32>, base: int, p: int, x: int)
    requires
        0 <= p < at_most(s, base, x),
        x >= 0,
    ensures
        exists|y: int| 0 <= y <= x && at_most(s, base, y - 1) <= p < #[trigger] at_most(s, base, y),
    decreases x,
{
    if p < at_most(s, base, x - 1) {
        lemma_find_block(s, base, p, x - 1);
    }
}

proof fn lemma_blocks_count(out: Seq<i32>, s: Seq<i32>, base: int, v: i32, x: int)
    requires
        -1 <= x,
        i32::MIN <= base,
        base + x <= i32::MAX,
        at_most(s, base, x) <= out.len(),
        forall|p: int, y: int|
            0 <= y <= x && at_most(s, base, y - 1) <= p < #[trigger] at_most(s, base, y) ==> #[trigger] out[p] == base + y,
    ensures
        count_in(out, v, 0, at_most(s, base, x) as int) == if base <= v <= base + x {
            occurrences(s, v as int)
        } else {
            0
        },
    decreases x + 1,
{
    if x >= 0 {
        lemma_at_most_monotone(s, base, x - 1, x);
        lemma_blocks_count(out, s, base, v, x - 1);
        let lo = at_most(s, base, x - 1) as int;
        let hi = at_most(s, base, x) as int;
        lemma_count_in_split(out, v, 0, lo, hi);
        assert forall|k: int| lo <= k < hi implies out[k] == (base + x) as i32 by {
            assert(out[k] == base + x);
        }
        lemma_count_in_block(out, v, (base + x) as i32, lo, hi);
    }
}

/// Smallest and largest value of a non-empty slice.
fn value_bounds(arr: &[i32]) -> (r: (i32, i32))
    requires
        arr@.len() > 0,
    ensures
        r.0 <= r.1,
        forall|m: int| 0 <= m < arr@.len() ==> r.0 <= #[trigger] arr@[m] <= r.1,
        exists|i: int| 0 <= i < arr@.len() && arr@[i] == r.0,
        exists|i: int| 0 <= i < arr@.len() && arr@[i] == r.1,
{
    let n = arr.len();
    let mut max: i32 = arr[0];
    let mut min: i32 = arr[0];
    let mut k: usize = 0;
    let ghost mut at_min: int = 0;
    let ghost mut at_max: int = 0;
    while k < n
        invariant
            n == arr@.len(),
            0 <= k <= n,
            0 <= at_min < n,
            0 <= at_max < n,
            min == arr@[at_min],
            max == arr@[at_max],
            min <= max,
            forall|m: int| 0 <= m < k ==> min <= #[trigger] arr@[m] <= max,
        decreases n - k,
    {
        if arr[k] > max {
            max = arr[k];
            proof {
                at_max = k as int;
            }
        }
        if arr[k] < min {
            min = arr[k];
            proof {
                at_min = k as int;
            }
        }
        k = k + 1;
    }
    (min, max)
}

/// Counts each value `min + x` into `count[x]`.
fn tally(arr: &[i32], min: i32, max: i32) -> (count: [usize; COUNT_CAPACITY])
    requires
        arr@.len() <= COUNT_CAPACITY,
        min <= max,
        max - min < COUNT_CAPACITY,
        forall|m: int| 0 <= m < arr@.len() ==> min <= #[trigger] arr@[m] <= max,
    ensures
        forall|x: int|
            0 <= x < COUNT_CAPACITY && min + x <= i32::MAX ==> #[trigger] count@[x] == occurrences(arr@, min + x),
{
    broadcast use vstd::multiset::group_multiset_axioms;

    let ghost a = arr@;
    let n = arr.len();
    let mut count = [0usize; COUNT_CAPACITY];
    assert(a.subrange(0, 0).to_multiset() =~= vstd::multiset::Multiset::empty());
    let mut j: usize = 0;
    while j < n
        invariant
            a == arr@,
            n == a.len(),
            n <= COUNT_CAPACITY,
            0 <= j <= n,
            max - min < COUNT_CAPACITY,
            forall|m: int| 0 <= m < n ==> min <= #[trigger] a[m] <= max,
            forall|x: int|
                0 <= x < COUNT_CAPACITY && min + x <= i32::MAX ==> #[trigger] count@[x] == a.subrange(
                    0,
                    j as int,
                ).to_multiset().count((min + x) as i32),
            forall|x: int| 0 <= x < COUNT_CAPACITY ==> #[trigger] count@[x] <= j,
        decreases n - j,
    {
        let x = (arr[j] - min) as usize;
        proof {
            lemma_prefix_push(a, j as int);
        }
        count[x] = count[x] + 1;
        proof {
            assert forall|y: int| 0 <= y < COUNT_CAPACITY && min + y <= i32::MAX implies #[trigger] count@[y] == a.subrange(
                0,
                j + 1,
            ).to_multiset().count((min + y) as i32) by {
                let v = (min + y) as i32;
                assert(a.subrange(0, j + 1).to_multiset().count(v) == a.subrange(0, j as int).to_multiset().count(v) + if a[j as int]
                    == v {
                    1nat
                } else {
                    0nat
                });
            }
        }
        j = j + 1;
    }
    assert(a.subrange(0, n as int) =~= a);
    count
}

/// Turns the counts of `[0, range)` into running totals.
fn accumulate(count: &mut [usize; COUNT_CAPACITY], range: usize, a: Ghost<Seq<i32>>, base: Ghost<int>)
    requires
        1 <= range <= COUNT_CAPACITY,
        a@.len() <= COUNT_CAPACITY,
        i32::MIN <= base@,
        base@ + range - 1 <= i32::MAX,
        forall|m: int| 0 <= m < a@.len() ==> base@ <= #[trigger] a@[m] <= base@ + range - 1,
        forall|x: int| 0 <= x < range ==> #[trigger] old(count)@[x] == occurrences(a@, base@ + x),
    ensures
        forall|x: int| 0 <= x < range ==> #[trigger] final(count)@[x] == at_most(a@, base@, x),
{
    proof {
        assert(at_most(a@, base@, 0) == at_most(a@, base@, -1) + occurrences(a@, base@));
    }
    let mut i: usize = 1;
    while i < range
        invariant
            1 <= i <= range,
            range <= COUNT_CAPACITY,
            a@.len() <= COUNT_CAPACITY,
            i32::MIN <= base@,
            base@ + range - 1 <= i32::MAX,
            forall|m: int| 0 <= m < a@.len() ==> base@ <= #[trigger] a@[m] <= base@ + range - 1,
            forall|x: int| 0 <= x < i ==> #[trigger] count@[x] == at_most(a@, base@, x),
            forall|x: int| i <= x < range ==> #[trigger] count@[x] == occurrences(a@, base@ + x),
        decreases range - i,
    {
        proof {
            lemma_at_most_range(a@, base@, i as int);
            lemma_range_all(a@, base@, base@ + range - 1);
            lemma_at_most_range(a@, base@, range - 1);
            lemma_at_most_monotone(a@, base@, i as int, range - 1);
            assert(at_most(a@, base@, i as int) == at_most(a@, base@, i - 1) + occurrences(a@, base@ + i));
        }
        count[i] = count[i] + count[i - 1];
        i = i + 1;
    }
}

proof fn lemma_place_bounds(a: Seq<i32>, base: int, range: int, j: int, cnt: Seq<usize>)
    requires
        0 <= j < a.len(),
        a.len() <= COUNT_CAPACITY,
        1 <= range <= COUNT_CAPACITY,
        i32::MIN <= base,
        base + range - 1 <= i32::MAX,
        forall|m: int| 0 <= m < a.len() ==> base <= #[trigger] a[m] <= base + range - 1,
        at_most(a, base, range - 1) == a.len(),
        cnt.len() == COUNT_CAPACITY,
        forall|x: int|
            0 <= x < range ==> #[trigger] cnt[x] == at_most(a, base, x - 1) + a.subrange(0, j + 1).to_multiset().count(
                (base + x) as i32,
            ),
    ensures
        1 <= cnt[a[j] - base] <= a.len(),
{
    let x = a[j] - base;
    let num = a[j];
    assert(0 <= x < range);
    lemma_prefix_push(a, j);
    lemma_prefix_at_most_whole(a, j + 1, num);
    lemma_at_most_monotone(a, base, x, range - 1);
    assert((base + x) as i32 == num);
    assert(a.subrange(0, j + 1).to_multiset().count(num) >= 1);
    assert(at_most(a, base, x) == at_most(a, base, x - 1) + occurrences(a, base + x));
}

proof fn lemma_place_step(
    a: Seq<i32>,
    base: int,
    range: int,
    j: int,
    cnt_old: Seq<usize>,
    cnt_new: Seq<usize>,
    out_old: Seq<i32>,
    out_new: Seq<i32>,
)
    requires
        0 <= j < a.len(),
        a.len() <= COUNT_CAPACITY,
        1 <= range <= COUNT_CAPACITY,
        i32::MIN <= base,
        base + range - 1 <= i32::MAX,
        forall|m: int| 0 <= m < a.len() ==> base <= #[trigger] a[m] <= base + range - 1,
        at_most(a, base, range - 1) == a.len(),
        cnt_old.len() == COUNT_CAPACITY,
        out_old.len() == COUNT_CAPACITY,
        1 <= cnt_old[a[j] - base] <= a.len(),
        forall|x: int|
            0 <= x < range ==> #[trigger] cnt_old[x] == at_most(a, base, x - 1) + a.subrange(
                0,
                j + 1,
            ).to_multiset().count((base + x) as i32),
        forall|p: int, x: int|
            0 <= x < range && at_most(a, base, x - 1) + a.subrange(0, j + 1).to_multiset().count((base + x) as i32)
                <= p < #[trigger] at_most(a, base, x) ==> #[trigger] out_old[p] == base + x,
        cnt_new == cnt_old.update(a[j] - base, (cnt_old[a[j] - base] - 1) as usize),
        out_new == out_old.update(cnt_old[a[j] - base] - 1, a[j]),
    ensures
        forall|x: int|
            0 <= x < range ==> #[trigger] cnt_new[x] == at_most(a, base, x - 1) + a.subrange(0, j).to_multiset().count(
                (base + x) as i32,
            ),
        forall|p: int, x: int|
            0 <= x < range && at_most(a, base, x - 1) + a.subrange(0, j).to_multiset().count((base + x) as i32) <= p
                < #[trigger] at_most(a, base, x) ==> #[trigger] out_new[p] == base + x,
{
    let num = a[j];
    let x = num - base;
    let place = cnt_old[x] - 1;
    let pre = a.subrange(0, j);
    let post = a.subrange(0, j + 1);
    lemma_prefix_push(a, j);
    lemma_prefix_at_most_whole(a, j + 1, num);
    lemma_at_most_monotone(a, base, x, range - 1);
    assert((base + x) as i32 == num);
    assert(at_most(a, base, x) == at_most(a, base, x - 1) + occurrences(a, base + x));
    assert forall|y: int| 0 <= y < range implies #[trigger] cnt_new[y] == at_most(a, base, y - 1)
        + pre.to_multiset().count((base + y) as i32) by {
        let v = (base + y) as i32;
        assert(post.to_multiset().count(v) == pre.to_multiset().count(v) + if num == v {
            1nat
        } else {
            0nat
        });
    }
    assert forall|p: int, y: int|
        0 <= y < range && at_most(a, base, y - 1) + pre.to_multiset().count((base + y) as i32) <= p
            < #[trigger] at_most(a, base, y) implies #[trigger] out_new[p] == base + y by {
        let v = (base + y) as i32;
        assert(post.to_multiset().count(v) == pre.to_multiset().count(v) + if num == v {
            1nat
        } else {
            0nat
        });
        if p == place && y != x {
            lemma_prefix_at_most_whole(a, j, v);
            if y < x {
                lemma_at_most_monotone(a, base, y, x - 1);
            } else {
                lemma_at_most_monotone(a, base, x, y - 1);
            }
        } else if p != place {
            lemma_at_most_monotone(a, base, y, range - 1);
            assert(out_new[p] == out_old[p]);
            assert(at_most(a, base, y - 1) + post.to_multiset().count(v) <= p);
            assert(out_old[p] == base + y);
        }
    }
}

/// Places each value, last first, just below its running total.
fn place(
    arr: &[i32],
    min: i32,
    range: usize,
    count: &mut [usize; COUNT_CAPACITY],
) -> (output: [i32; COUNT_CAPACITY])
    requires
        arr@.len() <= COUNT_CAPACITY,
        1 <= range <= COUNT_CAPACITY,
        min + range - 1 <= i32::MAX,
        forall|m: int| 0 <= m < arr@.len() ==> min <= #[trigger] arr@[m] <= min + range - 1,
        at_most(arr@, min as int, range - 1) == arr@.len(),
        forall|x: int| 0 <= x < range ==> #[trigger] old(count)@[x] == at_most(arr@, min as int, x),
    ensures
        forall|p: int, x: int|
            0 <= x < range && at_most(arr@, min as int, x - 1) <= p < #[trigger] at_most(arr@, min as int, x)
                ==> #[trigger] output@[p] == min + x,
{
    let ghost a = arr@;
    let ghost base = min as int;
    let n = arr.len();
    let mut output = [0i32; COUNT_CAPACITY];
    proof {
        assert(a.subrange(0, n as int) =~= a);
        assert forall|x: int| 0 <= x < range implies #[trigger] count@[x] == at_most(a, base, x - 1)
            + a.subrange(0, n as int).to_multiset().count((base + x) as i32) by {
            assert(at_most(a, base, x) == at_most(a, base, x - 1) + occurrences(a, base + x));
        }
    }
    let mut j: usize = n;
    while j > 0
        invariant
            a == arr@,
            n == a.len(),
            n <= COUNT_CAPACITY,
            0 <= j <= n,
            1 <= range <= COUNT_CAPACITY,
            base == min,
            min + range - 1 <= i32::MAX,
            forall|m: int| 0 <= m < n ==> min <= #[trigger] a[m] <= min + range - 1,
            at_most(a, base, range - 1) == n,
            forall|x: int|
                0 <= x < range ==> #[trigger] count@[x] == at_most(a, base, x - 1) + a.subrange(
                    0,
                    j as int,
                ).to_multiset().count((base + x) as i32),
            forall|p: int, x: int|
                0 <= x < range && at_most(a, base, x - 1) + a.subrange(0, j as int).to_multiset().count(
                    (base + x) as i32,
                ) <= p < #[trigger] at_most(a, base, x) ==> #[trigger] output@[p] == base + x,
        decreases j,
    {
        j = j - 1;
        let num = arr[j];
        let x = (num - min) as usize;
        proof {
            lemma_place_bounds(a, base, range as int, j as int, count@);
        }
        let place = count[x] - 1;
        let ghost old_out = output@;
        let ghost old_count = count@;
        output[place] = num;
        count[x] = place;
        proof {
            lemma_place_step(a, base, range as int, j as int, old_count, count@, old_out, output@);
        }
    }
    output
}

/// Counting sort over the value range (at most 256 values apart) with a
/// buffer of 256 slots, which bounds the length too.
pub fn counting_sort(arr: &mut [i32])
    requires
        old(arr)@.len() <= COUNT_CAPACITY,
        forall|i: int, j: int|
            0 <= i < old(arr)@.len() && 0 <= j < old(arr)@.len() ==> #[trigger] old(arr)@[i] - #[trigger] old(arr)@[j]
                < COUNT_CAPACITY,
    ensures
        final(arr)@.len() == old(arr)@.len(),
        sorted(final(arr)@),
        permutes(final(arr)@, old(arr)@),
{
    broadcast use vstd::seq_lib::group_to_multiset_ensures;

    let ghost a = arr@;
    let n = arr.len();
    if n == 0 {
        return;
    }
    let (min, max) = value_bounds(arr);
    proof {
        let i = choose|i: int| 0 <= i < a.len() && a[i] == min;
        let j = choose|i: int| 0 <= i < a.len() && a[i] == max;
        assert(a[j] - a[i] < COUNT_CAPACITY);
    }
    let range: usize = (max - min + 1) as usize;
    let ghost base = min as int;
    let mut count = tally(arr, min, max);
    proof {
        lemma_at_most_all(a, base, range - 1);
    }
    accumulate(&mut count, range, Ghost(a), Ghost(base));
    let output = place(arr, min, range, &mut count);
    let mut t: usize = 0;
    while t < n
        invariant
            n == arr@.len(),
            n <= COUNT_CAPACITY,
            0 <= t <= n,
            forall|q: int| 0 <= q < t ==> arr@[q] == output@[q],
        decreases n - t,
    {
        arr[t] = output[t];
        t = t + 1;
    }
    proof {
        let fin = arr@;
        assert forall|p: int, y: int|
            0 <= y <= range - 1 && at_most(a, base, y - 1) <= p < #[trigger] at_most(a, base, y) implies #[trigger] fin[p]
            == base + y by {
            lemma_at_most_monotone(a, base, y, range - 1);
            assert(output@[p] == base + y);
        }
        lemma_blocks_sorted(fin, a, base, range as int);
    }
}

/// A sequence laid out in blocks, block `y` holding the values of `a` that
/// equal `base + y`, is `a` sorted.
proof fn lemma_blocks_sorted(fin: Seq<i32>, a: Seq<i32>, base: int, range: int)
    requires
        fin.len() == a.len(),
        1 <= range,
        i32::MIN <= base,
        base + range - 1 <= i32::MAX,
        forall|m: int| 0 <= m < a.len() ==> base <= #[trigger] a[m] <= base + range - 1,
        at_most(a, base, range - 1) == a.len(),
        forall|p: int, y: int|
            0 <= y <= range - 1 && at_most(a, base, y - 1) <= p < #[trigger] at_most(a, base, y) ==> #[trigger] fin[p]
                == base + y,
    ensures
        sorted(fin),
        permutes(fin, a),
{
    broadcast use vstd::seq_lib::group_to_multiset_ensures;

    let n = a.len() as int;
    assert forall|p: int, q: int| 0 <= p < q < n implies #[trigger] fin[p] <= #[trigger] fin[q] by {
        lemma_find_block(a, base, p, range - 1);
        lemma_find_block(a, base, q, range - 1);
        let yp = choose|y: int| 0 <= y <= range - 1 && at_most(a, base, y - 1) <= p < #[trigger] at_most(a, base, y);
        let yq = choose|y: int| 0 <= y <= range - 1 && at_most(a, base, y - 1) <= q < #[trigger] at_most(a, base, y);
        if yp > yq {
            lemma_at_most_monotone(a, base, yq, yp - 1);
        }
        assert(fin[p] == base + yp);
        assert(fin[q] == base + yq);
    }
    assert forall|v: i32| fin.to_multiset().count(v) == a.to_multiset().count(v) by {
        lemma_blocks_count(fin, a, base, v, range - 1);
        lemma_count_in_multiset(fin, v);
        if !(base <= v <= base + range - 1) {
            if a.contains(v) {
                let k = choose|k: int| 0 <= k < a.len() && a[k] == v;
                assert(base <= a[k] <= base + range - 1);
            }
        }
    }
    assert(fin.to_multiset() =~= a.to_multiset());
}

proof fn lemma_bucket_slot(x: int, kk: int, i: int, k: int)
    requires
        0 <= kk < BUCKET_CAPACITY,
        0 <= k < BUCKET_CAPACITY,
        0 <= x,
        0 <= i,
    ensures
        x * BUCKET_CAPACITY + kk == i * BUCKET_CAPACITY + k ==> x == i && kk == k,
{
    if x < i {
        assert(x * BUCKET_CAPACITY + kk < i * BUCKET_CAPACITY) by (nonlinear_arith)
            requires
                x < i,
                kk < BUCKET_CAPACITY,
        ;
    } else if x > i {
        assert(i * BUCKET_CAPACITY + k < x * BUCKET_CAPACITY) by (nonlinear_arith)
            requires
                i < x,
                k < BUCKET_CAPACITY,
        ;
    }
}

/// Slots of one bucket.
pub const BUCKET_CAPACITY: usize = 256;

/// Bucket sort with one bucket per value of the range (at most 256 values
/// apart), each of 256 slots, so no value may occur more than 256 times.
/// Buckets are insertion-sorted and emptied back in order.
pub fn bucket_sort(arr: &mut [i32])
    requires
        forall|i: int, j: int|
            0 <= i < old(arr)@.len() && 0 <= j < old(arr)@.len() ==> #[trigger] old(arr)@[i] - #[trigger] old(arr)@[j]
                < COUNT_CAPACITY,
        forall|v: i32| old(arr)@.to_multiset().count(v) <= BUCKET_CAPACITY,
    ensures
        final(arr)@.len() == old(arr)@.len(),
        sorted(final(arr)@),
        permutes(final(arr)@, old(arr)@),
{
    broadcast use vstd::multiset::group_multiset_axioms;

    let ghost a = arr@;
    let n = arr.len();
    if n == 0 {
        return;
    }
    let (min, max) = value_bounds(arr);
    proof {
        let i = choose|i: int| 0 <= i < a.len() && a[i] == min;
        let j = choose|i: int| 0 <= i < a.len() && a[i] == max;
        assert(a[j] - a[i] < COUNT_CAPACITY);
    }
    let bucket_count: usize = (max - min) as usize + 1;
    let ghost base = min as int;
    let mut buckets: Vec<i32> = vec![0i32; COUNT_CAPACITY * BUCKET_CAPACITY];
    let mut sizes = [0usize; COUNT_CAPACITY];
    assert(a.subrange(0, 0).to_multiset() =~= vstd::multiset::Multiset::empty());
    let mut j: usize = 0;
    while j < n
        invariant
            a == arr@,
            n == a.len(),
            0 <= j <= n,
            base == min,
            max - min < COUNT_CAPACITY,
            forall|m: int| 0 <= m < n ==> min <= #[trigger] a[m] <= max,
            forall|v: i32| a.to_multiset().count(v) <= BUCKET_CAPACITY,
            buckets@.len() == COUNT_CAPACITY * BUCKET_CAPACITY,
            forall|x: int|
                0 <= x < COUNT_CAPACITY && base + x <= i32::MAX ==> #[trigger] sizes@[x] == a.subrange(
                    0,
                    j as int,
                ).to_multiset().count((base + x) as i32),
            forall|x: int| 0 <= x < COUNT_CAPACITY ==> #[trigger] sizes@[x] <= BUCKET_CAPACITY,
            forall|x: int, k: int|
                0 <= x < COUNT_CAPACITY && 0 <= k < sizes@[x] ==> #[trigger] buckets@[x * BUCKET_CAPACITY + k] == base
                    + x,
        decreases n - j,
    {
        let num = arr[j];
        let b = (num - min) as usize;
        proof {
            lemma_prefix_push(a, j as int);
            lemma_prefix_at_most_whole(a, j + 1, num);
            assert((base + b) as i32 == num);
        }
        let slot = b * BUCKET_CAPACITY + sizes[b];
        buckets.set(slot, num);
        sizes[b] = sizes[b] + 1;
        proof {
            assert forall|y: int| 0 <= y < COUNT_CAPACITY && base + y <= i32::MAX implies #[trigger] sizes@[y]
                == a.subrange(0, j + 1).to_multiset().count((base + y) as i32) by {
                let v = (base + y) as i32;
                assert(a.subrange(0, j + 1).to_multiset().count(v) == a.subrange(0, j as int).to_multiset().count(v)
                    + if num == v {
                    1nat
                } else {
                    0nat
                });
            }
            assert forall|x: int, k: int| 0 <= x < COUNT_CAPACITY && 0 <= k < sizes@[x] implies #[trigger] buckets@[x
                * BUCKET_CAPACITY + k] == base + x by {
                if x != b {
                    if x < b {
                        assert(x * BUCKET_CAPACITY + k < b * BUCKET_CAPACITY) by (nonlinear_arith)
                            requires
                                x < b,
                                k < BUCKET_CAPACITY,
                        ;
                    } else {
                        assert(b * BUCKET_CAPACITY + BUCKET_CAPACITY <= x * BUCKET_CAPACITY) by (nonlinear_arith)
                            requires
                                b < x,
                        ;
                    }
                }
            }
        }
        j = j + 1;
    }
    assert(a.subrange(0, n as int) =~= a);
    proof {
        lemma_at_most_all(a, base, bucket_count - 1);
    }
    let mut index: usize = 0;
    let mut i: usize = 0;
    while i < bucket_count
        invariant
            n == a.len(),
            arr@.len() == n,
            0 <= i <= bucket_count,
            bucket_count == max - min + 1,
            bucket_count <= COUNT_CAPACITY,
            base == min,
            forall|m: int| 0 <= m < n ==> min <= #[trigger] a[m] <= max,
            at_most(a, base, bucket_count - 1) == n,
            index == at_most(a, base, i - 1),
            buckets@.len() == COUNT_CAPACITY * BUCKET_CAPACITY,
            forall|x: int| 0 <= x < bucket_count ==> #[trigger] sizes@[x] == occurrences(a, base + x),
            forall|x: int| 0 <= x < COUNT_CAPACITY ==> #[trigger] sizes@[x] <= BUCKET_CAPACITY,
            forall|x: int, k: int|
                0 <= x < COUNT_CAPACITY && 0 <= k < sizes@[x] ==> #[trigger] buckets@[x * BUCKET_CAPACITY + k] == base
                    + x,
            forall|p: int, y: int|
                0 <= y < i && at_most(a, base, y - 1) <= p < #[trigger] at_most(a, base, y) ==> #[trigger] arr@[p]
                    == base + y,
        decreases bucket_count - i,
    {
        let size = sizes[i];
        proof {
            lemma_at_most_monotone(a, base, i as int, bucket_count - 1);
            assert(at_most(a, base, i as int) == at_most(a, base, i - 1) + occurrences(a, base + i));
        }
        if size > 0 {
            let start = i * BUCKET_CAPACITY;
            let mut jj: usize = 1;
            while jj < size
                invariant
                    1 <= jj <= size || size == 0,
                    size <= BUCKET_CAPACITY,
                    i < COUNT_CAPACITY,
                    start == i * BUCKET_CAPACITY,
                    buckets@.len() == COUNT_CAPACITY * BUCKET_CAPACITY,
                    forall|x: int, k: int|
                        0 <= x < COUNT_CAPACITY && 0 <= k < sizes@[x] ==> #[trigger] buckets@[x * BUCKET_CAPACITY + k]
                            == base + x,
                    sizes@[i as int] == size,
                    forall|x: int| 0 <= x < COUNT_CAPACITY ==> #[trigger] sizes@[x] <= BUCKET_CAPACITY,
                decreases size - jj,
            {
                proof {
                    assert(buckets@[i * BUCKET_CAPACITY + jj] == base + i);
                }
                let key = buckets[start + jj];
                let mut k: usize = jj;
                while k > 0 && buckets[start + k - 1] > key
                    invariant
                        k <= jj < size,
                        size <= BUCKET_CAPACITY,
                        i < COUNT_CAPACITY,
                        start == i * BUCKET_CAPACITY,
                        buckets@.len() == COUNT_CAPACITY * BUCKET_CAPACITY,
                        forall|x: int, kk: int|
                            0 <= x < COUNT_CAPACITY && 0 <= kk < sizes@[x] ==> #[trigger] buckets@[x * BUCKET_CAPACITY
                                + kk] == base + x,
                        sizes@[i as int] == size,
                        forall|x: int| 0 <= x < COUNT_CAPACITY ==> #[trigger] sizes@[x] <= BUCKET_CAPACITY,
                        key == base + i,
                    decreases k,
                {
                    proof {
                        assert(buckets@[i * BUCKET_CAPACITY + (k - 1)] == base + i);
                    }
                    let moved = buckets[start + k - 1];
                    let ghost before = buckets@;
                    buckets.set(start + k, moved);
                    proof {
                        assert forall|x: int, kk: int|
                            0 <= x < COUNT_CAPACITY && 0 <= kk < sizes@[x] implies #[trigger] buckets@[x
                            * BUCKET_CAPACITY + kk] == base + x by {
                            lemma_bucket_slot(x, kk, i as int, k as int);
                            assert(before[x * BUCKET_CAPACITY + kk] == base + x);
                        }
                    }
                    k = k - 1;
                }
                let ghost before = buckets@;
                buckets.set(start + k, key);
                proof {
                    assert forall|x: int, kk: int|
                        0 <= x < COUNT_CAPACITY && 0 <= kk < sizes@[x] implies #[trigger] buckets@[x * BUCKET_CAPACITY
                        + kk] == base + x by {
                        lemma_bucket_slot(x, kk, i as int, k as int);
                        assert(before[x * BUCKET_CAPACITY + kk] == base + x);
                    }
                }
                jj = jj + 1;
            }
            let mut t: usize = 0;
            while t < size
                invariant
                    0 <= t <= size,
                    size == sizes@[i as int],
                    size <= BUCKET_CAPACITY,
                    i < bucket_count,
                    bucket_count <= COUNT_CAPACITY,
                    n == a.len(),
                    arr@.len() == n,
                    index + size == at_most(a, base, i as int) <= n,
                    index == at_most(a, base, i - 1),
                    start == i * BUCKET_CAPACITY,
                    buckets@.len() == COUNT_CAPACITY * BUCKET_CAPACITY,
                    forall|x: int, kk: int|
                        0 <= x < COUNT_CAPACITY && 0 <= kk < sizes@[x] ==> #[trigger] buckets@[x * BUCKET_CAPACITY + kk]
                            == base + x,
                    forall|p: int, y: int|
                        0 <= y < i && at_most(a, base, y - 1) <= p < #[trigger] at_most(a, base, y) ==> #[trigger] arr@[p]
                            == base + y,
                    forall|p: int| index <= p < index + t ==> #[trigger] arr@[p] == base + i,
                decreases size - t,
            {
                proof {
                    assert(buckets@[i * BUCKET_CAPACITY + t] == base + i);
                }
                arr[index + t] = buckets[start + t];
                proof {
                    assert forall|p: int, y: int|
                        0 <= y < i && at_most(a, base, y - 1) <= p < #[trigger] at_most(a, base, y) implies #[trigger] arr@[p]
                        == base + y by {
                        lemma_at_most_monotone(a, base, y, i - 1);
                    }
                }
                t = t + 1;
            }
            index = index + size;
        }
        proof {
            assert forall|p: int, y: int|
                0 <= y < i + 1 && at_most(a, base, y - 1) <= p < #[trigger] at_most(a, base, y) implies #[trigger] arr@[p]
                == base + y by {
                if y == i && size > 0 {
                    assert(arr@[p] == base + i);
                }
            }
        }
        i = i + 1;
    }
    proof {
        lemma_blocks_sorted(arr@, a, base, bucket_count as int);
    }
}

/// Decimal digit of `v` at place value `e`.
pub open spec fn digit(v: i32, e: int) -> int {
    (v as int / e) % 10
}

/// Ascending by `v % e`, the digits below place value `e`.
pub open spec fn sorted_low(s: Seq<i32>, e: int) -> bool {
    forall|a: int, b: int| 0 <= a < b < s.len() ==> (s[a] as int) % e <= (s[b] as int) % e
}

/// The values of `s` whose digit at place `e` is `d`, in order.
pub open spec fn pick(s: Seq<i32>, e: int, d: int) -> Seq<i32>
    decreases s.len(),
{
    if s.len() == 0 {
        Seq::empty()
    } else {
        (if digit(s[0], e) == d {
            seq![s[0]]
        } else {
            Seq::empty()
        }) + pick(s.skip(1), e, d)
    }
}

/// Number of values of `s` whose digit at place `e` is at most `d`.
pub open spec fn up_to_digit(s: Seq<i32>, e: int, d: int) -> nat
    decreases d + 1,
{
    if d < 0 {
        0
    } else {
        up_to_digit(s, e, d - 1) + pick(s, e, d).len()
    }
}

/// Multiset of the picks of digits below `k`.
pub open spec fn picks_multiset(s: Seq<i32>, e: int, k: int) -> Multiset<i32>
    decreases k,
{
    if k <= 0 {
        Multiset::empty()
    } else {
        picks_multiset(s, e, k - 1).add(pick(s, e, k - 1).to_multiset())
    }
}

proof fn lemma_pick_push(s: Seq<i32>, e: int, d: int, v: i32)
    ensures
        pick(s.push(v), e, d) == pick(s, e, d) + if digit(v, e) == d { seq![v] } else { Seq::empty() },
    decreases s.len(),
{
    if s.len() == 0 {
        assert(s.push(v).skip(1) =~= Seq::<i32>::empty());
        assert(pick(Seq::<i32>::empty(), e, d) == Seq::<i32>::empty());
        assert(s.push(v)[0] == v);
        assert(pick(s.push(v), e, d) =~= pick(s, e, d) + if digit(v, e) == d { seq![v] } else { Seq::empty() });
    } else {
        assert(s.push(v).skip(1) =~= s.skip(1).push(v));
        lemma_pick_push(s.skip(1), e, d, v);
        assert(pick(s.push(v), e, d) =~= pick(s, e, d) + if digit(v, e) == d { seq![v] } else { Seq::empty() });
    }
}

proof fn lemma_pick_skip_len(s: Seq<i32>, e: int, d: int, k: int)
    requires
        0 <= k <= s.len(),
    ensures
        pick(s.skip(k), e, d).len() <= pick(s, e, d).len(),
    decreases k,
{
    if k > 0 {
        lemma_pick_skip_len(s, e, d, k - 1);
        let x = s.skip(k - 1);
        assert(s.skip(k) =~= x.skip(1));
        assert(x.len() > 0);
        assert(pick(x, e, d).len() >= pick(x.skip(1), e, d).len());
    } else {
        assert(s.skip(0) =~= s);
    }
}

proof fn lemma_pick_members(s: Seq<i32>, e: int, d: int)
    ensures
        forall|i: int|
            0 <= i < pick(s, e, d).len() ==> s.contains(#[trigger] pick(s, e, d)[i]) && digit(pick(s, e, d)[i], e)
                == d,
    decreases s.len(),
{
    if s.len() > 0 {
        lemma_pick_members(s.skip(1), e, d);
        let head = if digit(s[0], e) == d { seq![s[0]] } else { Seq::<i32>::empty() };
        assert forall|i: int| 0 <= i < pick(s, e, d).len() implies s.contains(#[trigger] pick(s, e, d)[i]) && digit(
            pick(s, e, d)[i],
            e,
        ) == d by {
            if i < head.len() {
                assert(pick(s, e, d)[i] == s[0]);
            } else {
                let w = pick(s.skip(1), e, d)[i - head.len()];
                assert(pick(s, e, d)[i] == w);
                assert(s.skip(1).contains(w));
                let k = choose|k: int| 0 <= k < s.skip(1).len() && s.skip(1)[k] == w;
                assert(s[k + 1] == w);
            }
        }
    }
}

proof fn lemma_pick_sorted(s: Seq<i32>, e: int, d: int)
    requires
        sorted_low(s, e),
        e > 0,
    ensures
        sorted_low(pick(s, e, d), e),
    decreases s.len(),
{
    if s.len() > 0 {
        let t = s.skip(1);
        assert forall|a: int, b: int| 0 <= a < b < t.len() implies (t[a] as int) % e <= (t[b] as int) % e by {
            assert(t[a] == s[a + 1] && t[b] == s[b + 1]);
        }
        lemma_pick_sorted(t, e, d);
        lemma_pick_members(t, e, d);
        let p = pick(s, e, d);
        let head = if digit(s[0], e) == d { seq![s[0]] } else { Seq::<i32>::empty() };
        assert forall|a: int, b: int| 0 <= a < b < p.len() implies (p[a] as int) % e <= (p[b] as int) % e by {
            if head.len() == 1 && a == 0 {
                let w = pick(t, e, d)[b - 1];
                assert(p[b] == w);
                assert(t.contains(w));
                let k = choose|k: int| 0 <= k < t.len() && t[k] == w;
                assert(s[k + 1] == w);
            } else {
                assert(p[a] == pick(t, e, d)[a - head.len()]);
                assert(p[b] == pick(t, e, d)[b - head.len()]);
            }
        }
    }
}

proof fn lemma_picks_multiset(s: Seq<i32>, e: int)
    requires
        e > 0,
        forall|i: int| 0 <= i < s.len() ==> #[trigger] s[i] >= 0,
    ensures
        picks_multiset(s, e, 10) == s.to_multiset(),
    decreases s.len(),
{
    broadcast use vstd::multiset::group_multiset_axioms;
    broadcast use vstd::seq_lib::group_to_multiset_ensures;

    if s.len() == 0 {
        lemma_picks_empty(s, e, 10);
        assert(s.to_multiset() =~= Multiset::empty());
    } else {
        let t = s.skip(1);
        assert forall|i: int| 0 <= i < t.len() implies #[trigger] t[i] >= 0 by {
            assert(t[i] == s[i + 1]);
        }
        lemma_picks_multiset(t, e);
        assert(0 <= digit(s[0], e) < 10);
        lemma_picks_step(s, e, 10);
        assert(s =~= seq![s[0]] + t);
        vstd::seq_lib::lemma_multiset_commutative(seq![s[0]], t);
        assert(seq![s[0]].to_multiset() =~= Multiset::singleton(s[0])) by {
            assert(seq![s[0]] =~= Seq::<i32>::empty().push(s[0]));
        }
        assert(picks_multiset(s, e, 10) =~= s.to_multiset());
    }
}

proof fn lemma_picks_empty(s: Seq<i32>, e: int, k: int)
    requires
        s.len() == 0,
    ensures
        picks_multiset(s, e, k) == Multiset::<i32>::empty(),
    decreases k,
{
    broadcast use vstd::multiset::group_multiset_axioms;
    broadcast use vstd::seq_lib::group_to_multiset_ensures;

    if k > 0 {
        lemma_picks_empty(s, e, k - 1);
        assert(pick(s, e, k - 1).to_multiset() =~= Multiset::empty());
        assert(picks_multiset(s, e, k) =~= Multiset::empty());
    }
}

proof fn lemma_picks_step(s: Seq<i32>, e: int, k: int)
    requires
        s.len() > 0,
    ensures
        picks_multiset(s, e, k) == picks_multiset(s.skip(1), e, k).add(
            if 0 <= digit(s[0], e) < k { Multiset::singleton(s[0]) } else { Multiset::empty() },
        ),
    decreases k,
{
    broadcast use vstd::multiset::group_multiset_axioms;
    broadcast use vstd::seq_lib::group_to_multiset_ensures;

    if k > 0 {
        lemma_picks_step(s, e, k - 1);
        let d = k - 1;
        let head = if digit(s[0], e) == d { seq![s[0]] } else { Seq::<i32>::empty() };
        vstd::seq_lib::lemma_multiset_commutative(head, pick(s.skip(1), e, d));
        if digit(s[0], e) == d {
            assert(head.to_multiset() =~= Multiset::singleton(s[0])) by {
                assert(head =~= Seq::<i32>::empty().push(s[0]));
            }
        } else {
            assert(head.to_multiset() =~= Multiset::empty());
        }
        assert(picks_multiset(s, e, k) =~= picks_multiset(s.skip(1), e, k).add(
            if 0 <= digit(s[0], e) < k { Multiset::singleton(s[0]) } else { Multiset::empty() },
        ));
    } else {
        assert(picks_multiset(s, e, k) =~= picks_multiset(s.skip(1), e, k).add(Multiset::empty()));
    }
}

proof fn lemma_up_to_len(s: Seq<i32>, e: int)
    requires
        e > 0,
        forall|i: int| 0 <= i < s.len() ==> #[trigger] s[i] >= 0,
    ensures
        up_to_digit(s, e, 9) == s.len(),
    decreases s.len(),
{
    if s.len() == 0 {
        lemma_up_to_empty(s, e, 9);
    } else {
        let t = s.skip(1);
        assert forall|i: int| 0 <= i < t.len() implies #[trigger] t[i] >= 0 by {
            assert(t[i] == s[i + 1]);
        }
        lemma_up_to_len(t, e);
        lemma_up_to_step(s, e, 9);
        assert(0 <= digit(s[0], e) <= 9);
    }
}

proof fn lemma_up_to_empty(s: Seq<i32>, e: int, k: int)
    requires
        s.len() == 0,
    ensures
        up_to_digit(s, e, k) == 0,
    decreases k + 1,
{
    if k >= 0 {
        lemma_up_to_empty(s, e, k - 1);
    }
}

proof fn lemma_up_to_step(s: Seq<i32>, e: int, k: int)
    requires
        s.len() > 0,
    ensures
        up_to_digit(s, e, k) == up_to_digit(s.skip(1), e, k) + if 0 <= digit(s[0], e) <= k { 1int } else { 0int },
    decreases k + 1,
{
    if k >= 0 {
        lemma_up_to_step(s, e, k - 1);
    }
}

proof fn lemma_up_to_monotone(s: Seq<i32>, e: int, x: int, y: int)
    requires
        x <= y,
    ensures
        up_to_digit(s, e, x) <= up_to_digit(s, e, y),
    decreases y - x,
{
    if x < y {
        lemma_up_to_monotone(s, e, x, y - 1);
    }
}

proof fn lemma_find_digit_block(s: Seq<i32>, e: int, p: int, x: int)
    requires
        0 <= p < up_to_digit(s, e, x),
        x >= 0,
    ensures
        exists|y: int| 0 <= y <= x && up_to_digit(s, e, y - 1) <= p < #[trigger] up_to_digit(s, e, y),
    decreases x,
{
    if p < up_to_digit(s, e, x - 1) {
        lemma_find_digit_block(s, e, p, x - 1);
    }
}

/// `v % (10 e)` splits into the digit at place `e` and the part below.
proof fn lemma_low_digits(v: int, e: int)
    requires
        v >= 0,
        e > 0,
    ensures
        v % (10 * e) == (v / e) % 10 * e + v % e,
        0 <= v % e < e,
{
    let q = v / e;
    let r = v % e;
    vstd::arithmetic::div_mod::lemma_fundamental_div_mod(v, e);
    vstd::arithmetic::div_mod::lemma_mod_bound(v, e);
    vstd::arithmetic::div_mod::lemma_fundamental_div_mod(q, 10);
    vstd::arithmetic::div_mod::lemma_mod_bound(q, 10);
    let a = q / 10;
    let b = q % 10;
    assert(v == a * (10 * e) + (b * e + r)) by (nonlinear_arith)
        requires
            v == e * q + r,
            q == 10 * a + b,
    ;
    assert(0 <= b * e + r < 10 * e) by (nonlinear_arith)
        requires
            0 <= b < 10,
            0 <= r < e,
            e > 0,
    ;
    vstd::arithmetic::div_mod::lemma_fundamental_div_mod_converse(v, 10 * e, a, b * e + r);
}

/// The blocks of a digit pass: block `d` holds the values with digit `d` at
/// place `e`, in their former order.
pub open spec fn digit_blocks(out: Seq<i32>, s: Seq<i32>, e: int) -> bool {
    forall|p: int, d: int|
        0 <= d < 10 && up_to_digit(s, e, d - 1) <= p < #[trigger] up_to_digit(s, e, d) ==> #[trigger] out[p] == pick(
            s,
            e,
            d,
        )[p - up_to_digit(s, e, d - 1)]
}

proof fn lemma_pass_permutes(out: Seq<i32>, s: Seq<i32>, e: int)
    requires
        e > 0,
        out.len() == s.len(),
        forall|i: int| 0 <= i < s.len() ==> #[trigger] s[i] >= 0,
        digit_blocks(out, s, e),
    ensures
        permutes(out, s),
{
    lemma_up_to_len(s, e);
    lemma_blocks_multiset(out, s, e, 10);
    lemma_picks_multiset(s, e);
    assert(out.subrange(0, up_to_digit(s, e, 9) as int) =~= out);
}

proof fn lemma_blocks_multiset(out: Seq<i32>, s: Seq<i32>, e: int, k: int)
    requires
        0 <= k <= 10,
        e > 0,
        out.len() == s.len(),
        up_to_digit(s, e, 9) == s.len(),
        digit_blocks(out, s, e),
    ensures
        out.subrange(0, up_to_digit(s, e, k - 1) as int).to_multiset() == picks_multiset(s, e, k),
    decreases k,
{
    broadcast use vstd::seq_lib::group_to_multiset_ensures;
    broadcast use vstd::multiset::group_multiset_axioms;

    if k == 0 {
        assert(out.subrange(0, 0).to_multiset() =~= Multiset::empty());
    } else {
        lemma_blocks_multiset(out, s, e, k - 1);
        let lo = up_to_digit(s, e, k - 2) as int;
        let hi = up_to_digit(s, e, k - 1) as int;
        lemma_up_to_monotone(s, e, k - 1, 9);
        assert(out.subrange(lo, hi) =~= pick(s, e, k - 1)) by {
            assert forall|i: int| 0 <= i < hi - lo implies out.subrange(lo, hi)[i] == pick(s, e, k - 1)[i] by {
                assert(out[lo + i] == pick(s, e, k - 1)[lo + i - lo]);
            }
        }
        assert(out.subrange(0, hi) =~= out.subrange(0, lo) + out.subrange(lo, hi));
        vstd::seq_lib::lemma_multiset_commutative(out.subrange(0, lo), out.subrange(lo, hi));
    }
}

proof fn lemma_pass_sorted(out: Seq<i32>, s: Seq<i32>, e: int)
    requires
        e > 0,
        out.len() == s.len(),
        forall|i: int| 0 <= i < s.len() ==> #[trigger] s[i] >= 0,
        digit_blocks(out, s, e),
        sorted_low(s, e),
    ensures
        sorted_low(out, 10 * e),
{
    lemma_up_to_len(s, e);
    assert forall|p: int, q: int| 0 <= p < q < out.len() implies (out[p] as int) % (10 * e) <= (out[q] as int) % (10
        * e) by {
        lemma_find_digit_block(s, e, p, 9);
        lemma_find_digit_block(s, e, q, 9);
        let dp = choose|y: int| 0 <= y <= 9 && up_to_digit(s, e, y - 1) <= p < #[trigger] up_to_digit(s, e, y);
        let dq = choose|y: int| 0 <= y <= 9 && up_to_digit(s, e, y - 1) <= q < #[trigger] up_to_digit(s, e, y);
        if dp > dq {
            lemma_up_to_monotone(s, e, dq, dp - 1);
        }
        lemma_pick_members(s, e, dp);
        lemma_pick_members(s, e, dq);
        let ip = p - up_to_digit(s, e, dp - 1);
        let iq = q - up_to_digit(s, e, dq - 1);
        assert(out[p] == pick(s, e, dp)[ip]);
        assert(out[q] == pick(s, e, dq)[iq]);
        assert(s.contains(out[p]) && s.contains(out[q]));
        let kp = choose|k: int| 0 <= k < s.len() && s[k] == out[p];
        let kq = choose|k: int| 0 <= k < s.len() && s[k] == out[q];
        lemma_low_digits(out[p] as int, e);
        lemma_low_digits(out[q] as int, e);
        assert(digit(out[p], e) == dp && digit(out[q], e) == dq);
        if dp == dq {
            lemma_pick_sorted(s, e, dp);
        } else {
            assert(dp < dq);
            assert((out[p] as int / e) % 10 * e + e <= (out[q] as int / e) % 10 * e) by (nonlinear_arith)
                requires
                    (out[p] as int / e) % 10 < (out[q] as int / e) % 10,
                    e > 0,
            ;
        }
    }
}

/// One stable counting pass on the decimal digit at place `exp`, through a
/// buffer of 256 values.
fn radix_pass(arr: &mut [i32], exp: i32)
    requires
        old(arr)@.len() <= COUNT_CAPACITY,
        exp >= 1,
        forall|i: int| 0 <= i < old(arr)@.len() ==> #[trigger] old(arr)@[i] >= 0,
    ensures
        final(arr)@.len() == old(arr)@.len(),
        digit_blocks(final(arr)@, old(arr)@, exp as int),
{
    let ghost a = arr@;
    let ghost e = exp as int;
    let n = arr.len();
    let mut count = [0usize; 10];
    let mut j: usize = 0;
    assert(a.subrange(0, 0) =~= Seq::<i32>::empty());
    while j < n
        invariant
            a == arr@,
            n == a.len(),
            n <= COUNT_CAPACITY,
            0 <= j <= n,
            e == exp,
            exp >= 1,
            forall|i: int| 0 <= i < n ==> #[trigger] a[i] >= 0,
            forall|d: int| 0 <= d < 10 ==> #[trigger] count@[d] == pick(a.subrange(0, j as int), e, d).len(),
            forall|d: int| 0 <= d < 10 ==> #[trigger] count@[d] <= j,
        decreases n - j,
    {
        let num = arr[j];
        let d = (num as u32 / exp as u32 % 10) as usize;
        proof {
            assert(d == digit(num, e));
            assert(a.subrange(0, j + 1) =~= a.subrange(0, j as int).push(num));
            assert forall|x: int| 0 <= x < 10 implies #[trigger] pick(a.subrange(0, j + 1), e, x).len() == pick(
                a.subrange(0, j as int),
                e,
                x,
            ).len() + if x == d { 1int } else { 0int } by {
                lemma_pick_push(a.subrange(0, j as int), e, x, num);
            }
        }
        count[d] = count[d] + 1;
        j = j + 1;
    }
    assert(a.subrange(0, n as int) =~= a);
    assert(up_to_digit(a, e, 0) == up_to_digit(a, e, -1) + pick(a, e, 0).len());
    let mut i: usize = 1;
    while i < 10
        invariant
            1 <= i <= 10,
            n == a.len(),
            n <= COUNT_CAPACITY,
            e >= 1,
            forall|x: int| 0 <= x < n ==> #[trigger] a[x] >= 0,
            forall|d: int| 0 <= d < i ==> #[trigger] count@[d] == up_to_digit(a, e, d),
            forall|d: int| i <= d < 10 ==> #[trigger] count@[d] == pick(a, e, d).len(),
        decreases 10 - i,
    {
        proof {
            lemma_up_to_len(a, e);
            lemma_up_to_monotone(a, e, i as int, 9);
        }
        count[i] = count[i] + count[i - 1];
        i = i + 1;
    }
    proof {
        lemma_up_to_len(a, e);
    }
    let mut output = [0i32; COUNT_CAPACITY];
    let mut j: usize = n;
    proof {
        assert(a.subrange(n as int, n as int) =~= Seq::<i32>::empty());
        assert forall|d: int| 0 <= d < 10 implies pick(Seq::<i32>::empty(), e, d).len() == 0 by {}
    }
    while j > 0
        invariant
            a == arr@,
            n == a.len(),
            n <= COUNT_CAPACITY,
            0 <= j <= n,
            e == exp,
            e >= 1,
            forall|x: int| 0 <= x < n ==> #[trigger] a[x] >= 0,
            up_to_digit(a, e, 9) == n,
            forall|d: int|
                0 <= d < 10 ==> #[trigger] count@[d] == up_to_digit(a, e, d) - pick(a.subrange(j as int, n as int), e, d).len(),
            forall|d: int, k: int|
                0 <= d < 10 && 0 <= k < pick(a.subrange(j as int, n as int), e, d).len() ==> output@[count@[d] + k]
                    == #[trigger] pick(a.subrange(j as int, n as int), e, d)[k],
        decreases j,
    {
        j = j - 1;
        let num = arr[j];
        let d = (num as u32 / exp as u32 % 10) as usize;
        let ghost suf = a.subrange(j as int, n as int);
        let ghost rest = a.subrange(j + 1, n as int);
        let ghost old_count = count@;
        let ghost old_out = output@;
        proof {
            assert(d == digit(num, e));
            assert(suf.skip(1) =~= rest);
            assert(suf[0] == num);
            assert(a.skip(j as int) =~= suf);
            lemma_pick_skip_len(a, e, d as int, j as int);
            lemma_up_to_monotone(a, e, d as int, 9);
            assert(pick(suf, e, d as int) =~= seq![num] + pick(rest, e, d as int));
        }
        let place = count[d] - 1;
        output[place] = num;
        count[d] = place;
        proof {
            assert forall|x: int| 0 <= x < 10 && x != d implies pick(suf, e, x) == pick(rest, e, x) by {
                assert(suf.len() > 0);
                assert(pick(suf, e, x) == (if digit(suf[0], e) == x { seq![suf[0]] } else { Seq::empty() }) + pick(
                    suf.skip(1),
                    e,
                    x,
                ));
                assert(pick(suf, e, x) =~= pick(rest, e, x));
            }
            assert forall|x: int| 0 <= x < 10 implies #[trigger] count@[x] == up_to_digit(a, e, x) - pick(suf, e, x).len() by {
            }
            assert forall|x: int, k: int|
                0 <= x < 10 && 0 <= k < pick(suf, e, x).len() implies output@[count@[x] + k]
                == #[trigger] pick(suf, e, x)[k] by {
                assert(output@ == old_out.update(place as int, num));
                assert(place + 1 == old_count[d as int]);
                assert(place as int >= up_to_digit(a, e, d - 1));
                assert(place as int <= up_to_digit(a, e, d as int));
                if x == d {
                    if k > 0 {
                        assert(pick(suf, e, x)[k] == pick(rest, e, x)[k - 1]);
                        assert(old_out[old_count[x] + (k - 1)] == pick(rest, e, x)[k - 1]);
                        assert(count@[x] + k == old_count[x] + (k - 1));
                        assert(output@[count@[x] + k] == old_out[old_count[x] + (k - 1)]);
                    } else {
                        assert(output@[place as int] == num);
                        assert(pick(suf, e, x)[0] == num);
                        assert(count@[x] == place);
                    }
                } else {
                    assert(count@[x] == old_count[x]);
                    assert(old_out[old_count[x] + k] == pick(rest, e, x)[k]);
                    assert(a.skip(j + 1) =~= rest);
                    lemma_pick_skip_len(a, e, x, j + 1);
                    assert(up_to_digit(a, e, x) == up_to_digit(a, e, x - 1) + pick(a, e, x).len());
                    assert(old_count[x] + k >= up_to_digit(a, e, x - 1));
                    assert(old_count[x] + k < up_to_digit(a, e, x));
                    if x < d {
                        lemma_up_to_monotone(a, e, x, d - 1);
                    } else {
                        lemma_up_to_monotone(a, e, d as int, x - 1);
                    }
                    assert(old_count[x] + k != place);
                    lemma_up_to_monotone(a, e, x, 9);
                    assert(old_count[x] + k < old_out.len());
                    assert(pick(suf, e, x) == pick(rest, e, x));
                    assert(output@[old_count[x] + k] == old_out[old_count[x] + k]);
                }
            }
        }
    }
    proof {
        assert(a.subrange(0, n as int) =~= a);
        assert forall|d: int| 0 <= d < 10 implies #[trigger] count@[d] == up_to_digit(a, e, d - 1) by {}
    }
    let mut t: usize = 0;
    while t < n
        invariant
            n == arr@.len(),
            n <= COUNT_CAPACITY,
            0 <= t <= n,
            forall|q: int| 0 <= q < t ==> arr@[q] == output@[q],
        decreases n - t,
    {
        arr[t] = output[t];
        t = t + 1;
    }
    proof {
        let fin = arr@;
        assert forall|p: int, d: int|
            0 <= d < 10 && up_to_digit(a, e, d - 1) <= p < #[trigger] up_to_digit(a, e, d) implies #[trigger] fin[p]
            == pick(a, e, d)[p - up_to_digit(a, e, d - 1)] by {
            lemma_up_to_monotone(a, e, d, 9);
            let k = p - up_to_digit(a, e, d - 1);
            assert(output@[count@[d] + k] == pick(a, e, d)[k]);
        }
    }
}

/// Least-significant-digit radix sort in base 10 on non-negative values
/// below 10^9 (the place value would overflow past them), through a buffer of
/// 256 values.
pub fn radix_sort(arr: &mut [i32])
    requires
        old(arr)@.len() <= COUNT_CAPACITY,
        forall|i: int| 0 <= i < old(arr)@.len() ==> 0 <= #[trigger] old(arr)@[i] < 1_000_000_000,
    ensures
        final(arr)@.len() == old(arr)@.len(),
        sorted(final(arr)@),
        permutes(final(arr)@, old(arr)@),
{
    broadcast use vstd::seq_lib::group_to_multiset_ensures;

    let ghost a = arr@;
    let n = arr.len();
    if n == 0 {
        return;
    }
    let mut max: i32 = arr[0];
    let mut k: usize = 0;
    while k < n
        invariant
            arr@ == a,
            n == a.len(),
            0 <= k <= n,
            0 <= max < 1_000_000_000,
            forall|i: int| 0 <= i < n ==> 0 <= #[trigger] a[i] < 1_000_000_000,
            forall|i: int| 0 <= i < k ==> #[trigger] a[i] <= max,
        decreases n - k,
    {
        if arr[k] > max {
            max = arr[k];
        }
        k = k + 1;
    }
    let mut exp: i32 = 1;
    while max / exp > 0
        invariant
            n == arr@.len(),
            n == a.len(),
            n <= COUNT_CAPACITY,
            exp == 1 || exp == 10 || exp == 100 || exp == 1000 || exp == 10000 || exp == 100000 || exp == 1000000
                || exp == 10000000 || exp == 100000000 || exp == 1000000000,
            0 <= max < 1_000_000_000,
            forall|i: int| 0 <= i < n ==> 0 <= #[trigger] arr@[i] <= max,
            permutes(arr@, a),
            sorted_low(arr@, exp as int),
        decreases 1_000_000_000 - exp,
    {
        let ghost before = arr@;
        radix_pass(arr, exp);
        proof {
            lemma_pass_permutes(arr@, before, exp as int);
            lemma_pass_sorted(arr@, before, exp as int);
            lemma_permutes_at_most(arr@, before, max);
            lemma_permutes_bounds(arr@, before, 0);
            assert(all_at_most(before, max));
            assert(all_at_least(before, 0));
            if max < exp {
                vstd::arithmetic::div_mod::lemma_basic_div(max as int, exp as int);
            }
            assert(exp <= max);
        }
        exp = exp * 10;
    }
    proof {
        vstd::arithmetic::div_mod::lemma_fundamental_div_mod(max as int, exp as int);
        vstd::arithmetic::div_mod::lemma_mod_bound(max as int, exp as int);
        assert(max < exp);
        assert forall|i: int| 0 <= i < n implies (arr@[i] as int) % (exp as int) == arr@[i] by {
            vstd::arithmetic::div_mod::lemma_small_mod(arr@[i] as nat, exp as nat);
        }
    }
}

} // verus!
