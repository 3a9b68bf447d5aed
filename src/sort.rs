use rand::Rng;
use vstd::prelude::*;
use vstd::multiset::{group_multiset_axioms, lemma_multiset_empty_len};
use vstd::seq_lib::{
    lemma_multiset_commutative, to_multiset_build, to_multiset_contains, to_multiset_len,
    to_multiset_update,
};

verus! {

/// The entries of `s` from `lo` up to `hi` are in ascending order.
pub open spec fn sorted_range(s: Seq<i32>, lo: int, hi: int) -> bool {
    forall|a: int, b: int| lo <= a < b < hi ==> s[a] <= s[b]
}

pub open spec fn sorted(s: Seq<i32>) -> bool {
    sorted_range(s, 0, s.len() as int)
}

/// `a` holds the same entries as `b`, each as often.
pub open spec fn permutes(a: Seq<i32>, b: Seq<i32>) -> bool {
    a.to_multiset() == b.to_multiset()
}

/// `s` with entries `i` and `j` exchanged.
pub open spec fn swapped(s: Seq<i32>, i: int, j: int) -> Seq<i32> {
    s.update(i, s[j]).update(j, s[i])
}

/// Exchanging two entries keeps the same entries.
pub proof fn lemma_swap_permutes(s: Seq<i32>, i: int, j: int)
    requires
        0 <= i < s.len(),
        0 <= j < s.len(),
    ensures
        permutes(swapped(s, i, j), s),
{
    broadcast use to_multiset_update, to_multiset_contains;

    assert(s.contains(s[i]));
    let t = s.update(i, s[j]);
    assert(t.to_multiset() == s.to_multiset().insert(s[j]).remove(s[i]));
    assert(t[j] == if i == j { s[j] } else { s[j] });
    assert(swapped(s, i, j).to_multiset() == t.to_multiset().insert(s[i]).remove(t[j]));
    assert(swapped(s, i, j).to_multiset() =~= s.to_multiset());
}

proof fn lemma_xor_swap(a: i32, b: i32)
    ensures
        (a ^ b) ^ b == a,
        (a ^ b) ^ ((a ^ b) ^ b) == b,
{
    assert((a ^ b) ^ b == a) by (bit_vector);
    assert((a ^ b) ^ ((a ^ b) ^ b) == b) by (bit_vector);
}

/// Exchanges entries `i` and `j` by three exclusive-ors; the two must differ,
/// as one entry would be zeroed.
fn swap(s: &mut Vec<i32>, i: usize, j: usize)
    requires
        i < old(s)@.len(),
        j < old(s)@.len(),
        i != j,
    ensures
        final(s)@ == swapped(old(s)@, i as int, j as int),
        permutes(final(s)@, old(s)@),
{
    proof {
        lemma_xor_swap(s@[i as int], s@[j as int]);
        lemma_swap_permutes(s@, i as int, j as int);
    }
    let x = s[i] ^ s[j];
    s.set(i, x);
    let y = s[i] ^ s[j];
    s.set(j, y);
    let z = s[i] ^ s[j];
    s.set(i, z);
    assert(s@ =~= swapped(old(s)@, i as int, j as int));
}

/// Sorts by passes that carry the largest remaining entry to the end.
pub fn bubble_sort(s: &mut Vec<i32>)
    ensures
        sorted(final(s)@),
        permutes(final(s)@, old(s)@),
{
    if s.len() < 2 {
        return;
    }
    let length = s.len();
    let mut i: usize = 0;
    while i < length
        invariant
            length == s@.len(),
            i <= length,
            permutes(s@, old(s)@),
            sorted_range(s@, length - i, length as int),
            forall|a: int, b: int| 0 <= a < length - i <= b < length ==> s@[a] <= s@[b],
        decreases length - i,
    {
        let mut j: usize = 0;
        while j < length - i - 1
            invariant
                length == s@.len(),
                i < length,
                j <= length - i - 1,
                permutes(s@, old(s)@),
                sorted_range(s@, length - i, length as int),
                forall|a: int, b: int| 0 <= a < length - i <= b < length ==> s@[a] <= s@[b],
                forall|a: int| 0 <= a <= j ==> s@[a] <= s@[j as int],
            decreases length - i - 1 - j,
        {
            if s[j] > s[j + 1] {
                swap(s, j, j + 1);
            }
            j = j + 1;
        }
        i = i + 1;
    }
}

/// Sorts by moving the smallest remaining entry to the front of the rest.
pub fn select_sort(s: &mut Vec<i32>)
    ensures
        sorted(final(s)@),
        permutes(final(s)@, old(s)@),
{
    if s.len() < 2 {
        return;
    }
    let length = s.len();
    let mut i: usize = 0;
    while i < length
        invariant
            length == s@.len(),
            i <= length,
            permutes(s@, old(s)@),
            sorted_range(s@, 0, i as int),
            forall|a: int, b: int| 0 <= a < i <= b < length ==> s@[a] <= s@[b],
        decreases length - i,
    {
        let mut min_index = i;
        let mut j = i + 1;
        while j < length
            invariant
                length == s@.len(),
                i < length,
                i <= min_index < length,
                i < j <= length,
                min_index < j,
                forall|b: int| i <= b < j ==> s@[min_index as int] <= s@[b],
            decreases length - j,
        {
            if s[min_index] > s[j] {
                min_index = j;
            }
            j = j + 1;
        }
        if min_index != i {
            swap(s, min_index, i);
        }
        i = i + 1;
    }
}

/// Sorts by moving each entry left past the larger ones before it.
pub fn insert_sort(s: &mut Vec<i32>)
    ensures
        sorted(final(s)@),
        permutes(final(s)@, old(s)@),
{
    if s.len() < 2 {
        return;
    }
    let length = s.len();
    let mut k: usize = 1;
    while k < length
        invariant
            length == s@.len(),
            1 <= k <= length,
            permutes(s@, old(s)@),
            sorted_range(s@, 0, k as int),
        decreases length - k,
    {
        let mut i = k;
        while i > 0 && s[i] <= s[i - 1]
            invariant
                length == s@.len(),
                k < length,
                i <= k,
                permutes(s@, old(s)@),
                sorted_range(s@, 0, i as int),
                sorted_range(s@, i + 1, k + 1),
                forall|a: int, b: int| 0 <= a < i < b <= k ==> s@[a] <= s@[b],
                forall|b: int| i < b <= k ==> s@[i as int] <= s@[b],
            decreases i,
        {
            swap(s, i, i - 1);
            i = i - 1;
        }
        k = k + 1;
    }
}

/// `a` and `b` agree outside `lo..hi`, and inside it hold the same entries.
pub open spec fn permutes_within(a: Seq<i32>, b: Seq<i32>, lo: int, hi: int) -> bool {
    &&& a.len() == b.len()
    &&& forall|k: int| 0 <= k < a.len() && !(lo <= k < hi) ==> a[k] == b[k]
    &&& permutes(a.subrange(lo, hi), b.subrange(lo, hi))
}

/// Rearranging a range rearranges the whole.
pub proof fn lemma_permutes_within(a: Seq<i32>, b: Seq<i32>, lo: int, hi: int)
    requires
        0 <= lo <= hi <= a.len(),
        permutes_within(a, b, lo, hi),
    ensures
        permutes(a, b),
{
    broadcast use lemma_multiset_commutative;

    assert(a =~= a.subrange(0, lo) + a.subrange(lo, hi) + a.subrange(hi, a.len() as int));
    assert(b =~= b.subrange(0, lo) + b.subrange(lo, hi) + b.subrange(hi, b.len() as int));
    assert(a.subrange(0, lo) =~= b.subrange(0, lo));
    assert(a.subrange(hi, a.len() as int) =~= b.subrange(hi, b.len() as int));
}

/// Rearranging a range twice rearranges it.
pub proof fn lemma_permutes_within_trans(a: Seq<i32>, b: Seq<i32>, c: Seq<i32>, lo: int, hi: int)
    requires
        permutes_within(a, b, lo, hi),
        permutes_within(b, c, lo, hi),
    ensures
        permutes_within(a, c, lo, hi),
{
}

/// A rearrangement of a smaller range is one of a larger range.
pub proof fn lemma_permutes_within_widen(
    a: Seq<i32>,
    b: Seq<i32>,
    lo: int,
    hi: int,
    lo2: int,
    hi2: int,
)
    requires
        0 <= lo2 <= lo <= hi <= hi2 <= a.len(),
        permutes_within(a, b, lo, hi),
    ensures
        permutes_within(a, b, lo2, hi2),
{
    let a2 = a.subrange(lo2, hi2);
    let b2 = b.subrange(lo2, hi2);
    assert(a2.subrange(lo - lo2, hi - lo2) =~= a.subrange(lo, hi));
    assert(b2.subrange(lo - lo2, hi - lo2) =~= b.subrange(lo, hi));
    lemma_permutes_within(a2, b2, lo - lo2, hi - lo2);
}

/// The multiset of a range grows by one entry as the range does.
proof fn lemma_range_push(s: Seq<i32>, lo: int, hi: int)
    requires
        0 <= lo <= hi < s.len(),
    ensures
        s.subrange(lo, hi + 1).to_multiset() == s.subrange(lo, hi).to_multiset().insert(s[hi]),
{
    broadcast use to_multiset_build;

    assert(s.subrange(lo, hi + 1) =~= s.subrange(lo, hi).push(s[hi]));
}

/// Merges the sorted ranges `l..=mid` and `mid+1..=r` into one sorted range.
fn merge(s: &mut Vec<i32>, l: usize, mid: usize, r: usize)
    requires
        l <= mid < r < old(s)@.len(),
        sorted_range(old(s)@, l as int, mid + 1),
        sorted_range(old(s)@, mid + 1, r + 1),
    ensures
        sorted_range(final(s)@, l as int, r + 1),
        permutes_within(final(s)@, old(s)@, l as int, r + 1),
{
    broadcast use to_multiset_build, lemma_multiset_commutative, group_multiset_axioms;
    broadcast use to_multiset_len, lemma_multiset_empty_len;

    let ghost s0 = s@;
    let n = s.len();
    let mut help: Vec<i32> = Vec::new();
    let mut ia = l;
    let mut ib = mid + 1;
    assert(s0.subrange(l as int, l as int).to_multiset().len() == 0);
    assert(s0.subrange(mid + 1, mid + 1).to_multiset().len() == 0);
    assert(help@.to_multiset().len() == 0);
    assert(help@.to_multiset() =~= s0.subrange(l as int, ia as int).to_multiset().add(
        s0.subrange(mid + 1, ib as int).to_multiset(),
    ));
    while ia <= mid || ib <= r
        invariant
            s@ == s0,
            n == s0.len(),
            l <= mid < r < s0.len(),
            sorted_range(s0, l as int, mid + 1),
            sorted_range(s0, mid + 1, r + 1),
            l <= ia <= mid + 1,
            mid + 1 <= ib <= r + 1,
            help@.len() == (ia - l) + (ib - mid - 1),
            help@.to_multiset() == s0.subrange(l as int, ia as int).to_multiset().add(
                s0.subrange(mid + 1, ib as int).to_multiset(),
            ),
            sorted(help@),
            help@.len() > 0 && ia <= mid ==> help@.last() <= s0[ia as int],
            help@.len() > 0 && ib <= r ==> help@.last() <= s0[ib as int],
        decreases (mid + 1 - ia) + (r + 1 - ib),
    {
        if ib > r || (ia <= mid && s[ia] < s[ib]) {
            proof {
                lemma_range_push(s0, l as int, ia as int);
            }
            let ghost h0 = help@;
            help.push(s[ia]);
            assert(help@ == h0.push(s0[ia as int]));
            proof {
                to_multiset_build(h0, s0[ia as int]);
            }
            ia = ia + 1;
        } else {
            proof {
                lemma_range_push(s0, mid + 1, ib as int);
            }
            let ghost h0 = help@;
            help.push(s[ib]);
            assert(help@ == h0.push(s0[ib as int]));
            proof {
                to_multiset_build(h0, s0[ib as int]);
            }
            ib = ib + 1;
        }
    }
    proof {
        assert(s0.subrange(l as int, r + 1) =~= s0.subrange(l as int, mid + 1) + s0.subrange(
            mid + 1,
            r + 1,
        ));
        assert(help@.to_multiset() == s0.subrange(l as int, r + 1).to_multiset());
    }
    let mut i: usize = 0;
    while i < help.len()
        invariant
            l <= mid < r < s0.len(),
            s@.len() == s0.len(),
            help@.len() == r + 1 - l,
            sorted(help@),
            help@.to_multiset() == s0.subrange(l as int, r + 1).to_multiset(),
            i <= help@.len(),
            forall|k: int| 0 <= k < s0.len() && !(l <= k < l + i) ==> s@[k] == s0[k],
            forall|k: int| 0 <= k < i ==> s@[l + k] == help@[k],
        decreases help@.len() - i,
    {
        s.set(l + i, help[i]);
        i = i + 1;
    }
    assert(s@.subrange(l as int, r + 1) =~= help@);
    assert forall|a: int, b: int| l <= a < b < r + 1 implies s@[a] <= s@[b] by {
        assert(s@[a] == help@[a - l]);
        assert(s@[b] == help@[b - l]);
    }
}

/// Sorts the range `l..=r`.
pub fn merge_sort(s: &mut Vec<i32>, l: usize, r: usize)
    requires
        l <= r < old(s)@.len(),
    ensures
        sorted_range(final(s)@, l as int, r + 1),
        permutes_within(final(s)@, old(s)@, l as int, r + 1),
        permutes(final(s)@, old(s)@),
    decreases r - l,
{
    if l == r {
        assert(s@.subrange(l as int, r + 1) =~= old(s)@.subrange(l as int, r + 1));
        return;
    }
    let d = r - l;
    let h = d >> 1;
    assert(h == d / 2) by (bit_vector)
        requires
            h == d >> 1,
    ;
    let mid = l + h;
    let ghost s0 = s@;
    merge_sort(s, l, mid);
    let ghost s1 = s@;
    merge_sort(s, mid + 1, r);
    let ghost s2 = s@;
    proof {
        assert forall|a: int, b: int| l <= a < b < mid + 1 implies s2[a] <= s2[b] by {
            assert(s2[a] == s1[a] && s2[b] == s1[b]);
        }
        lemma_permutes_within_widen(s1, s0, l as int, mid + 1, l as int, r + 1);
        lemma_permutes_within_widen(s2, s1, mid + 1, r + 1, l as int, r + 1);
        lemma_permutes_within_trans(s2, s1, s0, l as int, r + 1);
    }
    merge(s, l, mid, r);
    proof {
        lemma_permutes_within_trans(s@, s2, s0, l as int, r + 1);
        lemma_permutes_within(s@, s0, l as int, r + 1);
    }
}

/// Exchanging two entries of a range rearranges the range.
pub proof fn lemma_swap_within(s: Seq<i32>, i: int, j: int, lo: int, hi: int)
    requires
        0 <= lo <= i < hi <= s.len(),
        lo <= j < hi,
    ensures
        permutes_within(swapped(s, i, j), s, lo, hi),
{
    let t = s.subrange(lo, hi);
    assert(swapped(s, i, j).subrange(lo, hi) =~= swapped(t, i - lo, j - lo));
    lemma_swap_permutes(t, i - lo, j - lo);
}

/// Every entry of a rearrangement is an entry of the original.
pub proof fn lemma_permutes_contains(a: Seq<i32>, b: Seq<i32>, k: int)
    requires
        permutes(a, b),
        0 <= k < a.len(),
    ensures
        b.contains(a[k]),
{
    broadcast use to_multiset_contains;

    assert(a.contains(a[k]));
    assert(a.to_multiset().count(a[k]) > 0);
    assert(b.to_multiset().count(a[k]) > 0);
}

/// Exchanges entries `i` and `j`, which may be the same.
fn exchange(s: &mut Vec<i32>, i: usize, j: usize)
    requires
        i < old(s)@.len(),
        j < old(s)@.len(),
    ensures
        final(s)@ == swapped(old(s)@, i as int, j as int),
{
    let t = s[i];
    let u = s[j];
    s.set(i, u);
    s.set(j, t);
    assert(s@ =~= swapped(old(s)@, i as int, j as int));
}

/// Relies on rand's `thread_rng` and `Rng::gen_range`: a number from the
/// range `low..=high`, which must not be empty.
#[verifier::external_body]
fn random_index(low: usize, high: usize) -> (r: usize)
    requires
        low <= high,
    ensures
        low <= r <= high,
{
    rand::thread_rng().gen_range(low..=high)
}

/// Splits `low..=high` round a pivot taken at random: entries below it first,
/// then those equal to it, then those above. Returns the last index of the
/// lower part (or the one before `low`, but not below 0, when it is empty)
/// and the last index of the middle part.
fn partition(arr: &mut Vec<i32>, low: usize, high: usize) -> (r: (usize, usize))
    requires
        low < high < old(arr)@.len(),
    ensures
        permutes_within(final(arr)@, old(arr)@, low as int, high + 1),
        low <= r.1 <= high,
        r.0 <= r.1,
        r.0 < high,
        ({
            let p = final(arr)@[r.1 as int];
            &&& forall|k: int| low <= k <= r.0 ==> #[trigger] final(arr)@[k] <= p
            &&& forall|k: int| r.0 < k <= r.1 ==> #[trigger] final(arr)@[k] == p
            &&& forall|k: int| r.1 < k <= high ==> #[trigger] final(arr)@[k] > p
        }),
{
    let ghost s0 = arr@;
    let r = random_index(low, high);
    proof {
        lemma_swap_within(arr@, high as int, r as int, low as int, high + 1);
    }
    exchange(arr, high, r);
    let p = arr[high];
    let mut lt = low;
    let mut cur = low;
    let mut right = high;
    while cur < right
        invariant
            low < high < arr@.len(),
            low <= lt <= cur <= right <= high,
            arr@[high as int] == p,
            permutes_within(arr@, s0, low as int, high + 1),
            forall|k: int| low <= k < lt ==> #[trigger] arr@[k] < p,
            forall|k: int| lt <= k < cur ==> #[trigger] arr@[k] == p,
            forall|k: int| right <= k < high ==> #[trigger] arr@[k] > p,
        decreases right - cur,
    {
        let ghost before = arr@;
        if arr[cur] < p {
            proof {
                lemma_swap_within(before, cur as int, lt as int, low as int, high + 1);
                lemma_permutes_within_trans(swapped(before, cur as int, lt as int), before, s0, low as int, high + 1);
            }
            exchange(arr, cur, lt);
            lt = lt + 1;
            cur = cur + 1;
        } else if arr[cur] > p {
            right = right - 1;
            proof {
                lemma_swap_within(before, cur as int, right as int, low as int, high + 1);
                lemma_permutes_within_trans(swapped(before, cur as int, right as int), before, s0, low as int, high + 1);
            }
            exchange(arr, cur, right);
        } else {
            cur = cur + 1;
        }
    }
    let ghost before = arr@;
    proof {
        lemma_swap_within(before, right as int, high as int, low as int, high + 1);
        lemma_permutes_within_trans(swapped(before, right as int, high as int), before, s0, low as int, high + 1);
    }
    exchange(arr, right, high);
    let left = if lt == 0 { 0 } else { lt - 1 };
    assert(arr@[right as int] == p);
    (left, right)
}

/// Sorts the range `low..=high`; an empty range is left as it is.
fn quick_sort_range(arr: &mut Vec<i32>, low: usize, high: usize)
    requires
        low < high ==> high < old(arr)@.len(),
    ensures
        low < high ==> sorted_range(final(arr)@, low as int, high + 1) && permutes_within(
            final(arr)@,
            old(arr)@,
            low as int,
            high + 1,
        ),
        low >= high ==> final(arr)@ == old(arr)@,
    decreases if low < high { high - low } else { 0 },
{
    if low < high {
        let ghost s0 = arr@;
        let partition = partition(arr, low, high);
        let ghost s1 = arr@;
        let ghost p = s1[partition.1 as int];
        quick_sort_range(arr, low, partition.0);
        let ghost s2 = arr@;
        let n = arr.len();
        assert(partition.1 < n);
        quick_sort_range(arr, partition.1 + 1, high);
        let ghost s3 = arr@;
        proof {
            let a = partition.0 as int;
            let b = partition.1 as int;
            if low < partition.0 {
                lemma_permutes_within_widen(s2, s1, low as int, a + 1, low as int, high + 1);
            } else {
                assert(s2 =~= s1);
                assert(s2.subrange(low as int, high + 1) =~= s1.subrange(low as int, high + 1));
            }
            if partition.1 + 1 < high {
                lemma_permutes_within_widen(s3, s2, b + 1, high + 1, low as int, high + 1);
            } else {
                assert(s3 =~= s2);
                assert(s3.subrange(low as int, high + 1) =~= s2.subrange(low as int, high + 1));
            }
            lemma_permutes_within_trans(s3, s2, s1, low as int, high + 1);
            lemma_permutes_within_trans(s3, s1, s0, low as int, high + 1);
            assert forall|k: int| low <= k <= a implies #[trigger] s3[k] <= p by {
                if low < partition.0 {
                    let t2 = s2.subrange(low as int, a + 1);
                    let t1 = s1.subrange(low as int, a + 1);
                    lemma_permutes_contains(t2, t1, k - low);
                    let w = choose|w: int| 0 <= w < t1.len() && t1[w] == t2[k - low];
                    assert(s1[low + w] == t1[w]);
                }
                assert(s3[k] == s2[k]);
            }
            assert forall|k: int| b < k <= high implies #[trigger] s3[k] > p by {
                if partition.1 + 1 < high {
                    let t3 = s3.subrange(b + 1, high + 1);
                    let t2 = s2.subrange(b + 1, high + 1);
                    lemma_permutes_contains(t3, t2, k - b - 1);
                    let w = choose|w: int| 0 <= w < t2.len() && t2[w] == t3[k - b - 1];
                    assert(s2[b + 1 + w] == t2[w]);
                    assert(s2[b + 1 + w] == s1[b + 1 + w]);
                }
            }
            assert forall|k: int| a < k <= b implies #[trigger] s3[k] == p by {
                assert(s3[k] == s2[k] && s2[k] == s1[k]);
            }
            assert forall|x: int, y: int| low <= x < y < high + 1 implies s3[x] <= s3[y] by {
                if y <= a {
                    assert(low < partition.0);
                } else if x > b {
                    assert(partition.1 + 1 < high);
                } else {
                    assert(s3[x] <= p);
                    assert(p <= s3[y]);
                }
            }
        }
    }
}

/// The parent of entry `k` in a heap laid out in a sequence.
pub open spec fn heap_parent(k: int) -> int {
    (k - 1) / 2
}

/// The first `n` entries form a max-heap, except that the edges from entry
/// `hole` down to its children may be out of order; when `hole` has a
/// parent, that parent is at least every child of `hole`.
pub open spec fn heap_but_down(s: Seq<i32>, n: int, hole: int) -> bool {
    &&& forall|k: int| 1 <= k < n && heap_parent(k) != hole ==> s[heap_parent(k)] >= #[trigger] s[k]
    &&& hole > 0 ==> forall|k: int| 1 <= k < n && heap_parent(k) == hole ==> s[heap_parent(hole)] >= #[trigger] s[k]
}

/// The first `n` entries form a max-heap, except that the edge from entry
/// `hole` up to its parent may be out of order; the parent of `hole` is at
/// least every child of `hole`.
pub open spec fn heap_but_up(s: Seq<i32>, n: int, hole: int) -> bool {
    &&& forall|k: int| 1 <= k < n && k != hole ==> s[heap_parent(k)] >= #[trigger] s[k]
    &&& hole > 0 ==> forall|k: int| 1 <= k < n && heap_parent(k) == hole ==> s[heap_parent(hole)] >= #[trigger] s[k]
}

/// The first `n` entries form a max-heap.
pub open spec fn heap(s: Seq<i32>, n: int) -> bool {
    forall|k: int| 1 <= k < n ==> s[heap_parent(k)] >= #[trigger] s[k]
}

/// The root of a heap is its largest entry.
pub proof fn lemma_heap_root(s: Seq<i32>, n: int, k: int)
    requires
        heap(s, n),
        0 <= k < n,
    ensures
        s[0] >= s[k],
    decreases k,
{
    if k > 0 {
        lemma_heap_root(s, n, heap_parent(k));
    }
}

/// An upper bound of the entries of a range bounds a rearrangement of it.
pub proof fn lemma_permutes_bound(a: Seq<i32>, b: Seq<i32>, lo: int, hi: int, x: i32)
    requires
        0 <= lo <= hi <= a.len(),
        permutes_within(a, b, lo, hi),
        forall|k: int| lo <= k < hi ==> #[trigger] b[k] <= x,
    ensures
        forall|k: int| lo <= k < hi ==> #[trigger] a[k] <= x,
{
    assert forall|k: int| lo <= k < hi implies #[trigger] a[k] <= x by {
        let ta = a.subrange(lo, hi);
        let tb = b.subrange(lo, hi);
        lemma_permutes_contains(ta, tb, k - lo);
        let w = choose|w: int| 0 <= w < tb.len() && tb[w] == ta[k - lo];
        assert(b[lo + w] == tb[w]);
    }
}

/// Moves entry `i` up until its parent is at least as large, making the
/// first `i + 1` entries a heap when the first `i` were one.
fn heap_insert(arr: &mut Vec<i32>, i: usize)
    requires
        i < old(arr)@.len(),
        heap(old(arr)@, i as int),
    ensures
        heap(final(arr)@, i + 1),
        permutes_within(final(arr)@, old(arr)@, 0, i + 1),
{
    let mut index = i;
    assert(heap_but_up(arr@, i + 1, i as int));
    assert(arr@.subrange(0, i + 1) =~= old(arr)@.subrange(0, i + 1));
    while index > 0 && arr[index] > arr[(index - 1) / 2]
        invariant
            i < arr@.len(),
            index <= i,
            heap_but_up(arr@, i + 1, index as int),
            permutes_within(arr@, old(arr)@, 0, i + 1),
        decreases index,
    {
        let p = (index - 1) / 2;
        let ghost before = arr@;
        proof {
            lemma_swap_within(before, index as int, p as int, 0, i + 1);
            lemma_permutes_within_trans(swapped(before, index as int, p as int), before, old(arr)@, 0, i + 1);
        }
        exchange(arr, index, p);
        proof {
            let a = arr@;
            assert forall|k: int| 1 <= k < i + 1 && k != p implies a[heap_parent(k)] >= #[trigger] a[k] by {
                if k == index {
                } else if heap_parent(k) == index {
                    assert(before[heap_parent(index as int)] >= before[k]);
                } else if heap_parent(k) == p {
                    assert(before[p as int] >= before[k]);
                } else if k == p {
                } else {
                    assert(before[heap_parent(k)] >= before[k]);
                }
            }
            if p > 0 {
                assert forall|k: int| 1 <= k < i + 1 && heap_parent(k) == p implies a[heap_parent(p as int)] >= #[trigger] a[k] by {
                    assert(before[heap_parent(p as int)] >= before[p as int]);
                    if k != index {
                        assert(before[p as int] >= before[k]);
                    }
                }
            }
        }
        index = p;
    }
}

/// Moves entry `i` down past its larger child until both children are at
/// most it, making the first `heap_size` entries a heap.
#[verifier::rlimit(60)]
fn heapify(arr: &mut Vec<i32>, i: usize, heap_size: usize)
    requires
        i < heap_size <= old(arr)@.len(),
        heap_but_down(old(arr)@, heap_size as int, i as int),
    ensures
        heap(final(arr)@, heap_size as int),
        permutes_within(final(arr)@, old(arr)@, 0, heap_size as int),
{
    let mut parent = i;
    let mut settled = false;
    assert(arr@.subrange(0, heap_size as int) =~= old(arr)@.subrange(0, heap_size as int));
    while !settled && parent < heap_size / 2
        invariant
            heap_size <= arr@.len(),
            parent < heap_size,
            settled ==> heap(arr@, heap_size as int),
            !settled ==> heap_but_down(arr@, heap_size as int, parent as int),
            permutes_within(arr@, old(arr)@, 0, heap_size as int),
        decreases heap_size - parent + if settled { 0int } else { 1int },
    {
        let left = parent * 2 + 1;
        let largest = if left + 1 < heap_size && arr[left] < arr[left + 1] {
            left + 1
        } else {
            left
        };
        if arr[parent] > arr[largest] {
            proof {
                let a = arr@;
                assert forall|k: int| 1 <= k < heap_size implies a[heap_parent(k)] >= #[trigger] a[k] by {
                    if heap_parent(k) == parent {
                        assert(k == left || k == left + 1);
                    }
                }
            }
            settled = true;
        } else {
            let ghost before = arr@;
            proof {
                lemma_swap_within(before, parent as int, largest as int, 0, heap_size as int);
                lemma_permutes_within_trans(
                    swapped(before, parent as int, largest as int),
                    before,
                    old(arr)@,
                    0,
                    heap_size as int,
                );
            }
            exchange(arr, parent, largest);
            proof {
                let a = arr@;
                assert forall|k: int|
                    1 <= k < heap_size && heap_parent(k) != largest implies a[heap_parent(k)]
                    >= #[trigger] a[k] by {
                    if k == largest {
                    } else if heap_parent(k) == parent {
                        assert(k == left || k == left + 1);
                    } else if k == parent {
                        assert(before[heap_parent(parent as int)] >= before[largest as int]);
                    } else {
                        assert(before[heap_parent(k)] >= before[k]);
                    }
                }
                assert forall|k: int|
                    1 <= k < heap_size && heap_parent(k) == largest implies a[heap_parent(
                        largest as int,
                    )] >= #[trigger] a[k] by {
                    assert(before[largest as int] >= before[k]);
                }
            }
            parent = largest;
        }
    }
    if !settled {
        proof {
            let a = arr@;
            assert forall|k: int| 1 <= k < heap_size implies a[heap_parent(k)] >= #[trigger] a[k] by {
                if heap_parent(k) == parent {
                    assert(k >= parent * 2 + 1);
                }
            }
        }
    }
}

/// Sorts by building a max-heap and moving its root to the end, over and over.
#[verifier::rlimit(60)]
pub fn heap_sort(arr: &mut Vec<i32>)
    ensures
        sorted(final(arr)@),
        permutes(final(arr)@, old(arr)@),
{
    if arr.len() < 2 {
        return;
    }
    let len = arr.len();
    let mut heap_size = len - 1;
    let mut i: usize = 1;
    assert(arr@.subrange(0, len as int) =~= old(arr)@.subrange(0, len as int));
    while i < len
        invariant
            len == arr@.len(),
            1 <= i <= len,
            heap(arr@, i as int),
            permutes_within(arr@, old(arr)@, 0, len as int),
        decreases len - i,
    {
        let ghost before = arr@;
        heap_insert(arr, i);
        proof {
            lemma_permutes_within_widen(arr@, before, 0, i + 1, 0, len as int);
            lemma_permutes_within_trans(arr@, before, old(arr)@, 0, len as int);
        }
        i = i + 1;
    }
    proof {
        assert forall|k: int| 0 <= k < len implies arr@[0] >= #[trigger] arr@[k] by {
            lemma_heap_root(arr@, len as int, k);
        }
    }
    let ghost before = arr@;
    proof {
        lemma_swap_within(before, 0, heap_size as int, 0, len as int);
        lemma_permutes_within_trans(swapped(before, 0, heap_size as int), before, old(arr)@, 0, len as int);
    }
    exchange(arr, 0, heap_size);
    while heap_size > 0
        invariant
            len == arr@.len(),
            heap_size < len,
            heap_but_down(arr@, heap_size as int, 0),
            sorted_range(arr@, heap_size as int, len as int),
            forall|a: int, b: int| 0 <= a < heap_size <= b < len ==> arr@[a] <= arr@[b],
            permutes_within(arr@, old(arr)@, 0, len as int),
        decreases heap_size,
    {
        let ghost s0 = arr@;
        heapify(arr, 0, heap_size);
        let ghost s1 = arr@;
        proof {
            lemma_permutes_within_widen(s1, s0, 0, heap_size as int, 0, len as int);
            lemma_permutes_within_trans(s1, s0, old(arr)@, 0, len as int);
            if heap_size < len {
                lemma_permutes_bound(s1, s0, 0, heap_size as int, s0[heap_size as int]);
            }
            assert forall|a: int, b: int| 0 <= a < heap_size <= b < len implies s1[a] <= s1[b] by {
                lemma_permutes_bound(s1, s0, 0, heap_size as int, s0[b]);
            }
            assert forall|k: int| 0 <= k < heap_size implies s1[0] >= #[trigger] s1[k] by {
                lemma_heap_root(s1, heap_size as int, k);
            }
        }
        heap_size = heap_size - 1;
        proof {
            lemma_swap_within(s1, 0, heap_size as int, 0, len as int);
            lemma_permutes_within_trans(swapped(s1, 0, heap_size as int), s1, old(arr)@, 0, len as int);
        }
        exchange(arr, 0, heap_size);
        proof {
            let a = arr@;
            assert forall|k: int| 1 <= k < heap_size && heap_parent(k) != 0 implies a[heap_parent(k)] >= #[trigger] a[k] by {
                assert(s1[heap_parent(k)] >= s1[k]);
            }
        }
    }
    proof {
        lemma_permutes_within(arr@, old(arr)@, 0, len as int);
    }
}

/// Sorts by splitting round random pivots.
pub fn quick_sort(arr: &mut Vec<i32>)
    ensures
        sorted(final(arr)@),
        permutes(final(arr)@, old(arr)@),
{
    let len = arr.len();
    if len > 1 {
        quick_sort_range(arr, 0, len - 1);
        proof {
            lemma_permutes_within(arr@, old(arr)@, 0, len as int);
        }
    }
}

} // verus!
