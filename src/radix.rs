use vstd::arithmetic::div_mod::{lemma_mod_breakdown, lemma_small_mod};
use vstd::multiset::group_multiset_axioms;
use vstd::prelude::*;
use vstd::seq_lib::{lemma_multiset_commutative, to_multiset_build};

verus! {

/// Ten to the power `e`.
pub open spec fn pow10(e: nat) -> nat
    decreases e,
{
    if e == 0 {
        1
    } else {
        10 * pow10((e - 1) as nat)
    }
}

/// The decimal digit of `x` in place `d`, counted from 1 at the right.
pub open spec fn digit_of(x: usize, d: nat) -> nat {
    ((x as nat) / pow10((d - 1) as nat)) % 10
}

/// The number written by the last `d` decimal digits of `x`.
pub open spec fn low_digits(x: usize, d: nat) -> nat {
    (x as nat) % pow10(d)
}

/// The number of decimal digits of `x` (none for 0).
pub open spec fn ndigits(x: nat) -> nat
    decreases x,
{
    if x == 0 {
        0
    } else {
        1 + ndigits(x / 10)
    }
}

/// The entries are in ascending order of their last `d` digits.
pub open spec fn sorted_low(s: Seq<usize>, d: nat) -> bool {
    forall|a: int, b: int| 0 <= a < b < s.len() ==> low_digits(s[a], d) <= low_digits(s[b], d)
}

/// How many of the first `n` entries have digit `k` in place `d`.
pub open spec fn count_digit(a: Seq<usize>, d: nat, k: nat, n: int) -> nat
    decreases n,
{
    if n <= 0 {
        0
    } else {
        count_digit(a, d, k, n - 1) + if digit_of(a[n - 1], d) == k { 1nat } else { 0nat }
    }
}

/// The first `n` entries with digit `k` in place `d`, in order.
pub open spec fn keep_digit(a: Seq<usize>, d: nat, k: nat, n: int) -> Seq<usize>
    decreases n,
{
    if n <= 0 {
        Seq::empty()
    } else if digit_of(a[n - 1], d) == k {
        keep_digit(a, d, k, n - 1).push(a[n - 1])
    } else {
        keep_digit(a, d, k, n - 1)
    }
}

/// How many of the first `n` entries have a digit below `k` in place `d`.
pub open spec fn below(a: Seq<usize>, d: nat, k: nat, n: int) -> nat
    decreases k,
{
    if k == 0 {
        0
    } else {
        below(a, d, (k - 1) as nat, n) + count_digit(a, d, (k - 1) as nat, n)
    }
}

/// The first `n` entries grouped by their digit in place `d`, groups for
/// digits below `k` only, each group in its original order.
pub open spec fn blocks(a: Seq<usize>, d: nat, k: nat, n: int) -> Seq<usize>
    decreases k,
{
    if k == 0 {
        Seq::empty()
    } else {
        blocks(a, d, (k - 1) as nat, n) + keep_digit(a, d, (k - 1) as nat, n)
    }
}

/// One pass of a stable sort of `a` by the digit in place `d`.
pub open spec fn digit_pass(a: Seq<usize>, d: nat) -> Seq<usize> {
    blocks(a, d, 10, a.len() as int)
}

proof fn lemma_keep_len(a: Seq<usize>, d: nat, k: nat, n: int)
    ensures
        keep_digit(a, d, k, n).len() == count_digit(a, d, k, n),
    decreases n,
{
    if n > 0 {
        lemma_keep_len(a, d, k, n - 1);
    }
}

proof fn lemma_keep_digit(a: Seq<usize>, d: nat, k: nat, n: int)
    ensures
        forall|o: int| 0 <= o < keep_digit(a, d, k, n).len() ==> digit_of(
            #[trigger] keep_digit(a, d, k, n)[o],
            d,
        ) == k,
    decreases n,
{
    if n > 0 {
        lemma_keep_digit(a, d, k, n - 1);
        let prev = keep_digit(a, d, k, n - 1);
        assert forall|o: int| 0 <= o < keep_digit(a, d, k, n).len() implies digit_of(
            #[trigger] keep_digit(a, d, k, n)[o],
            d,
        ) == k by {
            if digit_of(a[n - 1], d) == k && o == prev.len() {
            } else {
                assert(keep_digit(a, d, k, n)[o] == prev[o]);
            }
        }
    }
}

proof fn lemma_count_grows(a: Seq<usize>, d: nat, k: nat, i: int, j: int)
    requires
        0 <= i <= j,
    ensures
        count_digit(a, d, k, i) <= count_digit(a, d, k, j),
        i < j && i < a.len() && digit_of(a[i], d) == k ==> count_digit(a, d, k, i) < count_digit(
            a,
            d,
            k,
            j,
        ),
    decreases j,
{
    if i < j {
        lemma_count_grows(a, d, k, i, j - 1);
    }
}

/// The entry `j` with digit `k` stands in its group at the number of such
/// entries before it.
proof fn lemma_keep_index(a: Seq<usize>, d: nat, k: nat, n: int, j: int)
    requires
        0 <= j < n <= a.len(),
        digit_of(a[j], d) == k,
    ensures
        count_digit(a, d, k, j) < keep_digit(a, d, k, n).len(),
        keep_digit(a, d, k, n)[count_digit(a, d, k, j) as int] == a[j],
    decreases n,
{
    lemma_keep_len(a, d, k, n);
    lemma_keep_len(a, d, k, n - 1);
    lemma_count_grows(a, d, k, j, n);
    if j < n - 1 {
        lemma_keep_index(a, d, k, n - 1, j);
    }
}

/// Every place of a group holds some entry.
proof fn lemma_cover(a: Seq<usize>, d: nat, k: nat, n: int, o: int)
    requires
        0 <= o < count_digit(a, d, k, n),
        n <= a.len(),
    ensures
        exists|j: int| 0 <= j < n && digit_of(a[j], d) == k && count_digit(a, d, k, j) == o,
    decreases n,
{
    if o < count_digit(a, d, k, n - 1) {
        lemma_cover(a, d, k, n - 1, o);
        let j = choose|j: int| 0 <= j < n - 1 && digit_of(a[j], d) == k && count_digit(a, d, k, j) == o;
        assert(0 <= j < n && digit_of(a[j], d) == k && count_digit(a, d, k, j) == o);
    } else {
        assert(digit_of(a[n - 1], d) == k && count_digit(a, d, k, n - 1) == o);
    }
}

proof fn lemma_blocks_len(a: Seq<usize>, d: nat, k: nat, n: int)
    ensures
        blocks(a, d, k, n).len() == below(a, d, k, n),
    decreases k,
{
    if k > 0 {
        lemma_blocks_len(a, d, (k - 1) as nat, n);
        lemma_keep_len(a, d, (k - 1) as nat, n);
    }
}

/// Place `o` of group `k` is place `below(k) + o` of the grouping.
proof fn lemma_blocks_index(a: Seq<usize>, d: nat, k: nat, kk: nat, n: int, o: int)
    requires
        k < kk,
        0 <= o < count_digit(a, d, k, n),
    ensures
        below(a, d, k, n) + o < blocks(a, d, kk, n).len(),
        blocks(a, d, kk, n)[below(a, d, k, n) + o] == keep_digit(a, d, k, n)[o],
    decreases kk,
{
    lemma_blocks_len(a, d, (kk - 1) as nat, n);
    lemma_keep_len(a, d, (kk - 1) as nat, n);
    lemma_keep_len(a, d, k, n);
    if k < kk - 1 {
        lemma_blocks_index(a, d, k, (kk - 1) as nat, n, o);
    }
}

proof fn lemma_below_grows(a: Seq<usize>, d: nat, k1: nat, k2: nat, n: int)
    requires
        k1 <= k2,
    ensures
        below(a, d, k1, n) <= below(a, d, k2, n),
    decreases k2,
{
    if k1 < k2 {
        lemma_below_grows(a, d, k1, (k2 - 1) as nat, n);
    }
}

/// Digits lie below 10, so the entries with a digit below 10 are all of them.
proof fn lemma_below_all(a: Seq<usize>, d: nat, k: nat, n: int)
    requires
        0 <= n,
    ensures
        below(a, d, k, n) == below(a, d, k, n - 1) + if n > 0 && digit_of(a[n - 1], d) < k {
            1nat
        } else {
            0nat
        },
        k >= 10 ==> below(a, d, k, n) == n,
        n == 0 ==> below(a, d, k, n) == 0,
    decreases k, n,
{
    if k > 0 {
        lemma_below_all(a, d, (k - 1) as nat, n);
    }
    if k >= 10 && n > 0 {
        lemma_below_all(a, d, k, n - 1);
        assert(digit_of(a[n - 1], d) < 10);
    }
}

/// Grouping keeps the same entries.
proof fn lemma_blocks_permutes(a: Seq<usize>, d: nat, k: nat, n: int)
    requires
        0 <= n <= a.len(),
    ensures
        k >= 10 ==> blocks(a, d, k, n).to_multiset() == a.subrange(0, n).to_multiset(),
        n > 0 ==> blocks(a, d, k, n).to_multiset() == if digit_of(a[n - 1], d) < k {
            blocks(a, d, k, n - 1).to_multiset().insert(a[n - 1])
        } else {
            blocks(a, d, k, n - 1).to_multiset()
        },
    decreases k, n,
{
    broadcast use lemma_multiset_commutative, to_multiset_build, group_multiset_axioms;

    if n > 0 && k > 0 {
        lemma_blocks_permutes(a, d, (k - 1) as nat, n);
        assert(blocks(a, d, k, n).to_multiset() =~= blocks(a, d, (k - 1) as nat, n).to_multiset().add(
            keep_digit(a, d, (k - 1) as nat, n).to_multiset(),
        ));
        assert(blocks(a, d, k, n - 1).to_multiset() =~= blocks(a, d, (k - 1) as nat, n - 1).to_multiset().add(
            keep_digit(a, d, (k - 1) as nat, n - 1).to_multiset(),
        ));
    }
    if n > 0 && k == 0 {
        assert(blocks(a, d, k, n) =~= blocks(a, d, k, n - 1));
    }
    if k >= 10 {
        if n > 0 {
            lemma_blocks_permutes(a, d, k, n - 1);
            assert(digit_of(a[n - 1], d) < 10);
            assert(a.subrange(0, n) =~= a.subrange(0, n - 1).push(a[n - 1]));
        } else {
            assert(blocks(a, d, k, n).len() == 0) by {
                lemma_blocks_len(a, d, k, n);
                lemma_below_all(a, d, k, n);
            }
            assert(blocks(a, d, k, n) =~= a.subrange(0, n));
        }
    }
}

proof fn lemma_pow10_pos(e: nat)
    ensures
        pow10(e) >= 1,
    decreases e,
{
    if e > 0 {
        lemma_pow10_pos((e - 1) as nat);
    }
}

/// The last `d` digits are digit `d` in its place plus the last `d - 1`.
proof fn lemma_low_split(x: usize, d: nat)
    requires
        d >= 1,
    ensures
        low_digits(x, d) == pow10((d - 1) as nat) * digit_of(x, d) + low_digits(x, (d - 1) as nat),
        low_digits(x, (d - 1) as nat) < pow10((d - 1) as nat),
{
    let m = pow10((d - 1) as nat) as int;
    lemma_pow10_pos((d - 1) as nat);
    lemma_mod_breakdown(x as int, m, 10);
    assert(pow10(d) == m * 10);
}

/// The group that place `p` of the grouping falls in.
proof fn lemma_locate(a: Seq<usize>, d: nat, k: nat, p: int) -> (g: nat)
    requires
        k < 10,
        below(a, d, k, a.len() as int) <= p < a.len(),
    ensures
        k <= g < 10,
        below(a, d, g, a.len() as int) <= p < below(a, d, g + 1, a.len() as int),
    decreases 10 - k,
{
    lemma_below_all(a, d, 10, a.len() as int);
    if p < below(a, d, k + 1, a.len() as int) {
        k
    } else {
        if k + 1 == 10 {
            assert(false);
        }
        lemma_locate(a, d, k + 1, p)
    }
}

/// An entry of the grouping: which group holds place `p`, and which entry of
/// the input it is.
proof fn lemma_place(a: Seq<usize>, d: nat, p: int) -> (r: (nat, int))
    requires
        0 <= p < a.len(),
    ensures
        r.0 < 10,
        0 <= r.1 < a.len(),
        digit_of(a[r.1], d) == r.0,
        p < digit_pass(a, d).len(),
        digit_pass(a, d)[p] == a[r.1],
        below(a, d, r.0, a.len() as int) <= p < below(a, d, r.0 + 1, a.len() as int),
        p == below(a, d, r.0, a.len() as int) + count_digit(a, d, r.0, r.1),
{
    let n = a.len() as int;
    let k = lemma_locate(a, d, 0, p);
    let o = p - below(a, d, k, n);
    lemma_cover(a, d, k, n, o);
    let j = choose|j: int| 0 <= j < n && digit_of(a[j], d) == k && count_digit(a, d, k, j) == o;
    lemma_blocks_index(a, d, k, 10, n, o);
    lemma_keep_index(a, d, k, n, j);
    (k, j)
}

/// A stable pass on digit `d` over entries sorted on their last `d - 1`
/// digits sorts them on their last `d` digits.
pub proof fn lemma_pass_sorted(a: Seq<usize>, d: nat)
    requires
        d >= 1,
        sorted_low(a, (d - 1) as nat),
    ensures
        digit_pass(a, d).len() == a.len(),
        sorted_low(digit_pass(a, d), d),
{
    let n = a.len() as int;
    let s = digit_pass(a, d);
    lemma_blocks_len(a, d, 10, n);
    lemma_below_all(a, d, 10, n);
    let m = pow10((d - 1) as nat) as int;
    assert forall|p: int, q: int| 0 <= p < q < s.len() implies low_digits(s[p], d) <= low_digits(
        s[q],
        d,
    ) by {
        let (k1, j1) = lemma_place(a, d, p);
        let (k2, j2) = lemma_place(a, d, q);
        lemma_low_split(a[j1], d);
        lemma_low_split(a[j2], d);
        if k1 > k2 {
            lemma_below_grows(a, d, k2 + 1, k1, n);
            assert(false);
        }
        if k1 < k2 {
            let x1 = low_digits(a[j1], (d - 1) as nat) as int;
            let x2 = low_digits(a[j2], (d - 1) as nat) as int;
            assert(m * k1 + x1 < m * k2 + x2) by (nonlinear_arith)
                requires
                    k1 < k2,
                    0 <= x1 < m,
                    0 <= x2,
                    m >= 1,
            ;
        } else {
            if j2 <= j1 {
                lemma_count_grows(a, d, k1, j2, j1);
                assert(false);
            }
        }
    }
}

/// Grouping keeps the same entries.
pub proof fn lemma_pass_permutes(a: Seq<usize>, d: nat)
    ensures
        digit_pass(a, d).to_multiset() == a.to_multiset(),
{
    lemma_blocks_permutes(a, d, 10, a.len() as int);
    assert(a.subrange(0, a.len() as int) =~= a);
}

proof fn lemma_pow10_big(e: nat)
    ensures
        pow10(e) >= e + 1,
        e >= 1 ==> pow10(e) >= e + 2,
    decreases e,
{
    if e > 0 {
        lemma_pow10_big((e - 1) as nat);
    }
}

proof fn lemma_pow10_grows(i: nat, j: nat)
    requires
        i <= j,
    ensures
        pow10(i) <= pow10(j),
    decreases j,
{
    if i < j {
        lemma_pow10_grows(i, (j - 1) as nat);
    }
}

/// A number lies below ten to the power of its digit count, and at or above
/// ten to the power one less.
proof fn lemma_ndigits(x: nat)
    ensures
        x < pow10(ndigits(x)),
        ndigits(x) >= 1 ==> pow10((ndigits(x) - 1) as nat) <= x,
        ndigits(x) <= x,
    decreases x,
{
    if x > 0 {
        lemma_ndigits(x / 10);
        let q = x / 10;
        assert(x < 10 * q + 10);
        if ndigits(q) >= 1 {
            assert(10 * q <= x);
        }
    }
}

proof fn lemma_count_le(a: Seq<usize>, d: nat, k: nat, n: int)
    requires
        0 <= n,
    ensures
        count_digit(a, d, k, n) <= n,
    decreases n,
{
    if n > 0 {
        lemma_count_le(a, d, k, n - 1);
    }
}

/// The largest digit count among the entries (0 when there are none).
pub open spec fn max_digits(s: Seq<usize>) -> nat
    decreases s.len(),
{
    if s.len() == 0 {
        0
    } else {
        let m = max_digits(s.drop_last());
        let x = ndigits(s.last() as nat);
        if x > m { x } else { m }
    }
}

proof fn lemma_max_digits(s: Seq<usize>)
    ensures
        forall|i: int| 0 <= i < s.len() ==> (#[trigger] s[i] as nat) < pow10(max_digits(s)),
        max_digits(s) >= 1 ==> pow10((max_digits(s) - 1) as nat) <= usize::MAX,
    decreases s.len(),
{
    if s.len() > 0 {
        let t = s.drop_last();
        lemma_max_digits(t);
        lemma_ndigits(s.last() as nat);
        let m = max_digits(s);
        assert forall|i: int| 0 <= i < s.len() implies (#[trigger] s[i] as nat) < pow10(m) by {
            if i < s.len() - 1 {
                assert(s[i] == t[i]);
                lemma_pow10_grows(max_digits(t), m);
            } else {
                lemma_pow10_grows(ndigits(s.last() as nat), m);
            }
        }
    }
}

/// Ten to the power `e`, which must fit in a `usize`.
fn pow10_of(e: usize) -> (r: usize)
    requires
        pow10(e as nat) <= usize::MAX,
    ensures
        r == pow10(e as nat),
{
    let mut r: usize = 1;
    let mut i: usize = 0;
    while i < e
        invariant
            i <= e,
            r == pow10(i as nat),
            pow10(e as nat) <= usize::MAX,
        decreases e - i,
    {
        proof {
            lemma_pow10_grows((i + 1) as nat, e as nat);
        }
        r = r * 10;
        i = i + 1;
    }
    r
}

/// The decimal digit of `num` in place `d`, counted from 1 at the right.
pub fn get_digist(num: usize, d: usize) -> (r: usize)
    requires
        d >= 1,
        pow10((d - 1) as nat) <= usize::MAX,
    ensures
        r == digit_of(num, d as nat),
{
    proof {
        lemma_pow10_pos((d - 1) as nat);
    }
    num / pow10_of(d - 1) % 10
}

/// The largest number of decimal digits among the entries.
pub fn get_radix(arr: &Vec<usize>) -> (r: usize)
    ensures
        r == max_digits(arr@),
{
    let mut max: usize = 0;
    let mut i: usize = 0;
    while i < arr.len()
        invariant
            i <= arr@.len(),
            max == max_digits(arr@.subrange(0, i as int)),
        decreases arr@.len() - i,
    {
        let mut d: usize = 0;
        let mut num = arr[i];
        proof {
            lemma_ndigits(num as nat);
        }
        while num != 0
            invariant
                d + ndigits(num as nat) == ndigits(arr@[i as int] as nat),
                d <= ndigits(arr@[i as int] as nat),
                ndigits(arr@[i as int] as nat) <= usize::MAX,
            decreases num,
        {
            num = num / 10;
            d = d + 1;
        }
        assert(arr@.subrange(0, i as int + 1).drop_last() =~= arr@.subrange(0, i as int));
        if d > max {
            max = d;
        }
        i = i + 1;
    }
    assert(arr@.subrange(0, i as int) =~= arr@);
    max
}

/// Where the entry `j` goes in a stable pass on digit `d`.
pub open spec fn place_of(a: Seq<usize>, d: nat, j: int) -> int {
    (below(a, d, digit_of(a[j], d), a.len() as int) + count_digit(a, d, digit_of(a[j], d), j)) as int
}

/// One stable counting pass on digit `d`: `bucket` receives `arr` grouped by
/// that digit, and `arr` takes the result.
fn radix_pass(arr: &mut Vec<usize>, bucket: &mut Vec<usize>, d: usize)
    requires
        d >= 1,
        pow10((d - 1) as nat) <= usize::MAX,
        old(bucket)@.len() == old(arr)@.len(),
    ensures
        final(arr)@ == digit_pass(old(arr)@, d as nat),
        final(bucket)@.len() == final(arr)@.len(),
{
    let n = arr.len();
    let ghost a = arr@;
    let ghost dd = d as nat;
    let mut count: Vec<usize> = vec![0; 10];
    let mut i: usize = 0;
    while i < n
        invariant
            n == a.len(),
            arr@ == a,
            i <= n,
            d >= 1,
            dd == d as nat,
            pow10((d - 1) as nat) <= usize::MAX,
            count@.len() == 10,
            forall|k: int| 0 <= k < 10 ==> #[trigger] count@[k] == count_digit(a, dd, k as nat, i as int),
        decreases n - i,
    {
        let index = get_digist(arr[i], d);
        proof {
            lemma_count_le(a, dd, index as nat, i as int);
        }
        count.set(index, count[index] + 1);
        i = i + 1;
    }
    assert(below(a, dd, 0, n as int) == 0);
    assert(below(a, dd, 1, n as int) == below(a, dd, 0, n as int) + count_digit(a, dd, 0, n as int));
    let mut k: usize = 1;
    while k < 10
        invariant
            n == a.len(),
            1 <= k <= 10,
            dd == d as nat,
            count@.len() == 10,
            forall|m: int| 0 <= m < k ==> #[trigger] count@[m] == below(a, dd, (m + 1) as nat, n as int),
            forall|m: int| k <= m < 10 ==> #[trigger] count@[m] == count_digit(a, dd, m as nat, n as int),
        decreases 10 - k,
    {
        proof {
            lemma_below_grows(a, dd, (k + 1) as nat, 10, n as int);
            lemma_below_all(a, dd, 10, n as int);
        }
        count.set(k, count[k] + count[k - 1]);
        k = k + 1;
    }
    let mut i: usize = n;
    while i > 0
        invariant
            n == a.len(),
            arr@ == a,
            i <= n,
            d >= 1,
            dd == d as nat,
            pow10((d - 1) as nat) <= usize::MAX,
            count@.len() == 10,
            bucket@.len() == n,
            forall|m: int|
                0 <= m < 10 ==> #[trigger] count@[m] == below(a, dd, m as nat, n as int) + count_digit(
                    a,
                    dd,
                    m as nat,
                    i as int,
                ),
            forall|j: int| i <= j < n ==> 0 <= place_of(a, dd, j) < n && bucket@[place_of(a, dd, j)] == a[j],
        decreases i,
    {
        i = i - 1;
        let index = get_digist(arr[i], d);
        let ghost kk = index as nat;
        proof {
            lemma_below_grows(a, dd, kk + 1, 10, n as int);
            lemma_below_all(a, dd, 10, n as int);
            lemma_count_grows(a, dd, kk, i as int, n as int);
        }
        let pos = count[index] - 1;
        assert(pos == place_of(a, dd, i as int));
        let ghost before = bucket@;
        bucket.set(pos, arr[i]);
        count.set(index, pos);
        proof {
            assert forall|j: int| i <= j < n implies 0 <= place_of(a, dd, j) < n && bucket@[place_of(
                a,
                dd,
                j,
            )] == a[j] by {
                if j > i {
                    let kj = digit_of(a[j], dd);
                    lemma_count_grows(a, dd, kj, j, n as int);
                    if kj == kk {
                        lemma_count_grows(a, dd, kk, i as int, j);
                    } else if kj < kk {
                        lemma_below_grows(a, dd, kj + 1, kk, n as int);
                    } else {
                        lemma_below_grows(a, dd, kk + 1, kj, n as int);
                    }
                    assert(place_of(a, dd, j) != pos);
                }
            }
        }
    }
    proof {
        let s = digit_pass(a, dd);
        lemma_blocks_len(a, dd, 10, n as int);
        lemma_below_all(a, dd, 10, n as int);
        assert forall|p: int| 0 <= p < n implies bucket@[p] == s[p] by {
            let (g, j) = lemma_place(a, dd, p);
            assert(place_of(a, dd, j) == p);
        }
        assert(bucket@ =~= s);
    }
    let mut i: usize = 0;
    while i < n
        invariant
            n == a.len(),
            i <= n,
            arr@.len() == n,
            bucket@.len() == n,
            bucket@ == digit_pass(a, dd),
            forall|j: int| 0 <= j < i ==> arr@[j] == bucket@[j],
        decreases n - i,
    {
        arr.set(i, bucket[i]);
        i = i + 1;
    }
    assert(arr@ =~= bucket@);
}

/// Sorts by one stable pass per decimal digit, from the last digit to the
/// first.
pub fn radix(arr: &mut Vec<usize>)
    ensures
        forall|a: int, b: int| 0 <= a < b < final(arr)@.len() ==> final(arr)@[a] <= final(arr)@[b],
        final(arr)@.to_multiset() == old(arr)@.to_multiset(),
{
    let digist = get_radix(arr);
    let ghost top = digist as nat;
    proof {
        lemma_max_digits(arr@);
        if top >= 1 {
            lemma_pow10_big((top - 1) as nat);
        }
        assert forall|a: int, b: int| 0 <= a < b < arr@.len() implies low_digits(arr@[a], 0) <= low_digits(arr@[b], 0) by {}
    }
    let mut bucket: Vec<usize> = vec![0; arr.len()];
    let mut d: usize = 1;
    while d <= digist
        invariant
            1 <= d <= digist + 1,
            digist < usize::MAX,
            top == digist as nat,
            top >= 1 ==> pow10((top - 1) as nat) <= usize::MAX,
            forall|i: int| 0 <= i < arr@.len() ==> (#[trigger] arr@[i] as nat) < pow10(top),
            sorted_low(arr@, (d - 1) as nat),
            arr@.to_multiset() == old(arr)@.to_multiset(),
            bucket@.len() == arr@.len(),
        decreases digist + 1 - d,
    {
        let ghost a = arr@;
        proof {
            lemma_pow10_grows((d - 1) as nat, (top - 1) as nat);
            lemma_pass_sorted(a, d as nat);
            lemma_pass_permutes(a, d as nat);
        }
        radix_pass(arr, &mut bucket, d);
        proof {
            assert forall|i: int| 0 <= i < arr@.len() implies (#[trigger] arr@[i] as nat) < pow10(top) by {
                let (g, j) = lemma_place(a, d as nat, i);
            }
        }
        d = d + 1;
    }
    proof {
        assert forall|a: int, b: int| 0 <= a < b < arr@.len() implies arr@[a] <= arr@[b] by {
            lemma_small_mod(arr@[a] as nat, pow10(top));
            lemma_small_mod(arr@[b] as nat, pow10(top));
        }
    }
}

} // verus!
