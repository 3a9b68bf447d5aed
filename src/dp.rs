use vstd::prelude::*;

verus! {

/// The number of ways to climb `k` steps taking 1 or 2 at a time.
pub open spec fn ways(k: int) -> nat
    decreases k + 1,
{
    if k < 0 {
        0
    } else if k == 0 {
        1
    } else {
        ways(k - 1) + ways(k - 2)
    }
}

/// The first counts: one way to stand still, one way up one step, two up two.
pub proof fn lemma_ways_small()
    ensures
        ways(0) == 1,
        ways(1) == 1,
        ways(2) == 2,
{
    assert(ways(-1) == 0);
    assert(ways(0) == 1);
    assert(ways(1) == 1);
}

/// Climbing more steps never has fewer ways, and `k` steps have at least `k`.
pub proof fn lemma_ways_grow(i: int, j: int)
    requires
        0 <= i <= j,
    ensures
        ways(i) <= ways(j),
        1 <= ways(i),
        i <= ways(i),
    decreases j,
{
    if i < j {
        lemma_ways_grow(i, j - 1);
        if j >= 2 {
            lemma_ways_grow(j - 2, j - 1);
        }
    } else if i >= 2 {
        lemma_ways_grow(i - 1, i - 1);
        lemma_ways_grow(i - 2, i - 2);
    } else if i == 1 {
        assert(ways(1) == ways(0) + ways(-1));
    }
}

/// Counts the ways from `state` up to `n` into `res[0]`, trying each step
/// size of `choices` in turn.
fn backtrack(choices: &[i32], n: i32, state: i32, res: &mut Vec<i32>)
    requires
        choices@ == seq![1i32, 2i32],
        old(res)@.len() == 1,
        state >= 0,
        old(res)@[0] + ways(n - state) <= i32::MAX,
        old(res)@[0] >= 0,
    ensures
        final(res)@.len() == 1,
        final(res)@[0] == old(res)@[0] + ways(n - state),
    decreases n - state,
{
    if state == n {
        res.set(0, res[0] + 1);
        return;
    }
    let ghost rem = n - state;
    let ghost r0 = res@[0];
    let mut k: usize = 0;
    while k < choices.len()
        invariant
            choices@ == seq![1i32, 2i32],
            res@.len() == 1,
            state >= 0,
            rem == n - state,
            rem != 0,
            r0 + ways(rem) <= i32::MAX,
            r0 >= 0,
            k <= 2,
            k == 0 ==> res@[0] == r0,
            k == 1 ==> res@[0] == r0 + ways(rem - 1),
            k == 2 ==> res@[0] == r0 + ways(rem - 1) + ways(rem - 2),
        decreases 2 - k,
    {
        let choice = choices[k];
        if (choice as i64) + (state as i64) <= (n as i64) {
            proof {
                if rem >= 2 {
                    lemma_ways_grow(rem - 2, rem - 1);
                }
            }
            backtrack(choices, n, choice + state, res);
        } else {
            assert(ways(rem - choice) == 0);
        }
        k = k + 1;
    }
}

/// The number of ways to climb `n` steps, 1 or 2 at a time, by trying every
/// sequence of steps.
pub fn climb_stairs_backtrack(n: i32) -> (r: i32)
    requires
        ways(n as int) <= i32::MAX,
    ensures
        r == ways(n as int),
{
    let choices = [1i32, 2i32];
    let mut res = vec![0i32];
    backtrack(choices.as_slice(), n, 0, &mut res);
    res[0]
}

/// The number of ways to climb `n` steps, 1 or 2 at a time (0 for none).
pub fn climb_stairs_dp(n: usize) -> (r: i32)
    requires
        ways(n as int) <= i32::MAX,
    ensures
        r == if n == 0 { 0 } else { ways(n as int) },
{
    if n <= 2 {
        proof {
            lemma_ways_small();
        }
        return n as i32;
    }
    proof {
        lemma_ways_grow(n as int, n as int);
    }
    let mut dp: Vec<i32> = vec![0; n + 1];
    dp.set(1, 1);
    dp.set(2, 2);
    proof {
        lemma_ways_small();
    }
    let mut i: usize = 3;
    while i <= n
        invariant
            3 <= i <= n + 1,
            dp@.len() == n + 1,
            ways(n as int) <= i32::MAX,
            forall|k: int| 1 <= k < i ==> dp@[k] == ways(k),
        decreases n + 1 - i,
    {
        proof {
            lemma_ways_grow(i as int, n as int);
            assert(ways(i as int) == ways(i - 1) + ways(i - 2));
        }
        let v = dp[i - 1] + dp[i - 2];
        dp.set(i, v);
        i = i + 1;
    }
    dp[n]
}

/// The number of ways to climb `n` steps, 1 or 2 at a time (0 for none),
/// keeping only the last two counts.
pub fn climb_stairs_optimized(n: usize) -> (r: i32)
    requires
        ways(n as int) <= i32::MAX,
    ensures
        r == if n == 0 { 0 } else { ways(n as int) },
{
    proof {
        lemma_ways_small();
    }
    if n <= 2 {
        return n as i32;
    }
    proof {
        lemma_ways_grow(n as int, n as int);
    }
    let mut a: i32 = 1;
    let mut b: i32 = 2;
    let mut i: usize = 3;
    while i <= n
        invariant
            3 <= i <= n + 1,
            ways(n as int) <= i32::MAX,
            a == ways(i - 2),
            b == ways(i - 1),
        decreases n + 1 - i,
    {
        proof {
            lemma_ways_grow(i as int, n as int);
            assert(ways(i as int) == ways(i - 1) + ways(i - 2));
        }
        let tmp = b;
        b = a + b;
        a = tmp;
        i = i + 1;
    }
    b
}

/// The cost table of `min_claimb_cost`: the first two entries are the costs
/// of steps 1 and 2, each later one the smaller of the two before plus the
/// cost one step down.
pub open spec fn min_cost(cost: Seq<i32>, i: int) -> int
    decreases i,
{
    if i <= 1 {
        cost[1] as int
    } else if i == 2 {
        cost[2] as int
    } else {
        let a = min_cost(cost, i - 1);
        let b = min_cost(cost, i - 2);
        (if a <= b { a } else { b }) + cost[i - 1]
    }
}

/// The cheapest climb to the last step when each step costs what `cost`
/// says; with at most three entries, the cost of the last one.
pub fn min_claimb_cost(cost: &[i32]) -> (r: i32)
    requires
        cost@.len() >= 1,
        forall|i: int| 3 <= i < cost@.len() ==> i32::MIN <= #[trigger] min_cost(cost@, i) <= i32::MAX,
    ensures
        cost@.len() <= 3 ==> r == cost@[cost@.len() - 1],
        cost@.len() > 3 ==> r == min_cost(cost@, cost@.len() - 1),
{
    let n = cost.len() - 1;
    if n <= 2 {
        return cost[n];
    }
    let mut dp: Vec<i32> = vec![0; n + 1];
    dp.set(1, cost[1]);
    dp.set(2, cost[2]);
    let mut i: usize = 3;
    while i <= n
        invariant
            3 <= i <= n + 1,
            n == cost@.len() - 1,
            dp@.len() == n + 1,
            forall|k: int| 3 <= k < cost@.len() ==> i32::MIN <= #[trigger] min_cost(cost@, k) <= i32::MAX,
            forall|k: int| 1 <= k < i ==> dp@[k] == min_cost(cost@, k),
        decreases n + 1 - i,
    {
        let lo = if dp[i - 1] <= dp[i - 2] { dp[i - 1] } else { dp[i - 2] };
        assert(min_cost(cost@, i as int) == lo + cost@[i - 1]);
        dp.set(i, lo + cost[i - 1]);
        i = i + 1;
    }
    dp[n]
}

/// Ways to reach step `i` taking 1 or 2 steps at a time, never the same size
/// twice in a row: `.0` counts those whose last step was 1, `.1` those whose
/// last step was 2. A walk can also start at step 1 or step 2.
pub open spec fn constrained(i: int) -> (int, int)
    decreases i,
{
    if i <= 1 {
        (1, 0)
    } else if i == 2 {
        (0, 1)
    } else {
        let one_back = constrained(i - 1);
        let two_back = constrained(i - 2);
        (one_back.1, two_back.0 + two_back.1)
    }
}

proof fn lemma_constrained_nonneg(i: int)
    ensures
        constrained(i).0 >= 0,
        constrained(i).1 >= 0,
    decreases i,
{
    if i > 2 {
        lemma_constrained_nonneg(i - 1);
        lemma_constrained_nonneg(i - 2);
    }
}

/// The number of ways to climb `n` steps, 1 or 2 at a time, never taking
/// the same size twice in a row (1 for one or two steps).
pub fn climb_stairs_with_constraint(n: usize) -> (r: i32)
    requires
        1 <= n < usize::MAX,
        forall|i: int| 1 <= i <= n ==> #[trigger] constrained(i).0 + constrained(i).1 <= i32::MAX,
    ensures
        n <= 2 ==> r == 1,
        n > 2 ==> r == constrained(n as int).0 + constrained(n as int).1,
{
    if n == 1 || n == 2 {
        return 1;
    }
    let mut last_one: Vec<i32> = vec![-1; n + 1];
    let mut last_two: Vec<i32> = vec![-1; n + 1];
    last_one.set(1, 1);
    last_two.set(1, 0);
    last_two.set(2, 1);
    last_one.set(2, 0);
    let mut i: usize = 3;
    while i <= n
        invariant
            3 <= i <= n + 1,
            n < usize::MAX,
            last_one@.len() == n + 1,
            last_two@.len() == n + 1,
            forall|k: int| 1 <= k <= n ==> #[trigger] constrained(k).0 + constrained(k).1 <= i32::MAX,
            forall|k: int|
                1 <= k < i ==> last_one@[k] == constrained(k).0 && last_two@[k] == constrained(k).1,
        decreases n + 1 - i,
    {
        proof {
            lemma_constrained_nonneg(i as int);
            lemma_constrained_nonneg(i as int - 1);
            lemma_constrained_nonneg(i as int - 2);
            assert(constrained(i as int - 1).0 + constrained(i as int - 1).1 <= i32::MAX);
            assert(constrained(i as int).0 + constrained(i as int).1 <= i32::MAX);
        }
        last_one.set(i, last_two[i - 1]);
        last_two.set(i, last_one[i - 2] + last_two[i - 2]);
        i = i + 1;
    }
    proof {
        lemma_constrained_nonneg(n as int);
        assert(constrained(n as int).0 + constrained(n as int).1 <= i32::MAX);
    }
    last_one[n] + last_two[n]
}

/// The best value from the first `i` items within capacity `w`, each item
/// taken at most once; no capacity holds no value.
pub open spec fn knap(wt: Seq<i32>, val: Seq<i32>, i: int, w: int) -> int
    decreases i,
{
    if i <= 0 || w <= 0 {
        0
    } else if wt[i - 1] > w {
        knap(wt, val, i - 1, w)
    } else {
        let no = knap(wt, val, i - 1, w);
        let yes = knap(wt, val, i - 1, w - wt[i - 1]) + val[i - 1];
        if no >= yes { no } else { yes }
    }
}

/// A best value is never negative.
proof fn lemma_knap_nonneg(wt: Seq<i32>, val: Seq<i32>, i: int, w: int)
    ensures
        knap(wt, val, i, w) >= 0,
    decreases i,
{
    if i > 0 && w > 0 {
        lemma_knap_nonneg(wt, val, i - 1, w);
    }
}

/// What a knapsack function asks of its inputs: `n` items, none of negative
/// weight, and a best value for all `n` items within capacity `w` that fits
/// in an `i32`.
pub open spec fn knap_fits(wt: Seq<i32>, val: Seq<i32>, n: int, w: int) -> bool {
    &&& 0 <= n <= wt.len()
    &&& n <= val.len()
    &&& forall|k: int| 0 <= k < n ==> wt[k] >= 0
    &&& knap(wt, val, n, w) <= i32::MAX
}

/// One more item or one more unit of capacity never lowers the best value.
pub proof fn lemma_knap_grows(wt: Seq<i32>, val: Seq<i32>, i: int, c: int)
    requires
        0 <= i,
    ensures
        knap(wt, val, i, c) <= knap(wt, val, i + 1, c),
        knap(wt, val, i, c) <= knap(wt, val, i, c + 1),
    decreases i,
{
    lemma_knap_nonneg(wt, val, i, c);
    lemma_knap_nonneg(wt, val, i, c + 1);
    if i > 0 {
        lemma_knap_grows(wt, val, i - 1, c);
        lemma_knap_grows(wt, val, i - 1, c - wt[i - 1]);
    }
}

/// Best values for fewer items or less capacity are at most the best value
/// for more.
pub proof fn lemma_knap_below(wt: Seq<i32>, val: Seq<i32>, i: int, c: int, n: int, w: int)
    requires
        0 <= i <= n,
        c <= w,
    ensures
        knap(wt, val, i, c) <= knap(wt, val, n, w),
    decreases n - i + w - c,
{
    if i < n {
        lemma_knap_grows(wt, val, i, c);
        lemma_knap_below(wt, val, i + 1, c, n, w);
    } else if c < w {
        lemma_knap_grows(wt, val, i, c);
        lemma_knap_below(wt, val, i, c + 1, n, w);
    }
}

/// Every best value within the inputs' bounds fits once the largest does.
proof fn lemma_knap_fits(wt: Seq<i32>, val: Seq<i32>, n: int, w: int)
    requires
        knap_fits(wt, val, n, w),
    ensures
        knap_inputs(wt, val, n, w),
{
    assert forall|i: int, c: int| 0 <= i <= n && 0 <= c <= w implies #[trigger] knap(wt, val, i, c)
        <= i32::MAX by {
        lemma_knap_below(wt, val, i, c, n, w);
    }
}

/// `knap_fits` spelled out for every smaller problem.
pub open spec fn knap_inputs(wt: Seq<i32>, val: Seq<i32>, n: int, w: int) -> bool {
    &&& 0 <= n <= wt.len()
    &&& n <= val.len()
    &&& forall|k: int| 0 <= k < n ==> wt[k] >= 0
    &&& forall|i: int, c: int| 0 <= i <= n && 0 <= c <= w ==> #[trigger] knap(wt, val, i, c) <= i32::MAX
}

/// The best value from the first `n` items within capacity `w`, found by
/// trying both choices for every item.
pub fn knapsack_dfs(wt: &[i32], val: &[i32], n: usize, w: usize) -> (r: i32)
    requires
        knap_fits(wt@, val@, n as int, w as int),
    ensures
        r == knap(wt@, val@, n as int, w as int),
    decreases n,
{
    proof {
        lemma_knap_fits(wt@, val@, n as int, w as int);
    }
    if n == 0 || w == 0 {
        return 0;
    }
    if wt[n - 1] as usize > w {
        return knapsack_dfs(wt, val, n - 1, w);
    }
    proof {
        lemma_knap_nonneg(wt@, val@, n - 1, w - wt@[n - 1]);
    }
    let no = knapsack_dfs(wt, val, n - 1, w);
    let yes = knapsack_dfs(wt, val, n - 1, w - wt[n - 1] as usize) + val[n - 1];
    if no >= yes { no } else { yes }
}

/// Every entry of `memo` is -1 (not known yet) or the best value for its
/// row's number of items and its column's capacity.
pub open spec fn memo_ok(memo: Seq<Vec<i32>>, wt: Seq<i32>, val: Seq<i32>) -> bool {
    forall|i: int, c: int|
        0 <= i < memo.len() && 0 <= c < memo[i]@.len() ==> memo[i]@[c] == -1 || memo[i]@[c] == knap(
            wt,
            val,
            i,
            c,
        )
}

/// The best value from the first `n` items within capacity `w`, remembering
/// each answer in `memo`.
pub fn knapsack_memo(wt: &[i32], val: &[i32], n: usize, w: usize, memo: &mut Vec<Vec<i32>>) -> (r: i32)
    requires
        knap_fits(wt@, val@, n as int, w as int),
        n < old(memo)@.len(),
        forall|i: int| 0 <= i <= n ==> (#[trigger] old(memo)@[i])@.len() > w,
        memo_ok(old(memo)@, wt@, val@),
    ensures
        r == knap(wt@, val@, n as int, w as int),
        memo_ok(final(memo)@, wt@, val@),
        final(memo)@.len() == old(memo)@.len(),
        forall|i: int| 0 <= i < final(memo)@.len() ==> (#[trigger] final(memo)@[i])@.len() == old(memo)@[i]@.len(),
    decreases n,
{
    proof {
        lemma_knap_fits(wt@, val@, n as int, w as int);
    }
    if n == 0 || w == 0 {
        return 0;
    }
    if memo[n][w] != -1 {
        return memo[n][w];
    }
    let r = if wt[n - 1] as usize > w {
        knapsack_memo(wt, val, n - 1, w, memo)
    } else {
        proof {
            lemma_knap_nonneg(wt@, val@, n - 1, w - wt@[n - 1]);
        }
        assert(knap(wt@, val@, n as int, w as int) <= i32::MAX);
        let no = knapsack_memo(wt, val, n - 1, w, memo);
        let yes = knapsack_memo(wt, val, n - 1, w - wt[n - 1] as usize, memo) + val[n - 1];
        if no >= yes { no } else { yes }
    };
    let ghost before = memo@;
    memo[n].set(w, r);
    assert forall|i: int, c: int|
        0 <= i < memo@.len() && 0 <= c < memo@[i]@.len() implies memo@[i]@[c] == -1 || memo@[i]@[c]
        == knap(wt@, val@, i, c) by {
        if i != n {
            assert(memo@[i] == before[i]);
        }
    }
    r
}

/// A table of `rows` rows and `cols` columns, every entry `fill`.
fn table(rows: usize, cols: usize, fill: i32) -> (r: Vec<Vec<i32>>)
    ensures
        r@.len() == rows,
        forall|i: int| 0 <= i < rows ==> (#[trigger] r@[i])@.len() == cols,
        forall|i: int, c: int| 0 <= i < rows && 0 <= c < cols ==> r@[i]@[c] == fill,
{
    let mut r: Vec<Vec<i32>> = Vec::new();
    let mut i: usize = 0;
    while i < rows
        invariant
            i <= rows,
            r@.len() == i,
            forall|k: int| 0 <= k < i ==> (#[trigger] r@[k])@.len() == cols,
            forall|k: int, c: int| 0 <= k < i && 0 <= c < cols ==> r@[k]@[c] == fill,
        decreases rows - i,
    {
        r.push(vec![fill; cols]);
        i = i + 1;
    }
    r
}

/// The best value from all the items within capacity `w`, each taken at
/// most once, by filling a table of best values row by row.
pub fn knapsack(wt: &[i32], val: &[i32], w: usize) -> (r: i32)
    requires
        knap_fits(wt@, val@, wt@.len() as int, w as int),
        wt@.len() < usize::MAX,
        w < usize::MAX,
    ensures
        r == knap(wt@, val@, wt@.len() as int, w as int),
{
    proof {
        lemma_knap_fits(wt@, val@, wt@.len() as int, w as int);
    }
    let n = wt.len();
    let mut dp = table(n + 1, w + 1, 0);
    let mut i: usize = 1;
    while i <= n
        invariant
            n == wt@.len(),
            knap_inputs(wt@, val@, n as int, w as int),
            n < usize::MAX,
            w < usize::MAX,
            1 <= i <= n + 1,
            dp@.len() == n + 1,
            forall|k: int| 0 <= k <= n ==> (#[trigger] dp@[k])@.len() == w + 1,
            forall|k: int, c: int| 0 <= k < i && 0 <= c <= w ==> dp@[k]@[c] == knap(wt@, val@, k, c),
            forall|k: int| i <= k <= n ==> (#[trigger] dp@[k])@[0] == 0,
        decreases n + 1 - i,
    {
        let mut j: usize = 1;
        while j <= w
            invariant
                n == wt@.len(),
                knap_inputs(wt@, val@, n as int, w as int),
                w < usize::MAX,
                1 <= i <= n,
                1 <= j <= w + 1,
                dp@.len() == n + 1,
                forall|k: int| 0 <= k <= n ==> (#[trigger] dp@[k])@.len() == w + 1,
                forall|k: int, c: int| 0 <= k < i && 0 <= c <= w ==> dp@[k]@[c] == knap(wt@, val@, k, c),
                forall|c: int| 0 <= c < j ==> dp@[i as int]@[c] == knap(wt@, val@, i as int, c),
                forall|k: int| i < k <= n ==> (#[trigger] dp@[k])@[0] == 0,
            decreases w + 1 - j,
        {
            let ghost before = dp@;
            proof {
                lemma_knap_nonneg(wt@, val@, i - 1, j - wt@[i - 1]);
                assert(knap(wt@, val@, i as int, j as int) <= i32::MAX);
            }
            assert(dp@[i - 1]@[j as int] == knap(wt@, val@, i - 1, j as int));
            let v = if wt[i - 1] as usize <= j {
                let no = dp[i - 1][j];
                let jj = j - wt[i - 1] as usize;
                assert(dp@[i - 1]@[jj as int] == knap(wt@, val@, i - 1, jj as int));
                let yes = dp[i - 1][jj] + val[i - 1];
                if no >= yes { no } else { yes }
            } else {
                dp[i - 1][j]
            };
            assert(wt@[i - 1] >= 0);
            assert(v == knap(wt@, val@, i as int, j as int));
            dp[i].set(j, v);
            assert(dp@[i as int]@ == before[i as int]@.update(j as int, v));
            assert forall|k: int| 0 <= k <= n && k != i implies #[trigger] dp@[k] == before[k] by {}
            j = j + 1;
        }
        i = i + 1;
    }
    dp[n][w]
}

/// The same best value as `knapsack`, keeping a single row that is
/// updated from the largest capacity down.
pub fn knapsack_optimized(wt: &[i32], val: &[i32], w: usize) -> (r: i32)
    requires
        knap_fits(wt@, val@, wt@.len() as int, w as int),
        wt@.len() < usize::MAX,
        w < usize::MAX,
    ensures
        r == knap(wt@, val@, wt@.len() as int, w as int),
{
    proof {
        lemma_knap_fits(wt@, val@, wt@.len() as int, w as int);
    }
    let n = wt.len();
    let mut dp: Vec<i32> = vec![0; w + 1];
    let mut i: usize = 1;
    while i <= n
        invariant
            n == wt@.len(),
            knap_inputs(wt@, val@, n as int, w as int),
            n < usize::MAX,
            w < usize::MAX,
            1 <= i <= n + 1,
            dp@.len() == w + 1,
            forall|c: int| 0 <= c <= w ==> #[trigger] dp@[c] == knap(wt@, val@, i - 1, c),
        decreases n + 1 - i,
    {
        let mut j: usize = w;
        while j >= 1
            invariant
                n == wt@.len(),
                knap_inputs(wt@, val@, n as int, w as int),
                1 <= i <= n,
                j <= w,
                dp@.len() == w + 1,
                forall|c: int| 0 <= c <= j ==> #[trigger] dp@[c] == knap(wt@, val@, i - 1, c),
                forall|c: int| j < c <= w ==> #[trigger] dp@[c] == knap(wt@, val@, i as int, c),
            decreases j,
        {
            proof {
                lemma_knap_nonneg(wt@, val@, i - 1, j - wt@[i - 1]);
                assert(knap(wt@, val@, i as int, j as int) <= i32::MAX);
            }
            if wt[i - 1] as usize <= j {
                let no = dp[j];
                let yes = dp[j - wt[i - 1] as usize] + val[i - 1];
                dp.set(j, if no >= yes { no } else { yes });
            }
            j = j - 1;
        }
        assert(dp@[0] == knap(wt@, val@, i as int, 0));
        i = i + 1;
    }
    dp[w]
}

/// The best value from the first `i` items within capacity `w`, each item
/// taken any number of times.
pub open spec fn unbounded(wt: Seq<i32>, val: Seq<i32>, i: int, w: int) -> int
    decreases i, w,
{
    if i <= 0 || w <= 0 {
        0
    } else if wt[i - 1] > w || wt[i - 1] <= 0 {
        unbounded(wt, val, i - 1, w)
    } else {
        let no = unbounded(wt, val, i - 1, w);
        let yes = unbounded(wt, val, i, w - wt[i - 1]) + val[i - 1];
        if no >= yes { no } else { yes }
    }
}

proof fn lemma_unbounded_nonneg(wt: Seq<i32>, val: Seq<i32>, i: int, w: int)
    ensures
        unbounded(wt, val, i, w) >= 0,
    decreases i, w,
{
    if i > 0 && w > 0 {
        lemma_unbounded_nonneg(wt, val, i - 1, w);
    }
}

/// What an unbounded knapsack function asks of its inputs: every weight at
/// least 1, and a best value for all the items within capacity `w` that
/// fits in an `i32`.
pub open spec fn unbounded_fits(wt: Seq<i32>, val: Seq<i32>, w: int) -> bool {
    &&& wt.len() <= val.len()
    &&& forall|k: int| 0 <= k < wt.len() ==> wt[k] >= 1
    &&& unbounded(wt, val, wt.len() as int, w) <= i32::MAX
}

/// One more kind of item or one more unit of capacity never lowers the best
/// value.
pub proof fn lemma_unbounded_grows(wt: Seq<i32>, val: Seq<i32>, i: int, c: int)
    requires
        0 <= i,
    ensures
        unbounded(wt, val, i, c) <= unbounded(wt, val, i + 1, c),
        unbounded(wt, val, i, c) <= unbounded(wt, val, i, c + 1),
    decreases i, c,
{
    lemma_unbounded_nonneg(wt, val, i, c);
    lemma_unbounded_nonneg(wt, val, i, c + 1);
    if i > 0 {
        lemma_unbounded_grows(wt, val, i - 1, c);
        if c > 0 && 0 < wt[i - 1] <= c {
            lemma_unbounded_grows(wt, val, i, c - wt[i - 1]);
        }
    }
}

proof fn lemma_unbounded_below(wt: Seq<i32>, val: Seq<i32>, i: int, c: int, n: int, w: int)
    requires
        0 <= i <= n,
        c <= w,
    ensures
        unbounded(wt, val, i, c) <= unbounded(wt, val, n, w),
    decreases n - i + w - c,
{
    if i < n {
        lemma_unbounded_grows(wt, val, i, c);
        lemma_unbounded_below(wt, val, i + 1, c, n, w);
    } else if c < w {
        lemma_unbounded_grows(wt, val, i, c);
        lemma_unbounded_below(wt, val, i, c + 1, n, w);
    }
}

proof fn lemma_unbounded_fits(wt: Seq<i32>, val: Seq<i32>, w: int)
    requires
        unbounded_fits(wt, val, w),
    ensures
        unbounded_inputs(wt, val, w),
{
    assert forall|i: int, c: int| 0 <= i <= wt.len() && 0 <= c <= w implies #[trigger] unbounded(
        wt,
        val,
        i,
        c,
    ) <= i32::MAX by {
        lemma_unbounded_below(wt, val, i, c, wt.len() as int, w);
    }
}

/// `unbounded_fits` spelled out for every smaller problem.
pub open spec fn unbounded_inputs(wt: Seq<i32>, val: Seq<i32>, w: int) -> bool {
    &&& wt.len() <= val.len()
    &&& forall|k: int| 0 <= k < wt.len() ==> wt[k] >= 1
    &&& forall|i: int, c: int|
        0 <= i <= wt.len() && 0 <= c <= w ==> #[trigger] unbounded(wt, val, i, c) <= i32::MAX
}

/// The best value from all the items within capacity `w`, each item taken
/// any number of times, by filling a table row by row.
pub fn complete_knapsack(wt: &[i32], val: &[i32], w: usize) -> (r: i32)
    requires
        unbounded_fits(wt@, val@, w as int),
        wt@.len() < usize::MAX,
        w < usize::MAX,
    ensures
        r == unbounded(wt@, val@, wt@.len() as int, w as int),
{
    proof {
        lemma_unbounded_fits(wt@, val@, w as int);
    }
    let n = wt.len();
    let mut dp = table(n + 1, w + 1, 0);
    let mut i: usize = 1;
    while i <= n
        invariant
            n == wt@.len(),
            unbounded_inputs(wt@, val@, w as int),
            n < usize::MAX,
            w < usize::MAX,
            1 <= i <= n + 1,
            dp@.len() == n + 1,
            forall|k: int| 0 <= k <= n ==> (#[trigger] dp@[k])@.len() == w + 1,
            forall|k: int, c: int| 0 <= k < i && 0 <= c <= w ==> dp@[k]@[c] == unbounded(wt@, val@, k, c),
            forall|k: int| i <= k <= n ==> (#[trigger] dp@[k])@[0] == 0,
        decreases n + 1 - i,
    {
        let mut j: usize = 1;
        while j <= w
            invariant
                n == wt@.len(),
                unbounded_inputs(wt@, val@, w as int),
                w < usize::MAX,
                1 <= i <= n,
                1 <= j <= w + 1,
                dp@.len() == n + 1,
                forall|k: int| 0 <= k <= n ==> (#[trigger] dp@[k])@.len() == w + 1,
                forall|k: int, c: int| 0 <= k < i && 0 <= c <= w ==> dp@[k]@[c] == unbounded(wt@, val@, k, c),
                forall|c: int| 0 <= c < j ==> dp@[i as int]@[c] == unbounded(wt@, val@, i as int, c),
                forall|k: int| i < k <= n ==> (#[trigger] dp@[k])@[0] == 0,
            decreases w + 1 - j,
        {
            let ghost before = dp@;
            proof {
                lemma_unbounded_nonneg(wt@, val@, i as int, j - wt@[i - 1]);
                assert(unbounded(wt@, val@, i as int, j as int) <= i32::MAX);
            }
            assert(dp@[i - 1]@[j as int] == unbounded(wt@, val@, i - 1, j as int));
            let v = if wt[i - 1] as usize <= j {
                let no = dp[i - 1][j];
                let jj = j - wt[i - 1] as usize;
                assert(dp@[i as int]@[jj as int] == unbounded(wt@, val@, i as int, jj as int));
                let yes = dp[i][jj] + val[i - 1];
                if no >= yes { no } else { yes }
            } else {
                dp[i - 1][j]
            };
            assert(wt@[i - 1] >= 0);
            assert(v == unbounded(wt@, val@, i as int, j as int));
            dp[i].set(j, v);
            assert(dp@[i as int]@ == before[i as int]@.update(j as int, v));
            assert forall|k: int| 0 <= k <= n && k != i implies #[trigger] dp@[k] == before[k] by {}
            j = j + 1;
        }
        i = i + 1;
    }
    dp[n][w]
}

/// The same best value as `complete_knapsack`, keeping a single row that
/// is updated from the smallest capacity up.
pub fn complete_knapsack_optimized(wt: &[i32], val: &[i32], w: usize) -> (r: i32)
    requires
        unbounded_fits(wt@, val@, w as int),
        wt@.len() < usize::MAX,
        w < usize::MAX,
    ensures
        r == unbounded(wt@, val@, wt@.len() as int, w as int),
{
    proof {
        lemma_unbounded_fits(wt@, val@, w as int);
    }
    let n = wt.len();
    let mut dp: Vec<i32> = vec![0; w + 1];
    let mut i: usize = 1;
    while i <= n
        invariant
            n == wt@.len(),
            unbounded_inputs(wt@, val@, w as int),
            n < usize::MAX,
            w < usize::MAX,
            1 <= i <= n + 1,
            dp@.len() == w + 1,
            forall|c: int| 0 <= c <= w ==> #[trigger] dp@[c] == unbounded(wt@, val@, i - 1, c),
        decreases n + 1 - i,
    {
        let mut j: usize = 1;
        assert(dp@[0] == unbounded(wt@, val@, i as int, 0));
        while j <= w
            invariant
                n == wt@.len(),
                unbounded_inputs(wt@, val@, w as int),
                w < usize::MAX,
                1 <= i <= n,
                1 <= j <= w + 1,
                dp@.len() == w + 1,
                forall|c: int| 0 <= c < j ==> #[trigger] dp@[c] == unbounded(wt@, val@, i as int, c),
                forall|c: int| j <= c <= w ==> #[trigger] dp@[c] == unbounded(wt@, val@, i - 1, c),
            decreases w + 1 - j,
        {
            proof {
                lemma_unbounded_nonneg(wt@, val@, i as int, j - wt@[i - 1]);
                assert(unbounded(wt@, val@, i as int, j as int) <= i32::MAX);
            }
            if wt[i - 1] as usize <= j {
                let no = dp[j];
                let yes = dp[j - wt[i - 1] as usize] + val[i - 1];
                dp.set(j, if no >= yes { no } else { yes });
            }
            j = j + 1;
        }
        i = i + 1;
    }
    dp[w]
}

/// One more coin than `x`, where `i32::MAX` stands for "cannot be made".
pub open spec fn one_more(x: int) -> int {
    if x >= i32::MAX {
        i32::MAX as int
    } else {
        x + 1
    }
}

/// The fewest coins of the first `i` kinds that make `j`, each kind usable
/// any number of times; `i32::MAX` when they cannot.
pub open spec fn fewest(coins: Seq<i32>, i: int, j: int) -> int
    decreases i, j,
{
    if j <= 0 {
        0
    } else if i <= 0 {
        i32::MAX as int
    } else if coins[i - 1] > j || coins[i - 1] <= 0 {
        fewest(coins, i - 1, j)
    } else {
        let a = fewest(coins, i - 1, j);
        let b = one_more(fewest(coins, i, j - coins[i - 1]));
        if a <= b { a } else { b }
    }
}

/// The answer that the coin-change functions give for a table value.
pub open spec fn coin_answer(x: int) -> int {
    if x == i32::MAX {
        -1
    } else {
        x
    }
}

/// One more coin than `x`, staying at `i32::MAX` ("cannot be made").
fn plus_one(x: i32) -> (r: i32)
    ensures
        r == one_more(x as int),
{
    if x == i32::MAX {
        x
    } else {
        x + 1
    }
}

/// The fewest coins that make `amount`, each kind usable any number of
/// times, or -1 when no choice of coins makes it.
pub fn coin_change(coins: &[i32], amount: usize) -> (r: i32)
    requires
        forall|k: int| 0 <= k < coins@.len() ==> coins@[k] >= 1,
        coins@.len() < usize::MAX,
        amount < usize::MAX,
    ensures
        r == coin_answer(fewest(coins@, coins@.len() as int, amount as int)),
{
    let n = coins.len();
    let mut dp = table(n + 1, amount + 1, i32::MAX);
    let mut k: usize = 0;
    while k <= n
        invariant
            k <= n + 1,
            n < usize::MAX,
            dp@.len() == n + 1,
            forall|r: int| 0 <= r <= n ==> (#[trigger] dp@[r])@.len() == amount + 1,
            forall|r: int, c: int| 0 <= r <= n && 1 <= c <= amount ==> dp@[r]@[c] == i32::MAX,
            forall|r: int| 0 <= r < k ==> (#[trigger] dp@[r])@[0] == 0,
        decreases n + 1 - k,
    {
        let ghost before = dp@;
        dp[k].set(0, 0);
        assert forall|r: int| 0 <= r <= n && r != k implies #[trigger] dp@[r] == before[r] by {}
        k = k + 1;
    }
    let mut i: usize = 1;
    while i <= n
        invariant
            n == coins@.len(),
            forall|k: int| 0 <= k < coins@.len() ==> coins@[k] >= 1,
            n < usize::MAX,
            amount < usize::MAX,
            1 <= i <= n + 1,
            dp@.len() == n + 1,
            forall|r: int| 0 <= r <= n ==> (#[trigger] dp@[r])@.len() == amount + 1,
            forall|r: int, c: int| 0 <= r < i && 0 <= c <= amount ==> dp@[r]@[c] == fewest(coins@, r, c),
            forall|r: int| i <= r <= n ==> (#[trigger] dp@[r])@[0] == 0,
        decreases n + 1 - i,
    {
        let mut j: usize = 1;
        while j <= amount
            invariant
                n == coins@.len(),
                forall|k: int| 0 <= k < coins@.len() ==> coins@[k] >= 1,
                amount < usize::MAX,
                1 <= i <= n,
                1 <= j <= amount + 1,
                dp@.len() == n + 1,
                forall|r: int| 0 <= r <= n ==> (#[trigger] dp@[r])@.len() == amount + 1,
                forall|r: int, c: int| 0 <= r < i && 0 <= c <= amount ==> dp@[r]@[c] == fewest(coins@, r, c),
                forall|c: int| 0 <= c < j ==> dp@[i as int]@[c] == fewest(coins@, i as int, c),
                forall|r: int| i < r <= n ==> (#[trigger] dp@[r])@[0] == 0,
            decreases amount + 1 - j,
        {
            let ghost before = dp@;
            assert(dp@[i - 1]@[j as int] == fewest(coins@, i - 1, j as int));
            let v = if coins[i - 1] as usize <= j {
                let a = dp[i - 1][j];
                let jj = j - coins[i - 1] as usize;
                assert(dp@[i as int]@[jj as int] == fewest(coins@, i as int, jj as int));
                let b = plus_one(dp[i][jj]);
                if a <= b { a } else { b }
            } else {
                dp[i - 1][j]
            };
            assert(v == fewest(coins@, i as int, j as int));
            dp[i].set(j, v);
            assert(dp@[i as int]@ == before[i as int]@.update(j as int, v));
            assert forall|r: int| 0 <= r <= n && r != i implies #[trigger] dp@[r] == before[r] by {}
            j = j + 1;
        }
        i = i + 1;
    }
    assert(dp@[n as int]@[amount as int] == fewest(coins@, n as int, amount as int));
    if dp[n][amount] == i32::MAX {
        -1
    } else {
        dp[n][amount]
    }
}

/// The same answer as `coin_change`, keeping a single row.
pub fn coin_change_optimized(coins: &[i32], amount: usize) -> (r: i32)
    requires
        forall|k: int| 0 <= k < coins@.len() ==> coins@[k] >= 1,
        coins@.len() < usize::MAX,
        amount < usize::MAX,
    ensures
        r == coin_answer(fewest(coins@, coins@.len() as int, amount as int)),
{
    let n = coins.len();
    let mut dp: Vec<i32> = vec![i32::MAX; amount + 1];
    dp.set(0, 0);
    assert forall|c: int| 0 <= c <= amount implies #[trigger] dp@[c] == fewest(coins@, 0, c) by {}
    let mut i: usize = 1;
    while i <= n
        invariant
            n == coins@.len(),
            forall|k: int| 0 <= k < coins@.len() ==> coins@[k] >= 1,
            n < usize::MAX,
            amount < usize::MAX,
            1 <= i <= n + 1,
            dp@.len() == amount + 1,
            forall|c: int| 0 <= c <= amount ==> #[trigger] dp@[c] == fewest(coins@, i - 1, c),
        decreases n + 1 - i,
    {
        let mut j: usize = 1;
        assert(dp@[0] == fewest(coins@, i as int, 0));
        while j <= amount
            invariant
                n == coins@.len(),
                forall|k: int| 0 <= k < coins@.len() ==> coins@[k] >= 1,
                amount < usize::MAX,
                1 <= i <= n,
                1 <= j <= amount + 1,
                dp@.len() == amount + 1,
                forall|c: int| 0 <= c < j ==> #[trigger] dp@[c] == fewest(coins@, i as int, c),
                forall|c: int| j <= c <= amount ==> #[trigger] dp@[c] == fewest(coins@, i - 1, c),
            decreases amount + 1 - j,
        {
            if coins[i - 1] as usize <= j {
                let a = dp[j];
                let b = plus_one(dp[j - coins[i - 1] as usize]);
                dp.set(j, if a <= b { a } else { b });
            }
            j = j + 1;
        }
        i = i + 1;
    }
    if dp[amount] == i32::MAX {
        -1
    } else {
        dp[amount]
    }
}

/// The number of ways to make `j` from coins of the first `i` kinds, each
/// kind usable any number of times, order not counting.
pub open spec fn change_ways(coins: Seq<i32>, i: int, j: int) -> int
    decreases i, j,
{
    if j <= 0 {
        1
    } else if i <= 0 {
        0
    } else if coins[i - 1] > j || coins[i - 1] <= 0 {
        change_ways(coins, i - 1, j)
    } else {
        change_ways(coins, i - 1, j) + change_ways(coins, i, j - coins[i - 1])
    }
}

proof fn lemma_change_ways_nonneg(coins: Seq<i32>, i: int, j: int)
    ensures
        change_ways(coins, i, j) >= 0,
    decreases i, j,
{
    if j > 0 && i > 0 {
        lemma_change_ways_nonneg(coins, i - 1, j);
        if 0 < coins[i - 1] <= j {
            lemma_change_ways_nonneg(coins, i, j - coins[i - 1]);
        }
    }
}

/// `x`, or `i32::MAX` when it is larger.
pub open spec fn capped(x: int) -> int {
    if x > i32::MAX {
        i32::MAX as int
    } else {
        x
    }
}

/// Capping the parts of a sum of non-negative counts and then the sum is
/// capping the sum.
proof fn lemma_capped_sum(x: int, y: int)
    requires
        x >= 0,
        y >= 0,
    ensures
        capped(capped(x) + capped(y)) == capped(x + y),
{
}

/// The sum of two non-negative counts, stopping at `i32::MAX`.
fn saturating_sum(a: i32, b: i32) -> (r: i32)
    requires
        a >= 0,
        b >= 0,
    ensures
        r == capped(a + b),
{
    if a > i32::MAX - b {
        i32::MAX
    } else {
        a + b
    }
}

/// The number of ways to make `amount` from the coins, each kind usable any
/// number of times, order not counting. Table entries that do not fit an
/// `i32` are held at `i32::MAX`; only the answer itself must fit.
pub fn coin_change_ways(coins: &[i32], amount: usize) -> (r: i32)
    requires
        forall|k: int| 0 <= k < coins@.len() ==> coins@[k] >= 1,
        coins@.len() < usize::MAX,
        amount < usize::MAX,
        change_ways(coins@, coins@.len() as int, amount as int) <= i32::MAX,
    ensures
        r == change_ways(coins@, coins@.len() as int, amount as int),
{
    let n = coins.len();
    let mut dp = table(n + 1, amount + 1, 0);
    let mut k: usize = 0;
    while k <= n
        invariant
            k <= n + 1,
            n < usize::MAX,
            dp@.len() == n + 1,
            forall|r: int| 0 <= r <= n ==> (#[trigger] dp@[r])@.len() == amount + 1,
            forall|r: int, c: int| 0 <= r <= n && 1 <= c <= amount ==> dp@[r]@[c] == 0,
            forall|r: int| 0 <= r < k ==> (#[trigger] dp@[r])@[0] == 1,
        decreases n + 1 - k,
    {
        let ghost before = dp@;
        dp[k].set(0, 1);
        assert forall|r: int| 0 <= r <= n && r != k implies #[trigger] dp@[r] == before[r] by {}
        k = k + 1;
    }
    let mut i: usize = 1;
    while i <= n
        invariant
            n == coins@.len(),
            forall|k: int| 0 <= k < coins@.len() ==> coins@[k] >= 1,
            n < usize::MAX,
            amount < usize::MAX,
            1 <= i <= n + 1,
            dp@.len() == n + 1,
            forall|r: int| 0 <= r <= n ==> (#[trigger] dp@[r])@.len() == amount + 1,
            forall|r: int, c: int| 0 <= r < i && 0 <= c <= amount ==> dp@[r]@[c] == capped(change_ways(coins@, r, c)),
            forall|r: int| i <= r <= n ==> (#[trigger] dp@[r])@[0] == 1,
        decreases n + 1 - i,
    {
        let mut j: usize = 1;
        while j <= amount
            invariant
                n == coins@.len(),
                forall|k: int| 0 <= k < coins@.len() ==> coins@[k] >= 1,
                amount < usize::MAX,
                1 <= i <= n,
                1 <= j <= amount + 1,
                dp@.len() == n + 1,
                forall|r: int| 0 <= r <= n ==> (#[trigger] dp@[r])@.len() == amount + 1,
                forall|r: int, c: int| 0 <= r < i && 0 <= c <= amount ==> dp@[r]@[c] == capped(change_ways(coins@, r, c)),
                forall|c: int| 0 <= c < j ==> dp@[i as int]@[c] == capped(change_ways(coins@, i as int, c)),
                forall|r: int| i < r <= n ==> (#[trigger] dp@[r])@[0] == 1,
            decreases amount + 1 - j,
        {
            let ghost before = dp@;
            assert(dp@[i - 1]@[j as int] == capped(change_ways(coins@, i - 1, j as int)));
            proof {
                lemma_change_ways_nonneg(coins@, i - 1, j as int);
                lemma_change_ways_nonneg(coins@, i as int, j - coins@[i - 1]);
                lemma_capped_sum(
                    change_ways(coins@, i - 1, j as int),
                    change_ways(coins@, i as int, j - coins@[i - 1]),
                );
            }
            let v = if coins[i - 1] as usize <= j {
                let jj = j - coins[i - 1] as usize;
                assert(dp@[i as int]@[jj as int] == capped(change_ways(coins@, i as int, jj as int)));
                saturating_sum(dp[i - 1][j], dp[i][jj])
            } else {
                dp[i - 1][j]
            };
            assert(v == capped(change_ways(coins@, i as int, j as int)));
            dp[i].set(j, v);
            assert(dp@[i as int]@ == before[i as int]@.update(j as int, v));
            assert forall|r: int| 0 <= r <= n && r != i implies #[trigger] dp@[r] == before[r] by {}
            j = j + 1;
        }
        i = i + 1;
    }
    assert(dp@[n as int]@[amount as int] == capped(change_ways(coins@, n as int, amount as int)));
    dp[n][amount]
}

} // verus!
