use crate::minigrep::chars_of;
use vstd::prelude::*;

verus! {

/// The first `k` characters of `p` are also the last `k` of `p[0..e)`, and
/// `k` is shorter than `e`: a proper border of that prefix.
pub open spec fn is_border(p: Seq<char>, e: int, k: int) -> bool {
    0 <= k < e <= p.len() && p.subrange(0, k) == p.subrange(e - k, e)
}

/// `b` is the longest proper border of `p[0..e)`.
pub open spec fn longest_border(p: Seq<char>, e: int, b: int) -> bool {
    is_border(p, e, b) && forall|c: int| b < c < e ==> !#[trigger] is_border(p, e, c)
}

/// The pattern `p` occurs in `t` starting at `s`.
pub open spec fn occurs_at(t: Seq<char>, p: Seq<char>, s: int) -> bool {
    0 <= s && s + p.len() <= t.len() && t.subrange(s, s + p.len()) == p
}

/// A border of a prefix that is shorter than another border is a border of
/// that other border.
proof fn lemma_border_of_border(p: Seq<char>, e: int, k: int, b: int)
    requires
        is_border(p, e, k),
        is_border(p, e, b),
        b < k,
    ensures
        is_border(p, k, b),
{
    assert forall|x: int| 0 <= x < b implies #[trigger] p[x] == p[k - b + x] by {
        assert(p.subrange(0, b)[x] == p.subrange(e - b, e)[x]);
        assert(p.subrange(0, k)[k - b + x] == p.subrange(e - k, e)[k - b + x]);
    }
    assert(p.subrange(0, b) =~= p.subrange(k - b, k));
}

/// A border followed by the character that follows the prefix grows by one.
proof fn lemma_border_extend(p: Seq<char>, e: int, k: int)
    requires
        is_border(p, e, k),
        e < p.len(),
        p[k] == p[e],
    ensures
        is_border(p, e + 1, k + 1),
{
    assert forall|x: int| 0 <= x < k + 1 implies #[trigger] p[x] == p[e - k + x] by {
        if x < k {
            assert(p.subrange(0, k)[x] == p.subrange(e - k, e)[x]);
        }
    }
    assert(p.subrange(0, k + 1) =~= p.subrange(e + 1 - (k + 1), e + 1));
}

/// A non-empty border of `p[0..e+1)` is a border of `p[0..e)` followed by `p[e]`.
proof fn lemma_border_shrink(p: Seq<char>, e: int, b: int)
    requires
        is_border(p, e + 1, b),
        b >= 1,
    ensures
        is_border(p, e, b - 1),
        p[b - 1] == p[e],
{
    assert forall|x: int| 0 <= x < b implies #[trigger] p[x] == p[e + 1 - b + x] by {
        assert(p.subrange(0, b)[x] == p.subrange(e + 1 - b, e + 1)[x]);
    }
    assert(p.subrange(0, b - 1) =~= p.subrange(e - (b - 1), e));
}

/// The table of longest borders: entry `i` is the length of the longest
/// proper border of `p[0..=i]`.
pub fn build_next(p: &[char]) -> (next: Vec<i32>)
    requires
        p@.len() <= i32::MAX,
    ensures
        next@.len() == p@.len(),
        forall|i: int| 0 <= i < p@.len() ==> longest_border(p@, i + 1, #[trigger] next@[i] as int),
{
    let m = p.len();
    let mut next: Vec<i32> = vec![0; m];
    if m == 0 {
        return next;
    }
    assert(p@.subrange(0, 0) =~= p@.subrange(1, 1));
    let mut k: usize = 0;
    let mut i: usize = 1;
    while i < m
        invariant
            m == p@.len(),
            m <= i32::MAX,
            next@.len() == m,
            1 <= i <= m,
            is_border(p@, i as int, k as int),
            longest_border(p@, 1, next@[0] as int),
            forall|l: int| 0 <= l < i ==> longest_border(p@, l + 1, #[trigger] next@[l] as int),
            forall|b: int| k < b < i && is_border(p@, i as int, b) ==> p@[b] != p@[i as int],
        decreases 2 * m - 2 * i + k,
    {
        if p[i] == p[k] {
            proof {
                lemma_border_extend(p@, i as int, k as int);
                assert forall|c: int| k + 1 < c < i + 1 implies !#[trigger] is_border(p@, i + 1, c) by {
                    if is_border(p@, i + 1, c) {
                        lemma_border_shrink(p@, i as int, c);
                    }
                }
            }
            k = k + 1;
            next.set(i, k as i32);
            i = i + 1;
            proof {
                assert forall|b: int| k < b < i && is_border(p@, i as int, b) implies p@[b] != p@[i as int] by {
                }
            }
        } else {
            if k > 0 {
                let ghost old_k = k as int;
                k = next[k - 1] as usize;
                proof {
                    assert(longest_border(p@, old_k, k as int));
                    assert forall|b: int| k < b < i && is_border(p@, i as int, b) implies p@[b] != p@[i as int] by {
                        if b < old_k {
                            lemma_border_of_border(p@, i as int, old_k, b);
                        }
                    }
                    assert(p@.subrange(0, k as int) == p@.subrange(i - k, i as int)) by {
                        assert forall|x: int| 0 <= x < k implies #[trigger] p@[x] == p@[i - k + x] by {
                            assert(p@.subrange(0, k as int)[x] == p@.subrange(old_k - k, old_k)[x]);
                            assert(p@.subrange(0, old_k)[old_k - k + x] == p@.subrange(i - old_k, i as int)[old_k - k + x]);
                        }
                        assert(p@.subrange(0, k as int) =~= p@.subrange(i - k, i as int));
                    }
                }
            } else {
                next.set(i, 0);
                proof {
                    assert(p@.subrange(0, 0) =~= p@.subrange(i + 1, i + 1));
                    assert forall|c: int| 0 < c < i + 1 implies !#[trigger] is_border(p@, i + 1, c) by {
                        if is_border(p@, i + 1, c) {
                            lemma_border_shrink(p@, i as int, c);
                        }
                    }
                }
                i = i + 1;
                proof {
                    assert forall|b: int| k < b < i && is_border(p@, i as int, b) implies p@[b] != p@[i as int] by {
                    }
                }
            }
        }
    }
    next
}

/// The first place where `p` occurs in `text`, counted in characters; an
/// empty pattern occurs at 0.
pub fn kmp_search(text: &str, p: &str) -> (r: Option<usize>)
    requires
        p@.len() <= i32::MAX,
    ensures
        match r {
            Some(s) => occurs_at(text@, p@, s as int) && forall|s2: int|
                0 <= s2 < s ==> !#[trigger] occurs_at(text@, p@, s2),
            None => forall|s2: int| !#[trigger] occurs_at(text@, p@, s2),
        },
{
    let t = chars_of(text);
    let pat = chars_of(p);
    if pat.len() == 0 {
        assert(text@.subrange(0, 0) =~= p@);
        return Some(0);
    }
    let next = build_next(pat.as_slice());
    let n = t.len();
    let m = pat.len();
    let mut i: usize = 0;
    let mut j: usize = 0;
    assert(pat@.subrange(0, 0) =~= t@.subrange(0, 0));
    while i < n && j < m
        invariant
            t@ == text@,
            pat@ == p@,
            n == t@.len(),
            m == pat@.len(),
            m >= 1,
            next@.len() == m,
            forall|l: int| 0 <= l < m ==> longest_border(pat@, l + 1, #[trigger] next@[l] as int),
            j <= i <= n,
            j <= m,
            pat@.subrange(0, j as int) == t@.subrange(i - j, i as int),
            forall|s2: int| 0 <= s2 < i - j ==> !#[trigger] occurs_at(t@, pat@, s2),
        decreases 2 * (n - i) + j,
    {
        if t[i] == pat[j] {
            proof {
                assert(pat@.subrange(0, j + 1) =~= pat@.subrange(0, j as int).push(pat@[j as int]));
                assert(t@.subrange(i - j, i + 1) =~= t@.subrange(i - j, i as int).push(t@[i as int]));
            }
            i = i + 1;
            j = j + 1;
        } else if j != 0 {
            let ghost old_j = j as int;
            let nj = next[j - 1] as usize;
            proof {
                assert(longest_border(pat@, old_j, nj as int));
                assert forall|s2: int| 0 <= s2 < i - nj implies !#[trigger] occurs_at(t@, pat@, s2) by {
                    if s2 >= i - old_j && occurs_at(t@, pat@, s2) {
                        if s2 == i - old_j {
                            assert(t@.subrange(s2, s2 + m)[old_j] == pat@[old_j]);
                        } else {
                            let c = i - s2;
                            assert(is_border(pat@, old_j, c)) by {
                                assert forall|x: int| 0 <= x < c implies #[trigger] pat@.subrange(0, c)[x]
                                    == pat@.subrange(old_j - c, old_j)[x] by {
                                    assert(t@.subrange(s2, s2 + m)[x] == pat@[x]);
                                    assert(pat@.subrange(0, old_j)[old_j - c + x] == t@.subrange(
                                        i - old_j,
                                        i as int,
                                    )[old_j - c + x]);
                                }
                                assert(pat@.subrange(0, c) =~= pat@.subrange(old_j - c, old_j));
                            }
                        }
                    }
                }
                assert forall|x: int| 0 <= x < nj implies #[trigger] pat@.subrange(0, nj as int)[x]
                    == t@.subrange(i - nj, i as int)[x] by {
                    assert(pat@.subrange(0, nj as int)[x] == pat@.subrange(old_j - nj, old_j)[x]);
                    assert(pat@.subrange(0, old_j)[old_j - nj + x] == t@.subrange(i - old_j, i as int)[
                        old_j - nj + x]);
                }
                assert(pat@.subrange(0, nj as int) =~= t@.subrange(i - nj, i as int));
            }
            j = nj;
        } else {
            proof {
                assert forall|s2: int| 0 <= s2 < i + 1 implies !#[trigger] occurs_at(t@, pat@, s2) by {
                    if s2 == i && occurs_at(t@, pat@, s2) {
                        assert(t@.subrange(s2, s2 + m)[0] == pat@[0]);
                    }
                }
                assert(pat@.subrange(0, 0) =~= t@.subrange(i + 1, i + 1));
            }
            i = i + 1;
        }
    }
    if j == m {
        assert(t@.subrange(i - j, i - j + m) =~= pat@);
        Some(i - j)
    } else {
        assert forall|s2: int| !#[trigger] occurs_at(text@, p@, s2) by {
            if 0 <= s2 && s2 >= i - j {
                assert(s2 + m > n);
            }
        }
        None
    }
}

} // verus!
