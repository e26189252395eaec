//! Longest increasing subsequences.

use std::cmp::Ordering;
use vstd::prelude::*;
use vstd::std_specs::cmp::PartialOrdSpec;

verus! {

/// `x` is less than `y` in the order of `T`.
pub open spec fn less<T: PartialOrd>(x: T, y: T) -> bool {
    x.partial_cmp_spec(&y) == Some(Ordering::Less)
}

/// The comparisons of `T` are what its specification says, and being less
/// is a strict weak order: nothing is less than itself, being less is
/// transitive, and so is not being less.
pub open spec fn strict_weak_order<T: PartialOrd>() -> bool {
    &&& T::obeys_partial_cmp_spec()
    &&& forall|x: T| !#[trigger] less(x, x)
    &&& forall|x: T, y: T, z: T| #[trigger] less(x, y) && #[trigger] less(y, z) ==> less(x, z)
    &&& forall|x: T, y: T, z: T| !#[trigger] less(x, y) && !#[trigger] less(y, z) ==> !less(x, z)
}

/// `s` lists indices below `bound` in ascending order, and the values of
/// `a` at them ascend strictly.
pub open spec fn increasing<T: PartialOrd>(a: Seq<T>, s: Seq<int>, bound: int) -> bool {
    &&& forall|t: int| 0 <= t < s.len() ==> 0 <= (#[trigger] s[t]) < bound
    &&& forall|t: int, u: int| 0 <= t < u < s.len() ==> #[trigger] s[t] < #[trigger] s[u]
    &&& forall|t: int, u: int|
        0 <= t < u < s.len() ==> less(a[#[trigger] s[t]], a[#[trigger] s[u]])
}

/// `len` is the length of the longest increasing subsequence of `a`.
pub open spec fn is_lis_len<T: PartialOrd>(a: Seq<T>, len: int) -> bool {
    &&& exists|s: Seq<int>| #[trigger] increasing(a, s, a.len() as int) && s.len() == len
    &&& forall|s: Seq<int>| #[trigger] increasing(a, s, a.len() as int) ==> s.len() <= len
}

/// What the search for the longest increasing subsequence knows after it
/// has seen the first `seen` values: `dp[p]` is the index of the least
/// value that ends an increasing subsequence of length `p + 1`, and
/// `ends[i]` is such a subsequence that ends at index `i`.
pub open spec fn lis_inv<T: PartialOrd>(
    a: Seq<T>,
    seen: int,
    dp: Seq<usize>,
    ends: Seq<Seq<int>>,
) -> bool {
    &&& 0 <= seen <= a.len()
    &&& ends.len() == seen
    &&& forall|i: int|
        0 <= i < seen ==> increasing(a, #[trigger] ends[i], i + 1) && ends[i].len() >= 1
            && ends[i].last() == i
    &&& forall|p: int| 0 <= p < dp.len() ==> 0 <= (#[trigger] dp[p]) < seen
    &&& forall|p: int| 0 <= p < dp.len() ==> (#[trigger] ends[dp[p] as int]).len() == p + 1
    &&& forall|p: int, q: int|
        0 <= p < q < dp.len() ==> less(a[#[trigger] dp[p] as int], a[#[trigger] dp[q] as int])
    &&& forall|s: Seq<int>|
        #[trigger] increasing(a, s, seen) && s.len() >= 1 ==> s.len() <= dp.len() && !less(
            a[s.last()],
            a[dp[s.len() - 1] as int],
        )
}

/// An increasing subsequence without its last index is one, below that
/// index.
pub proof fn lemma_increasing_prefix<T: PartialOrd>(a: Seq<T>, s: Seq<int>, bound: int)
    requires
        increasing(a, s, bound),
        s.len() >= 1,
    ensures
        increasing(a, s.drop_last(), s.last()),
        increasing(a, s.drop_last(), bound),
{
    let r = s.drop_last();
    assert forall|t: int| 0 <= t < r.len() implies 0 <= (#[trigger] r[t]) < s.last() by {
        assert(r[t] == s[t]);
        assert(s[t] < s[s.len() - 1]);
    }
    assert forall|t: int, u: int| 0 <= t < u < r.len() implies #[trigger] r[t] < #[trigger] r[u] by {
        assert(s[t] < s[u]);
    }
    assert forall|t: int, u: int| 0 <= t < u < r.len() implies less(
        a[#[trigger] r[t]],
        a[#[trigger] r[u]],
    ) by {
        assert(less(a[s[t]], a[s[u]]));
    }
}

/// An increasing subsequence stays one when an index beyond its last, with
/// a larger value, is appended.
pub proof fn lemma_increasing_push<T: PartialOrd>(a: Seq<T>, s: Seq<int>, bound: int, i: int)
    requires
        strict_weak_order::<T>(),
        increasing(a, s, bound),
        0 <= i,
        bound <= i,
        s.len() >= 1 ==> less(a[s.last()], a[i]),
    ensures
        increasing(a, s.push(i), i + 1),
{
    let r = s.push(i);
    assert forall|t: int| 0 <= t < r.len() implies 0 <= (#[trigger] r[t]) < i + 1 by {
        if t < s.len() {
            assert(r[t] == s[t]);
        }
    }
    assert forall|t: int, u: int| 0 <= t < u < r.len() implies #[trigger] r[t] < #[trigger] r[u] by {
        assert(r[t] == s[t]);
        if u < s.len() {
            assert(r[u] == s[u]);
        }
    }
    assert forall|t: int, u: int| 0 <= t < u < r.len() implies less(
        a[#[trigger] r[t]],
        a[#[trigger] r[u]],
    ) by {
        assert(r[t] == s[t]);
        if u < s.len() {
            assert(r[u] == s[u]);
            assert(less(a[s[t]], a[s[u]]));
        } else {
            if t < s.len() - 1 {
                assert(less(a[s[t]], a[s[s.len() - 1]]));
            }
        }
    }
}

/// Before any value has been seen, the search knows nothing.
pub proof fn lemma_lis_start<T: PartialOrd>(a: Seq<T>)
    ensures
        lis_inv(a, 0, Seq::<usize>::empty(), Seq::<Seq<int>>::empty()),
{
    let dp = Seq::<usize>::empty();
    assert forall|s: Seq<int>| #[trigger] increasing(a, s, 0) && s.len() >= 1 implies false by {
        let first = s[0];
        assert(0 <= first < 0);
    }
}

/// Seeing the value at index `seen`, which is less than none of the values
/// at `dp[..pos]` and not greater than that at `dp[pos]`, and recording
/// its index at `dp[pos]`, keeps what the search knows.
pub proof fn lemma_lis_step<T: PartialOrd>(
    a: Seq<T>,
    seen: int,
    dp: Seq<usize>,
    ends: Seq<Seq<int>>,
    pos: int,
)
    requires
        strict_weak_order::<T>(),
        lis_inv(a, seen, dp, ends),
        seen < a.len(),
        seen <= usize::MAX,
        0 <= pos <= dp.len(),
        forall|p: int| 0 <= p < pos ==> less(a[#[trigger] dp[p] as int], a[seen]),
        pos < dp.len() ==> !less(a[dp[pos] as int], a[seen]),
    ensures
        ({
            let dp2 = if pos == dp.len() {
                dp.push(seen as usize)
            } else {
                dp.update(pos, seen as usize)
            };
            let chain = if pos == 0 {
                seq![seen]
            } else {
                ends[dp[pos - 1] as int].push(seen)
            };
            lis_inv(a, seen + 1, dp2, ends.push(chain))
        }),
{
    let x = a[seen];
    let dp2 = if pos == dp.len() {
        dp.push(seen as usize)
    } else {
        dp.update(pos, seen as usize)
    };
    let chain = if pos == 0 {
        seq![seen]
    } else {
        ends[dp[pos - 1] as int].push(seen)
    };
    let ends2 = ends.push(chain);
    if pos == 0 {
        assert(increasing(a, Seq::<int>::empty(), seen));
        lemma_increasing_push(a, Seq::<int>::empty(), seen, seen);
        assert(Seq::<int>::empty().push(seen) =~= seq![seen]);
    } else {
        let before = ends[dp[pos - 1] as int];
        assert(increasing(a, before, dp[pos - 1] + 1));
        assert forall|t: int| 0 <= t < before.len() implies 0 <= (#[trigger] before[t]) < seen by {}
        assert(increasing(a, before, seen));
        lemma_increasing_push(a, before, seen, seen);
    }
    assert forall|i: int| 0 <= i < seen + 1 implies increasing(a, #[trigger] ends2[i], i + 1)
        && ends2[i].len() >= 1 && ends2[i].last() == i by {
        if i < seen {
            assert(ends2[i] == ends[i]);
        }
    }
    assert forall|p: int| 0 <= p < dp2.len() implies (#[trigger] ends2[dp2[p] as int]).len() == p
        + 1 by {
        if p != pos {
            assert(ends[dp[p] as int].len() == p + 1);
        } else if pos > 0 {
            assert(ends[dp[pos - 1] as int].len() == pos);
        }
    }
    assert forall|p: int, q: int| 0 <= p < q < dp2.len() implies less(
        a[#[trigger] dp2[p] as int],
        a[#[trigger] dp2[q] as int],
    ) by {
        if q == pos {
            assert(less(a[dp[p] as int], x));
        } else if p == pos {
            assert(less(a[dp[pos] as int], a[dp[q] as int]));
            assert(!less(a[dp[pos] as int], x));
            if !less(x, a[dp[q] as int]) {
                assert(!less(a[dp[pos] as int], a[dp[q] as int]));
            }
        } else {
            assert(less(a[dp[p] as int], a[dp[q] as int]));
        }
    }
    assert forall|s: Seq<int>| #[trigger] increasing(a, s, seen + 1) && s.len() >= 1 implies s.len()
        <= dp2.len() && !less(a[s.last()], a[dp2[s.len() - 1] as int]) by {
        let l = s.len() - 1;
        if s.last() < seen {
            assert forall|t: int| 0 <= t < s.len() implies 0 <= (#[trigger] s[t]) < seen by {
                if t < l {
                    assert(s[t] < s[l]);
                }
            }
            assert(increasing(a, s, seen));
            assert(!less(a[s.last()], a[dp[l] as int]));
            if l == pos {
                // The new value is not greater than the one it replaces.
                assert(!less(a[dp[pos] as int], x));
                if less(a[s.last()], x) {
                    assert(!less(a[s.last()], a[dp[pos] as int]));
                    assert(!less(a[s.last()], x));
                }
            }
        } else {
            assert(s.last() == seen);
            if l >= 1 {
                let r = s.drop_last();
                lemma_increasing_prefix(a, s, seen + 1);
                assert(increasing(a, r, seen));
                assert(r.len() <= dp.len() && !less(a[r.last()], a[dp[l - 1] as int]));
                assert(r.last() == s[l - 1]);
                assert(less(a[s[l - 1]], a[s[l]]));
                // The value before the last is at least `a[dp[l - 1]]`,
                // so `a[dp[l - 1]]` is less than the new value.
                if !less(a[dp[l - 1] as int], x) {
                    assert(!less(a[r.last()], x));
                }
                assert(less(a[dp[l - 1] as int], x));
                if l - 1 >= pos {
                    if l - 1 > pos {
                        assert(less(a[dp[pos] as int], a[dp[l - 1] as int]));
                    }
                    assert(less(a[dp[pos] as int], x));
                }
                assert(l <= pos);
            }
            if l < pos {
                assert(less(a[dp[l] as int], x));
                assert(!less(x, a[dp[l] as int])) by {
                    if less(x, a[dp[l] as int]) {
                        assert(less(x, x));
                    }
                }
            } else {
                assert(!less(x, x));
            }
        }
    }
}

/// Returns the first position of `dp` at which the value of `a` is not
/// less than `a[i]`, given that the values at `dp` ascend.
fn lower_bound<T: PartialOrd>(a: &[T], dp: &Vec<usize>, i: usize) -> (pos: usize)
    requires
        strict_weak_order::<T>(),
        i < a@.len(),
        forall|p: int| 0 <= p < dp@.len() ==> (#[trigger] dp@[p]) < a@.len(),
        forall|p: int, q: int|
            0 <= p < q < dp@.len() ==> less(
                a@[#[trigger] dp@[p] as int],
                a@[#[trigger] dp@[q] as int],
            ),
    ensures
        pos <= dp@.len(),
        forall|p: int| 0 <= p < pos ==> less(a@[#[trigger] dp@[p] as int], a@[i as int]),
        pos < dp@.len() ==> !less(a@[dp@[pos as int] as int], a@[i as int]),
{
    let mut lo: usize = 0;
    let mut hi: usize = dp.len();
    while lo < hi
        invariant
            strict_weak_order::<T>(),
            i < a@.len(),
            lo <= hi <= dp@.len(),
            forall|p: int| 0 <= p < dp@.len() ==> (#[trigger] dp@[p]) < a@.len(),
            forall|p: int, q: int|
                0 <= p < q < dp@.len() ==> less(
                    a@[#[trigger] dp@[p] as int],
                    a@[#[trigger] dp@[q] as int],
                ),
            forall|p: int| 0 <= p < lo ==> less(a@[#[trigger] dp@[p] as int], a@[i as int]),
            hi < dp@.len() ==> !less(a@[dp@[hi as int] as int], a@[i as int]),
        decreases hi - lo,
    {
        let mid = lo + (hi - lo) / 2;
        if a[dp[mid]] < a[i] {
            proof {
                assert(less(a@[dp@[mid as int] as int], a@[i as int]));
                assert forall|p: int| 0 <= p < mid + 1 implies less(
                    a@[#[trigger] dp@[p] as int],
                    a@[i as int],
                ) by {
                    if p < mid {
                        assert(less(a@[dp@[p] as int], a@[dp@[mid as int] as int]));
                    }
                }
            }
            lo = mid + 1;
        } else {
            hi = mid;
        }
    }
    lo
}

/// Computes the length of the longest increasing subsequence.
pub fn lis_len<T: PartialOrd>(a: &[T]) -> (res: usize)
    requires
        strict_weak_order::<T>(),
    ensures
        is_lis_len(a@, res as int),
{
    let n = a.len();
    let mut dp: Vec<usize> = Vec::new();
    let ghost mut ends: Seq<Seq<int>> = Seq::empty();
    let mut i: usize = 0;
    proof {
        lemma_lis_start(a@);
    }
    while i < n
        invariant
            strict_weak_order::<T>(),
            n == a@.len(),
            i <= n,
            lis_inv(a@, i as int, dp@, ends),
        decreases n - i,
    {
        let pos = lower_bound(a, &dp, i);
        proof {
            lemma_lis_step(a@, i as int, dp@, ends, pos as int);
            ends = ends.push(
                if pos == 0 {
                    seq![i as int]
                } else {
                    ends[dp@[pos - 1] as int].push(i as int)
                },
            );
        }
        if pos == dp.len() {
            dp.push(i);
        } else {
            dp[pos] = i;
        }
        i += 1;
    }
    proof {
        lemma_lis_result(a@, dp@, ends);
    }
    dp.len()
}

/// When all values have been seen, the length of `dp` is that of the
/// longest increasing subsequence, and the subsequence recorded for the
/// last index of `dp` is one.
pub proof fn lemma_lis_result<T: PartialOrd>(a: Seq<T>, dp: Seq<usize>, ends: Seq<Seq<int>>)
    requires
        lis_inv(a, a.len() as int, dp, ends),
    ensures
        is_lis_len(a, dp.len() as int),
        dp.len() >= 1 ==> increasing(a, ends[dp.last() as int], a.len() as int) && ends[dp.last() as int].len()
            == dp.len(),
{
    let n = a.len() as int;
    if dp.len() == 0 {
        let none = Seq::<int>::empty();
        assert(increasing(a, none, n) && none.len() == 0);
    } else {
        let top = dp[dp.len() - 1] as int;
        let best = ends[top];
        assert(increasing(a, best, top + 1));
        assert forall|t: int| 0 <= t < best.len() implies 0 <= (#[trigger] best[t]) < n by {}
        assert(increasing(a, best, n) && best.len() == dp.len());
    }
    assert forall|s: Seq<int>| #[trigger] increasing(a, s, n) implies s.len() <= dp.len() by {}
}

/// Computes a longest increasing subsequence and returns its indices, in
/// ascending order.
pub fn lis<T: PartialOrd>(a: &[T]) -> (res: Vec<usize>)
    requires
        strict_weak_order::<T>(),
    ensures
        is_lis_len(a@, res@.len() as int),
        increasing(a@, res@.map_values(|i: usize| i as int), a@.len() as int),
{
    let n = a.len();
    let mut dp: Vec<usize> = Vec::new();
    let mut prev: Vec<usize> = Vec::new();
    let ghost mut ends: Seq<Seq<int>> = Seq::empty();
    let mut i: usize = 0;
    proof {
        lemma_lis_start(a@);
    }
    while i < n
        invariant
            strict_weak_order::<T>(),
            n == a@.len(),
            i <= n,
            lis_inv(a@, i as int, dp@, ends),
            prev@.len() == i,
            forall|k: int|
                0 <= k < i && (#[trigger] ends[k]).len() >= 2 ==> prev@[k] < k && ends[k].drop_last()
                    == ends[prev@[k] as int],
        decreases n - i,
    {
        let pos = lower_bound(a, &dp, i);
        let ghost chain = if pos == 0 {
            seq![i as int]
        } else {
            ends[dp@[pos - 1] as int].push(i as int)
        };
        proof {
            lemma_lis_step(a@, i as int, dp@, ends, pos as int);
            if pos > 0 {
                assert(chain.drop_last() =~= ends[dp@[pos - 1] as int]);
                assert(ends[dp@[pos - 1] as int].len() == pos);
            }
        }
        prev.push(
            if pos > 0 {
                dp[pos - 1]
            } else {
                usize::MAX
            },
        );
        if pos == dp.len() {
            dp.push(i);
        } else {
            dp[pos] = i;
        }
        proof {
            ends = ends.push(chain);
        }
        i += 1;
    }
    proof {
        lemma_lis_result(a@, dp@, ends);
    }
    let len = dp.len();
    let mut res: Vec<usize> = Vec::new();
    if len == 0 {
        proof {
            assert(res@.map_values(|i: usize| i as int) =~= Seq::<int>::empty());
            assert(increasing(a@, Seq::<int>::empty(), n as int));
        }
        return res;
    }
    let ghost best = ends[dp@[len - 1] as int];
    let mut f: usize = 0;
    while f < len
        invariant
            f <= len,
            res@.len() == f,
        decreases len - f,
    {
        res.push(0);
        f += 1;
    }
    let mut cur = dp[len - 1];
    let mut k: usize = len;
    while k > 0
        invariant
            n == a@.len(),
            k <= len,
            len == best.len(),
            res@.len() == len,
            lis_inv(a@, n as int, dp@, ends),
            prev@.len() == n,
            forall|j: int|
                0 <= j < n && (#[trigger] ends[j]).len() >= 2 ==> prev@[j] < j && ends[j].drop_last()
                    == ends[prev@[j] as int],
            forall|t: int| k <= t < len ==> res@[t] == best[t],
            k >= 1 ==> cur < n && ends[cur as int] == best.subrange(0, k as int),
        decreases k,
    {
        k = k - 1;
        let ghost part = ends[cur as int];
        proof {
            assert(part.len() == k + 1);
            assert(part.last() == cur);
            assert(best[k as int] == part[k as int]);
        }
        res[k] = cur;
        if k > 0 {
            proof {
                assert(part.drop_last() =~= best.subrange(0, k as int));
            }
            cur = prev[cur];
        }
    }
    proof {
        assert(res@.map_values(|i: usize| i as int) =~= best);
    }
    res
}

} // verus!
