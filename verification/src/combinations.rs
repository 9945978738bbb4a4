//! The ways to pick some of a row of things, in order.

use vstd::prelude::*;

verus! {

/// A pick of some of the places from `lo` up to `n`, in rising order.
pub open spec fn is_pick(c: Seq<int>, lo: int, n: int) -> bool {
    &&& forall|i: int| 0 <= i < c.len() ==> lo <= #[trigger] c[i] < n
    &&& forall|i: int, j: int| 0 <= i < j < c.len() ==> #[trigger] c[i] < #[trigger] c[j]
}

/// All picks of `k` of the places from `lo` up to `n`, in lexicographic order:
/// those with `lo` first, then those without.
pub open spec fn picks(lo: int, n: int, k: int) -> Seq<Seq<int>>
    decreases n - lo, k,
{
    if k <= 0 {
        seq![seq![]]
    } else if lo >= n {
        seq![]
    } else {
        picks(lo + 1, n, k - 1).map_values(|c: Seq<int>| seq![lo] + c) + picks(lo + 1, n, k)
    }
}

/// All picks of `k` of `n` places.
pub open spec fn combinations(n: int, k: int) -> Seq<Seq<int>> {
    picks(0, n, k)
}

/// How many ways there are to pick `k` of `n` things.
pub open spec fn binomial(n: int, k: int) -> nat
    decreases n, k,
{
    if k <= 0 {
        1
    } else if n <= 0 {
        0
    } else {
        binomial(n - 1, k - 1) + binomial(n - 1, k)
    }
}

/// The pick with every place as high as it can be.
pub open spec fn is_last(c: Seq<int>, n: int) -> bool {
    forall|i: int| 0 <= i < c.len() ==> #[trigger] c[i] == n - c.len() + i
}

/// `d` follows `c` in lexicographic order, the change being at place `i`: the
/// places after `i` are as high as they can be in `c`, and as low as they can be
/// in `d`.
pub open spec fn steps_at(c: Seq<int>, d: Seq<int>, n: int, i: int) -> bool {
    &&& 0 <= i < c.len()
    &&& d.len() == c.len()
    &&& c[i] < n - c.len() + i
    &&& forall|j: int| i < j < c.len() ==> #[trigger] c[j] == n - c.len() + j
    &&& forall|j: int| 0 <= j < i ==> #[trigger] d[j] == c[j]
    &&& forall|j: int| i <= j < c.len() ==> #[trigger] d[j] == c[i] + 1 + (j - i)
}

/// `d` is the next pick after `c`.
pub open spec fn follows(c: Seq<int>, d: Seq<int>, n: int) -> bool {
    exists|i: int| steps_at(c, d, n, i)
}

/// The numbers of a list.
pub open spec fn ints(s: Seq<usize>) -> Seq<int> {
    s.map_values(|x: usize| x as int)
}

/// Step `idx` to the next combination of its length drawn from `0..n`, in
/// lexicographic order. Returns false once the last one has been visited, so
/// the caller evaluates first and advances after.
pub(crate) fn next_combination(idx: &mut Vec<usize>, n: usize) -> (more: bool)
    requires
        old(idx).len() <= n,
        is_pick(ints(old(idx)@), 0, n as int),
    ensures
        more ==> follows(ints(old(idx)@), ints(final(idx)@), n as int),
        !more ==> is_last(ints(old(idx)@), n as int) && final(idx)@ == old(idx)@,
{
    let k: usize = idx.len();
    let ghost was = ints(idx@);
    let mut i: usize = k;
    while i > 0
        invariant
            k == idx.len(),
            i <= k <= n,
            was == ints(idx@),
            idx@ == old(idx)@,
            is_pick(was, 0, n as int),
            forall|j: int| i <= j < k ==> #[trigger] was[j] == n - k + j,
        decreases i,
    {
        i -= 1;
        // Position i can climb to `n - k + i` and still leave room for the
        // positions after it.
        assert(was[i as int] == idx[i as int]);
        if idx[i] < n - k + i {
            let base: usize = idx[i] + 1;
            idx[i] = base;
            for j in i + 1..k
                invariant
                    k == idx.len(),
                    k == was.len(),
                    i < k <= n,
                    base <= n - k + i,
                    base == was[i as int] + 1,
                    forall|m: int| 0 <= m < i ==> #[trigger] idx[m] == was[m],
                    forall|m: int| i <= m < j ==> #[trigger] idx[m] == base + (m - i),
            {
                idx[j] = idx[j - 1] + 1;
            }
            assert(steps_at(was, ints(idx@), n as int, i as int));
            return true;
        }
        assert(was[i as int] == n - k + i) by {
            if i + 1 < k {
                assert(was[i as int] < was[i + 1]);
            }
        }
    }
    false
}

/// There are picks just where there is room for them, and the first of them is
/// as low as can be.
pub proof fn lemma_first_pick(lo: int, n: int, k: int)
    requires
        lo <= n,
        0 <= k,
    ensures
        picks(lo, n, k).len() > 0 <==> lo + k <= n,
        lo + k <= n ==> picks(lo, n, k)[0] == Seq::new(k as nat, |i: int| lo + i),
    decreases n - lo, k,
{
    if k == 0 {
        assert(picks(lo, n, k)[0] =~= Seq::new(0, |i: int| lo + i));
    } else if lo < n {
        lemma_first_pick(lo + 1, n, k - 1);
        lemma_first_pick(lo + 1, n, k);
        let with = picks(lo + 1, n, k - 1);
        if lo + k <= n {
            assert(picks(lo, n, k)[0] == seq![lo] + with[0]);
            assert(seq![lo] + with[0] =~= Seq::new(k as nat, |i: int| lo + i));
        }
    }
}

/// Every entry of the list is a pick of the right length.
pub proof fn lemma_picks_are_picks(lo: int, n: int, k: int, p: int)
    requires
        0 <= k,
        0 <= p < picks(lo, n, k).len(),
    ensures
        picks(lo, n, k)[p].len() == k,
        is_pick(picks(lo, n, k)[p], lo, n),
    decreases n - lo, k,
{
    if k > 0 && lo < n {
        let with = picks(lo + 1, n, k - 1);
        let c = picks(lo, n, k)[p];
        if p < with.len() {
            lemma_picks_are_picks(lo + 1, n, k - 1, p);
            assert(c == seq![lo] + with[p]);
            assert forall|i: int, j: int| 0 <= i < j < c.len() implies #[trigger] c[i]
                < #[trigger] c[j] by {
                assert(c[j] == with[p][j - 1]);
                if i > 0 {
                    assert(c[i] == with[p][i - 1]);
                }
            }
            assert forall|i: int| 0 <= i < c.len() implies lo <= #[trigger] c[i] < n by {
                if i > 0 {
                    assert(c[i] == with[p][i - 1]);
                }
            }
        } else {
            lemma_picks_are_picks(lo + 1, n, k, p - with.len());
            let d = picks(lo + 1, n, k)[p - with.len()];
            assert(c == d);
            assert forall|i: int| 0 <= i < c.len() implies lo <= #[trigger] c[i] < n by {
                assert(lo + 1 <= d[i]);
            }
        }
    }
}

/// Each entry of the list is the next pick after the one before it, and the last
/// entry is the last pick.
pub proof fn lemma_list_steps(lo: int, n: int, k: int, p: int)
    requires
        lo <= n,
        0 <= k,
        0 <= p < picks(lo, n, k).len(),
    ensures
        p + 1 < picks(lo, n, k).len() ==> follows(picks(lo, n, k)[p], picks(lo, n, k)[p + 1], n),
        p + 1 == picks(lo, n, k).len() ==> is_last(picks(lo, n, k)[p], n),
    decreases n - lo, k,
{
    if k > 0 && lo < n {
        let with = picks(lo + 1, n, k - 1);
        let without = picks(lo + 1, n, k);
        let all = picks(lo, n, k);
        let a = with.len();
        if p >= a {
            lemma_list_steps(lo + 1, n, k, p - a);
            assert(all[p] == without[p - a]);
            if p + 1 < all.len() {
                assert(all[p + 1] == without[p - a + 1]);
            }
        } else {
            lemma_list_steps(lo + 1, n, k - 1, p);
            lemma_picks_are_picks(lo + 1, n, k - 1, p);
            let c = with[p];
            assert(all[p] == seq![lo] + c);
            if p + 1 < a {
                let d = with[p + 1];
                assert(all[p + 1] == seq![lo] + d);
                let i = choose|i: int| steps_at(c, d, n, i);
                assert(steps_at(all[p], all[p + 1], n, i + 1));
            } else {
                lemma_first_pick(lo + 1, n, k);
                lemma_first_pick(lo + 1, n, k - 1);
                if without.len() > 0 {
                    assert(all[p + 1] == without[0]);
                    assert(steps_at(all[p], all[p + 1], n, 0));
                } else {
                    assert(is_last(all[p], n));
                }
            }
        }
    }
}

/// A pick has at most one next pick, and the last has none.
pub proof fn lemma_next_is_unique(c: Seq<int>, d: Seq<int>, e: Seq<int>, n: int)
    requires
        follows(c, d, n),
    ensures
        follows(c, e, n) ==> d == e,
        !is_last(c, n),
{
    let i = choose|i: int| steps_at(c, d, n, i);
    assert(c[i] != n - c.len() + i);
    if follows(c, e, n) {
        let j = choose|j: int| steps_at(c, e, n, j);
        if i < j {
            assert(c[j] == n - c.len() + j);
        } else if j < i {
            assert(c[i] == n - c.len() + i);
        }
        assert forall|m: int| 0 <= m < c.len() implies d[m] == e[m] by {
            if m < i {
                assert(d[m] == c[m] && e[m] == c[m]);
            }
        }
        assert(d =~= e);
    }
}

/// There are as many combinations as the binomial coefficient says.
pub proof fn law_combinations_are_counted(n: int, k: int)
    requires
        0 <= n,
    ensures
        combinations(n, k).len() == binomial(n, k),
{
    lemma_picks_are_counted(0, n, k);
}

proof fn lemma_picks_are_counted(lo: int, n: int, k: int)
    requires
        lo <= n,
    ensures
        picks(lo, n, k).len() == binomial(n - lo, k),
    decreases n - lo, k,
{
    if k > 0 && lo < n {
        lemma_picks_are_counted(lo + 1, n, k - 1);
        lemma_picks_are_counted(lo + 1, n, k);
    }
}

/// The list holds every combination, once each, and nothing else.
pub proof fn law_combinations_are_listed_once(n: int, k: int)
    requires
        0 <= n,
        0 <= k,
    ensures
        combinations(n, k).no_duplicates(),
        forall|c: Seq<int>| #[trigger]
            combinations(n, k).contains(c) <==> c.len() == k && is_pick(c, 0, n),
{
    lemma_picks_are_distinct(0, n, k);
    assert forall|c: Seq<int>| #[trigger] combinations(n, k).contains(c) implies c.len() == k
        && is_pick(c, 0, n) by {
        let p = combinations(n, k).index_of(c);
        lemma_picks_are_picks(0, n, k, p);
    }
    assert forall|c: Seq<int>| c.len() == k && is_pick(c, 0, n) implies #[trigger] combinations(
        n,
        k,
    ).contains(c) by {
        lemma_picks_are_complete(c, 0, n);
    }
}

proof fn lemma_picks_are_distinct(lo: int, n: int, k: int)
    requires
        0 <= k,
    ensures
        picks(lo, n, k).no_duplicates(),
    decreases n - lo, k,
{
    if k > 0 && lo < n {
        let with = picks(lo + 1, n, k - 1);
        let without = picks(lo + 1, n, k);
        let all = picks(lo, n, k);
        lemma_picks_are_distinct(lo + 1, n, k - 1);
        lemma_picks_are_distinct(lo + 1, n, k);
        assert forall|p: int, q: int| 0 <= p < all.len() && 0 <= q < all.len() && p != q implies all[p]
            != all[q] by {
            if p < with.len() {
                assert(all[p] == seq![lo] + with[p]);
                assert(all[p][0] == lo);
            } else {
                lemma_picks_are_picks(lo + 1, n, k, p - with.len());
                assert(all[p] == without[p - with.len()]);
                assert(lo + 1 <= all[p][0]);
            }
            if q < with.len() {
                assert(all[q] == seq![lo] + with[q]);
                assert(all[q][0] == lo);
            } else {
                lemma_picks_are_picks(lo + 1, n, k, q - with.len());
                assert(all[q] == without[q - with.len()]);
                assert(lo + 1 <= all[q][0]);
            }
            if p < with.len() && q < with.len() && all[p] == all[q] {
                assert(with[p] =~= all[p].skip(1));
                assert(with[q] =~= all[q].skip(1));
            }
        }
    }
}

proof fn lemma_picks_are_complete(c: Seq<int>, lo: int, n: int)
    requires
        lo <= n,
        is_pick(c, lo, n),
    ensures
        picks(lo, n, c.len() as int).contains(c),
    decreases n - lo, c.len(),
{
    let k = c.len() as int;
    let all = picks(lo, n, k);
    if k == 0 {
        assert(all[0] =~= c);
    } else {
        assert(lo <= c[0] < n);
        let with = picks(lo + 1, n, k - 1);
        let without = picks(lo + 1, n, k);
        if c[0] == lo {
            let rest = c.skip(1);
            assert forall|i: int| 0 <= i < rest.len() implies lo + 1 <= #[trigger] rest[i] < n by {
                assert(c[0] < c[i + 1]);
            }
            assert(is_pick(rest, lo + 1, n));
            lemma_picks_are_complete(rest, lo + 1, n);
            let p = with.index_of(rest);
            assert(all[p] == seq![lo] + with[p]);
            assert(all[p] =~= c);
        } else {
            assert forall|i: int| 0 <= i < c.len() implies lo + 1 <= #[trigger] c[i] < n by {
                if i > 0 {
                    assert(c[0] < c[i]);
                }
            }
            lemma_picks_are_complete(c, lo + 1, n);
            let p = without.index_of(c);
            assert(all[with.len() + p] == without[p]);
        }
    }
}

/// The number of combinations fits a machine word where there are few things.
pub proof fn lemma_few_combinations(n: int, k: int)
    requires
        0 <= n <= 52,
    ensures
        combinations(n, k).len() <= 0x10_0000_0000_0000,
{
    law_combinations_are_counted(n, k);
    lemma_binomial_bound(n, k);
    vstd::arithmetic::power2::lemma2_to64_rest();
    if n < 52 {
        vstd::arithmetic::power2::lemma_pow2_strictly_increases(n as nat, 52);
    }
}

proof fn lemma_binomial_bound(n: int, k: int)
    requires
        0 <= n,
    ensures
        binomial(n, k) <= vstd::arithmetic::power2::pow2(n as nat),
    decreases n, k,
{
    vstd::arithmetic::power2::lemma_pow2_pos(n as nat);
    if k > 0 && n > 0 {
        lemma_binomial_bound(n - 1, k - 1);
        lemma_binomial_bound(n - 1, k);
        vstd::arithmetic::power2::lemma_pow2_unfold(n as nat);
    }
}

} // verus!
