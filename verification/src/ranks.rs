//! Sets of ranks and their descending lists.
//!
//! A rank is an integer, 0 for a deuce through 12 for an ace.

use vstd::prelude::*;

verus! {

/// The members of `s` in `lo..hi`, highest first.
pub open spec fn descending(s: Set<int>, lo: int, hi: int) -> Seq<int>
    decreases hi - lo,
{
    if hi <= lo {
        seq![]
    } else if s.contains(hi - 1) {
        seq![hi - 1] + descending(s, lo, hi - 1)
    } else {
        descending(s, lo, hi - 1)
    }
}

/// The ranks in `s`, highest first.
pub open spec fn ranks_down(s: Set<int>) -> Seq<int> {
    descending(s, 0, 13)
}

/// The `n` highest ranks in `s`, highest first; all of them if there are fewer.
pub open spec fn top(s: Set<int>, n: int) -> Seq<int> {
    if ranks_down(s).len() <= n {
        ranks_down(s)
    } else {
        ranks_down(s).take(n)
    }
}

/// `s` holds the five ranks of the straight whose highest card is `hi`. A five-high
/// straight is the wheel, with the ace below the deuce.
pub open spec fn has_run(s: Set<int>, hi: int) -> bool {
    &&& s.contains(hi)
    &&& s.contains(hi - 1)
    &&& s.contains(hi - 2)
    &&& s.contains(hi - 3)
    &&& s.contains(if hi == 3 { 12 } else { hi - 4 })
}

/// The highest straight in `s` that is at most `hi`-high.
pub open spec fn best_run(s: Set<int>, hi: int) -> Option<int>
    decreases hi,
{
    if hi < 3 {
        None
    } else if has_run(s, hi) {
        Some(hi)
    } else {
        best_run(s, hi - 1)
    }
}

/// The highest card of the best straight in `s`.
pub open spec fn straight_top(s: Set<int>) -> Option<int> {
    best_run(s, 12)
}

/// A list that falls strictly and stays in `s` and in `lo..hi`.
pub open spec fn falls_within(list: Seq<int>, s: Set<int>, lo: int, hi: int) -> bool {
    &&& forall|i: int| 0 <= i < list.len() ==> s.contains(#[trigger] list[i]) && lo <= list[i] < hi
    &&& forall|i: int, j: int| 0 <= i < j < list.len() ==> list[i] > list[j]
}

pub proof fn lemma_descending(s: Set<int>, lo: int, hi: int)
    ensures
        falls_within(descending(s, lo, hi), s, lo, hi),
        forall|r: int| lo <= r < hi && s.contains(r) ==> descending(s, lo, hi).contains(r),
        descending(s, lo, hi).len() <= if hi <= lo {
            0
        } else {
            hi - lo
        },
    decreases hi - lo,
{
    if lo < hi {
        lemma_descending(s, lo, hi - 1);
        let rest = descending(s, lo, hi - 1);
        let d = descending(s, lo, hi);
        if s.contains(hi - 1) {
            assert forall|r: int| lo <= r < hi && s.contains(r) implies d.contains(r) by {
                if r == hi - 1 {
                    assert(d[0] == r);
                } else {
                    let i = rest.index_of(r);
                    assert(d[i + 1] == r);
                }
            }
        }
    }
}

pub proof fn lemma_descending_empty(lo: int, hi: int)
    ensures
        descending(Set::empty(), lo, hi) =~= seq![],
    decreases hi - lo,
{
    if lo < hi {
        lemma_descending_empty(lo, hi - 1);
    }
}

/// Splitting the range splits the list.
pub proof fn lemma_descending_split(s: Set<int>, lo: int, mid: int, hi: int)
    requires
        lo <= mid <= hi,
    ensures
        descending(s, lo, hi) =~= descending(s, mid, hi) + descending(s, lo, mid),
    decreases hi - mid,
{
    if mid < hi {
        lemma_descending_split(s, lo, mid, hi - 1);
    }
}

/// The list depends only on the members in range.
pub proof fn lemma_descending_congruent(s: Set<int>, t: Set<int>, lo: int, hi: int)
    requires
        forall|r: int| lo <= r < hi ==> s.contains(r) == t.contains(r),
    ensures
        descending(s, lo, hi) == descending(t, lo, hi),
    decreases hi - lo,
{
    if lo < hi {
        lemma_descending_congruent(s, t, lo, hi - 1);
    }
}

/// A new member makes the list one longer.
pub proof fn lemma_descending_insert(s: Set<int>, r: int, lo: int, hi: int)
    requires
        lo <= r < hi,
        !s.contains(r),
    ensures
        descending(s.insert(r), lo, hi).len() == descending(s, lo, hi).len() + 1,
    decreases hi - lo,
{
    if r == hi - 1 {
        lemma_descending_congruent(s, s.insert(r), lo, hi - 1);
    } else {
        lemma_descending_insert(s, r, lo, hi - 1);
    }
}

/// Place by place, the list dominates every falling list from the same set.
pub proof fn lemma_descending_dominates(s: Set<int>, list: Seq<int>, lo: int, hi: int)
    requires
        falls_within(list, s, lo, hi),
    ensures
        list.len() <= descending(s, lo, hi).len(),
        forall|i: int| 0 <= i < list.len() ==> #[trigger] descending(s, lo, hi)[i] >= list[i],
    decreases hi - lo,
{
    let d = descending(s, lo, hi);
    if hi <= lo {
        if list.len() > 0 {
            assert(lo <= list[0] < hi);
        }
    } else if list.len() == 0 {
    } else if list[0] == hi - 1 {
        let rest = list.drop_first();
        assert(falls_within(rest, s, lo, hi - 1)) by {
            assert forall|i: int| 0 <= i < rest.len() implies s.contains(#[trigger] rest[i]) && lo
                <= rest[i] < hi - 1 by {
                assert(rest[i] == list[i + 1]);
                assert(list[0] > list[i + 1]);
            }
        }
        lemma_descending_dominates(s, rest, lo, hi - 1);
        assert forall|i: int| 0 <= i < list.len() implies #[trigger] d[i] >= list[i] by {
            if i > 0 {
                assert(d[i] == descending(s, lo, hi - 1)[i - 1]);
                assert(list[i] == rest[i - 1]);
            }
        }
    } else {
        assert(falls_within(list, s, lo, hi - 1)) by {
            assert forall|i: int| 0 <= i < list.len() implies s.contains(#[trigger] list[i]) && lo
                <= list[i] < hi - 1 by {
                if i > 0 {
                    assert(list[0] > list[i]);
                }
            }
        }
        lemma_descending_dominates(s, list, lo, hi - 1);
        lemma_descending(s, lo, hi);
        let rest = descending(s, lo, hi - 1);
        assert forall|i: int| 0 <= i < list.len() implies #[trigger] d[i] >= list[i] by {
            assert(rest[i] >= list[i]);
            if s.contains(hi - 1) {
                assert(d[i + 1] == rest[i]);
                assert(d[i] > d[i + 1]);
            }
        }
    }
}

/// A straight that is there is not passed over, and what is found is there.
pub proof fn lemma_best_run(s: Set<int>, hi: int)
    ensures
        best_run(s, hi) matches Some(h) ==> 3 <= h <= hi && has_run(s, h),
        forall|h: int|
            3 <= h <= hi && has_run(s, h) ==> best_run(s, hi) is Some && best_run(s, hi)->0 >= h,
    decreases hi,
{
    if hi >= 3 && !has_run(s, hi) {
        lemma_best_run(s, hi - 1);
    }
}

} // verus!
