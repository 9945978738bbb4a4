//! How five-card hands compare, read off the cards themselves.

use vstd::prelude::*;

use crate::card;
use crate::eval;
use crate::eval::{
    FLUSH, FULL_HOUSE, HIGH_CARD, PAIR, QUADS, STRAIGHT, STRAIGHT_FLUSH, TRIPS, TWO_PAIR,
};
use crate::ranks;
use crate::settle;
use crate::strength;

verus! {

/// Five different cards.
pub open spec fn is_five(x: Seq<u8>) -> bool {
    x.len() == 5 && strength::are_cards(x)
}

/// All cards are of one suit.
pub open spec fn is_suited(x: Seq<u8>) -> bool {
    forall|i: int, j: int|
        0 <= i < x.len() && 0 <= j < x.len() ==> (#[trigger] x[i]) as int % 4 == (
        #[trigger] x[j]) as int % 4
}

/// The cards have the same ranks, each as often.
pub open spec fn same_ranks(x: Seq<u8>, y: Seq<u8>) -> bool {
    forall|r: int| #[trigger] eval::rank_count(x, r) == eval::rank_count(y, r)
}

/// The ranks of the cards, those that occur more often first and the higher first
/// among those that occur alike.
pub open spec fn is_rank_order(x: Seq<u8>, w: Seq<int>) -> bool {
    &&& forall|r: int| #[trigger] w.contains(r) <==> 0 <= r < 13 && eval::rank_count(x, r) > 0
    &&& forall|i: int, j: int|
        0 <= i < j < w.len() ==> comes_first(x, #[trigger] w[i], #[trigger] w[j])
}

/// Rank `a` occurs more often than rank `b`, or as often and is higher.
pub open spec fn comes_first(x: Seq<u8>, a: int, b: int) -> bool {
    eval::rank_count(x, a) > eval::rank_count(x, b) || (eval::rank_count(x, a) == eval::rank_count(
        x,
        b,
    ) && a > b)
}

/// The ranks as they play: in A-5-4-3-2 the ace is below the deuce.
pub open spec fn as_played(w: Seq<int>) -> Seq<int> {
    if w == strength::run_list(3) {
        seq![3, 2, 1, 0, -1]
    } else {
        w
    }
}

/// The lists first differ where the left one is lower.
pub open spec fn is_lower(a: Seq<int>, b: Seq<int>) -> bool {
    exists|k: int| #[trigger] differ_at(a, b, k) && a[k] < b[k]
}

pub open spec fn differ_at(a: Seq<int>, b: Seq<int>, k: int) -> bool {
    &&& 0 <= k < a.len()
    &&& k < b.len()
    &&& forall|j: int| 0 <= j < k ==> #[trigger] a[j] == b[j]
}

/// How many cards are of suit `s`.
spec fn suit_count(cards: Seq<u8>, s: int) -> int
    decreases cards.len(),
{
    if cards.len() == 0 {
        0
    } else {
        suit_count(cards.drop_last(), s) + if cards.last() as int % 4 == s {
            1int
        } else {
            0int
        }
    }
}

/// Different cards of a suit are of different ranks.
proof fn lemma_suit_count(cards: Seq<u8>, s: int)
    requires
        strength::are_cards(cards),
        0 <= s < 4,
    ensures
        ranks::ranks_down(eval::suited_ranks(cards, s)).len() == suit_count(cards, s),
        0 <= suit_count(cards, s) <= cards.len(),
        suit_count(cards, s) == cards.len() <==> forall|i: int|
            0 <= i < cards.len() ==> (#[trigger] cards[i]) as int % 4 == s,
    decreases cards.len(),
{
    if cards.len() == 0 {
        assert(eval::suited_ranks(cards, s) =~= Set::empty());
        ranks::lemma_descending_empty(0, 13);
    } else {
        let before = cards.drop_last();
        let c = cards.last();
        assert(c == cards[cards.len() - 1]);
        assert(before.push(c) =~= cards);
        assert forall|i: int| 0 <= i < before.len() implies #[trigger] before[i] < 52 by {
            assert(before[i] == cards[i]);
        }
        lemma_suit_count(before, s);
        eval::lemma_push(before, c);
        let old_suited = eval::suited_ranks(before, s);
        assert(eval::suited_ranks(before.push(c), s) =~= if s == c as int % 4 {
            old_suited.insert(c as int / 4)
        } else {
            old_suited
        });
        if s == c as int % 4 {
            assert(!old_suited.contains(c as int / 4)) by {
                if old_suited.contains(c as int / 4) {
                    assert(card::code(c as int / 4, s) == c);
                    let i = before.index_of(c);
                    assert(cards[i] == c);
                }
            }
            ranks::lemma_descending_insert(old_suited, c as int / 4, 0, 13);
        }
        if suit_count(cards, s) == cards.len() {
            assert forall|i: int| 0 <= i < cards.len() implies (#[trigger] cards[i]) as int % 4
                == s by {
                if i < before.len() {
                    assert(before[i] as int % 4 == s);
                }
            }
        }
        if forall|i: int| 0 <= i < cards.len() ==> (#[trigger] cards[i]) as int % 4 == s {
            assert forall|i: int| 0 <= i < before.len() implies (#[trigger] before[i]) as int % 4
                == s by {
                assert(cards[i] as int % 4 == s);
            }
        }
    }
}

/// Five cards of one suit are a flush, and no others are.
proof fn lemma_flush(x: Seq<u8>)
    requires
        is_five(x),
    ensures
        eval::flush_suit(x) is Some <==> is_suited(x),
        eval::flush_suit(x) matches Some(s) ==> 0 <= s < 4 && eval::suited_ranks(x, s)
            =~= eval::ranks_of(x),
{
    lemma_suit_count(x, 0);
    lemma_suit_count(x, 1);
    lemma_suit_count(x, 2);
    lemma_suit_count(x, 3);
    if is_suited(x) {
        let s = x[0] as int % 4;
        assert forall|i: int| 0 <= i < x.len() implies (#[trigger] x[i]) as int % 4 == s by {
            assert(x[i] as int % 4 == x[0] as int % 4);
        }
        assert(eval::has_flush(x, s));
    }
    if let Some(s) = eval::flush_suit(x) {
        assert(suit_count(x, s) == 5);
        assert forall|r: int| eval::ranks_of(x).contains(r) implies eval::suited_ranks(
            x,
            s,
        ).contains(r) by {
            let i = lemma_some_card(x, r);
            assert(x[i] as int % 4 == s);
            assert(card::code(r, s) == x[i]);
        }
        assert forall|r: int| eval::suited_ranks(x, s).contains(r) implies eval::ranks_of(
            x,
        ).contains(r) by {
            let i = x.index_of(card::code(r, s));
            assert(x[i] as int / 4 == r);
            lemma_counted(x, i);
        }
    }
}

/// A rank that is counted is that of some card.
proof fn lemma_some_card(cards: Seq<u8>, r: int) -> (i: int)
    requires
        eval::rank_count(cards, r) > 0,
    ensures
        0 <= i < cards.len(),
        cards[i] as int / 4 == r,
    decreases cards.len(),
{
    if cards.last() as int / 4 == r {
        cards.len() - 1
    } else {
        lemma_some_card(cards.drop_last(), r)
    }
}

/// The rank of a card is counted.
proof fn lemma_counted(cards: Seq<u8>, i: int)
    requires
        0 <= i < cards.len(),
    ensures
        eval::rank_count(cards, cards[i] as int / 4) > 0,
    decreases cards.len(),
{
    if i < cards.len() - 1 {
        lemma_counted(cards.drop_last(), i);
    }
}

/// How many cards have one of the ranks.
spec fn count_in(cards: Seq<u8>, w: Seq<int>) -> int
    decreases w.len(),
{
    if w.len() == 0 {
        0
    } else {
        count_in(cards, w.drop_last()) + eval::rank_count(cards, w.last())
    }
}

/// Different ranks count different cards.
proof fn lemma_count_in(cards: Seq<u8>, w: Seq<int>)
    requires
        w.no_duplicates(),
    ensures
        count_in(cards, w) <= cards.len(),
    decreases cards.len(),
{
    if cards.len() == 0 {
        lemma_count_nothing(cards, w);
    } else {
        lemma_count_in(cards.drop_last(), w);
        lemma_count_step(cards, w);
    }
}

proof fn lemma_count_nothing(cards: Seq<u8>, w: Seq<int>)
    requires
        cards.len() == 0,
    ensures
        count_in(cards, w) == 0,
    decreases w.len(),
{
    if w.len() > 0 {
        lemma_count_nothing(cards, w.drop_last());
    }
}

proof fn lemma_count_step(cards: Seq<u8>, w: Seq<int>)
    requires
        w.no_duplicates(),
        cards.len() > 0,
    ensures
        count_in(cards, w) <= count_in(cards.drop_last(), w) + 1,
        !w.contains(cards.last() as int / 4) ==> count_in(cards, w) == count_in(
            cards.drop_last(),
            w,
        ),
    decreases w.len(),
{
    if w.len() > 0 {
        let v = w.drop_last();
        let r = cards.last() as int / 4;
        lemma_count_step(cards, v);
        assert(w =~= v.push(w.last()));
        if w.last() == r && v.contains(r) {
            let i = v.index_of(r);
            assert(w[i] == w[w.len() - 1]);
        }
        if v.contains(r) {
            let i = v.index_of(r);
            assert(w[i] == r);
        }
        assert(w[w.len() - 1] == w.last());
    }
}

/// The ranks that a hand's score is made of, most frequent first.
spec fn score_ranks(x: Seq<u8>) -> Seq<int> {
    let cat = strength::hand_category(x);
    let d = strength::hand_digits(x);
    if cat == STRAIGHT || cat == STRAIGHT_FLUSH {
        strength::run_list(d[0])
    } else {
        d
    }
}

/// How often the ranks occur, by category.
spec fn shape(cat: u32) -> Seq<int> {
    if cat == QUADS {
        seq![4, 1]
    } else if cat == FULL_HOUSE {
        seq![3, 2]
    } else if cat == TRIPS {
        seq![3, 1, 1]
    } else if cat == TWO_PAIR {
        seq![2, 2, 1]
    } else if cat == PAIR {
        seq![2, 1, 1, 1]
    } else {
        seq![1, 1, 1, 1, 1]
    }
}

/// The ranks of the score occur at least as often as the category says, and those
/// that occur alike are in falling order.
#[verifier::rlimit(60)]
proof fn lemma_score_ranks(x: Seq<u8>)
    requires
        is_five(x),
    ensures
        ({
            let cat = strength::hand_category(x);
            let w = score_ranks(x);
            &&& w.len() == shape(cat).len()
            &&& w.no_duplicates()
            &&& forall|i: int|
                0 <= i < w.len() ==> 0 <= #[trigger] w[i] < 13 && eval::rank_count(x, w[i])
                    >= shape(cat)[i]
            &&& forall|i: int, j: int|
                0 <= i < j < w.len() ==> shape(cat)[i] > shape(cat)[j] || (shape(cat)[i]
                    == shape(cat)[j] && #[trigger] w[i] > #[trigger] w[j])
        }),
{
    let cat = strength::hand_category(x);
    let d = strength::hand_digits(x);
    let w = score_ranks(x);
    let all = eval::ranks_of(x);
    strength::lemma_score_is_shown(x);
    strength::lemma_shown_digits(x, cat, d);
    lemma_flush(x);
    if cat == STRAIGHT_FLUSH || cat == STRAIGHT {
        if cat == STRAIGHT_FLUSH {
            let s = choose|s: int|
                0 <= s < 4 && ranks::has_run(#[trigger] eval::suited_ranks(x, s), d[0]);
            lemma_suited_is_rank(x, s);
        }
        strength::lemma_run_list(all, d[0]);
        assert forall|i: int| 0 <= i < w.len() implies all.contains(#[trigger] w[i]) by {}
    } else if cat == FLUSH {
        let s = choose|s: int|
            0 <= s < 4 && ranks::falls_within(d, #[trigger] eval::suited_ranks(x, s), 0, 13);
        lemma_suited_is_rank(x, s);
        assert forall|i: int| 0 <= i < w.len() implies all.contains(#[trigger] w[i]) by {
            assert(eval::suited_ranks(x, s).contains(d[i]));
        }
    } else if cat == QUADS || cat == TRIPS || cat == PAIR {
        let rest = d.skip(1);
        assert forall|i: int| 1 <= i < d.len() implies all.contains(#[trigger] d[i]) && d[i]
            != d[0] by {
            assert(d[i] == rest[i - 1]);
        }
        assert forall|i: int, j: int| 1 <= i < j < d.len() implies #[trigger] d[i]
            > #[trigger] d[j] by {
            assert(d[i] == rest[i - 1] && d[j] == rest[j - 1]);
        }
    } else if cat == TWO_PAIR {
        assert(d[2] == d.skip(2)[0]);
        assert(all.contains(d[2]));
    } else if cat == HIGH_CARD {
        assert forall|i: int| 0 <= i < w.len() implies all.contains(#[trigger] w[i]) by {}
    }
}

/// Ranks in a suit are ranks.
proof fn lemma_suited_is_rank(x: Seq<u8>, s: int)
    requires
        0 <= s < 4,
        strength::are_cards(x),
    ensures
        forall|r: int| #[trigger]
            eval::suited_ranks(x, s).contains(r) ==> eval::ranks_of(x).contains(r),
{
    assert forall|r: int| #[trigger] eval::suited_ranks(x, s).contains(r) implies eval::ranks_of(
        x,
    ).contains(r) by {
        let i = x.index_of(card::code(r, s));
        assert(x[i] as int / 4 == r);
        lemma_counted(x, i);
    }
}

/// A list of ranks that occur at least so often.
proof fn lemma_count_at_least(x: Seq<u8>, w: Seq<int>, c: Seq<int>, i: int)
    requires
        w.len() == c.len(),
        0 <= i < w.len(),
        forall|k: int| 0 <= k < w.len() ==> eval::rank_count(x, #[trigger] w[k]) >= c[k],
    ensures
        count_in(x, w) >= settle::sum(c) + (eval::rank_count(x, w[i]) - c[i]),
    decreases w.len(),
{
    let v = w.drop_last();
    let b = c.drop_last();
    assert forall|k: int| 0 <= k < v.len() implies eval::rank_count(x, #[trigger] v[k]) >= b[k] by {
        assert(v[k] == w[k]);
    }
    assert(w[w.len() - 1] == w.last());
    if i < v.len() {
        lemma_count_at_least(x, v, b, i);
    } else if v.len() > 0 {
        lemma_count_at_least(x, v, b, 0);
        assert(eval::rank_count(x, v[0]) >= b[0]);
    } else {
        reveal_with_fuel(count_in, 2);
        reveal_with_fuel(settle::sum, 2);
    }
}

proof fn lemma_shape(cat: u32)
    ensures
        settle::sum(shape(cat)) == 5,
        forall|i: int| 0 <= i < shape(cat).len() ==> #[trigger] shape(cat)[i] > 0,
{
    reveal_with_fuel(settle::sum, 6);
    let p = shape(cat);
    if p.len() == 2 {
        assert(p.drop_last() =~= seq![p[0]]);
        assert(seq![p[0]].drop_last() =~= seq![]);
    } else if p.len() == 3 {
        assert(p.drop_last() =~= seq![p[0], p[1]]);
        assert(seq![p[0], p[1]].drop_last() =~= seq![p[0]]);
        assert(seq![p[0]].drop_last() =~= seq![]);
    } else if p.len() == 4 {
        assert(p.drop_last() =~= seq![p[0], p[1], p[2]]);
        assert(seq![p[0], p[1], p[2]].drop_last() =~= seq![p[0], p[1]]);
        assert(seq![p[0], p[1]].drop_last() =~= seq![p[0]]);
        assert(seq![p[0]].drop_last() =~= seq![]);
    } else {
        assert(p.drop_last() =~= seq![p[0], p[1], p[2], p[3]]);
        assert(seq![p[0], p[1], p[2], p[3]].drop_last() =~= seq![p[0], p[1], p[2]]);
        assert(seq![p[0], p[1], p[2]].drop_last() =~= seq![p[0], p[1]]);
        assert(seq![p[0], p[1]].drop_last() =~= seq![p[0]]);
        assert(seq![p[0]].drop_last() =~= seq![]);
    }
}

/// The category and the ranks of the score say how often every rank occurs.
#[verifier::rlimit(60)]
proof fn lemma_counts_fixed(x: Seq<u8>)
    requires
        is_five(x),
    ensures
        ({
            let cat = strength::hand_category(x);
            let w = score_ranks(x);
            &&& forall|i: int|
                0 <= i < w.len() ==> eval::rank_count(x, #[trigger] w[i]) == shape(cat)[i]
            &&& forall|r: int| !w.contains(r) ==> #[trigger] eval::rank_count(x, r) == 0
            &&& is_rank_order(x, w)
        }),
{
    let cat = strength::hand_category(x);
    let w = score_ranks(x);
    let c = shape(cat);
    lemma_score_ranks(x);
    lemma_shape(cat);
    lemma_count_in(x, w);
    assert forall|i: int| 0 <= i < w.len() implies eval::rank_count(x, #[trigger] w[i])
        == c[i] by {
        lemma_count_at_least(x, w, c, i);
    }
    assert forall|r: int| !w.contains(r) implies #[trigger] eval::rank_count(x, r) == 0 by {
        lemma_count_in(x, w.push(r));
        assert(w.push(r).drop_last() =~= w);
        lemma_count_at_least(x, w, c, 0);
    }
    assert forall|r: int| #[trigger] w.contains(r) <==> 0 <= r < 13 && eval::rank_count(x, r) > 0 by {
        if w.contains(r) {
            let i = w.index_of(r);
            assert(w[i] == r);
            assert(c[i] > 0);
        }
    }
    assert forall|i: int, j: int| 0 <= i < j < w.len() implies comes_first(
        x,
        #[trigger] w[i],
        #[trigger] w[j],
    ) by {
        assert(c[i] > c[j] || (c[i] == c[j] && w[i] > w[j]));
    }
}

/// There is one order only.
proof fn lemma_one_order(x: Seq<u8>, v: Seq<int>, w: Seq<int>)
    requires
        is_rank_order(x, v),
        is_rank_order(x, w),
    ensures
        v == w,
{
    lemma_order_prefix(x, v, w, if v.len() < w.len() {
        v.len() as int
    } else {
        w.len() as int
    });
    if v.len() < w.len() {
        let r = w[v.len() as int];
        assert(w.contains(r));
        assert(v.contains(r));
        let i = v.index_of(r);
        assert(v[i] == w[i]);
        assert(comes_first(x, w[i], w[v.len() as int]));
    } else if w.len() < v.len() {
        let r = v[w.len() as int];
        assert(v.contains(r));
        assert(w.contains(r));
        let i = w.index_of(r);
        assert(v[i] == w[i]);
        assert(comes_first(x, v[i], v[w.len() as int]));
    }
    assert(v =~= w);
}

proof fn lemma_order_prefix(x: Seq<u8>, v: Seq<int>, w: Seq<int>, k: int)
    requires
        is_rank_order(x, v),
        is_rank_order(x, w),
        0 <= k <= v.len(),
        k <= w.len(),
    ensures
        forall|i: int| 0 <= i < k ==> #[trigger] v[i] == w[i],
    decreases k,
{
    if k > 0 {
        let n = k - 1;
        lemma_order_prefix(x, v, w, n);
        assert(v.contains(v[n]));
        assert(w.contains(w[n]));
        assert(w.contains(v[n]));
        assert(v.contains(w[n]));
        let m = w.index_of(v[n]);
        let l = v.index_of(w[n]);
        if m < n {
            assert(v[m] == w[m]);
            assert(comes_first(x, v[m], v[n]));
        }
        if l < n {
            assert(v[l] == w[l]);
            assert(comes_first(x, w[l], w[n]));
        }
        if v[n] != w[n] {
            assert(comes_first(x, w[n], w[m]));
            assert(comes_first(x, v[n], v[l]));
        }
    }
}

/// Only a straight has the ranks of A-5-4-3-2.
#[verifier::rlimit(60)]
proof fn lemma_wheel_is_a_straight(x: Seq<u8>)
    requires
        is_five(x),
        strength::hand_category(x) != STRAIGHT,
        strength::hand_category(x) != STRAIGHT_FLUSH,
    ensures
        score_ranks(x) != strength::run_list(3),
{
    let w = score_ranks(x);
    if w == strength::run_list(3) {
        let all = eval::ranks_of(x);
        lemma_counts_fixed(x);
        assert(w[0] == 12 && w[1] == 3 && w[2] == 2 && w[3] == 1 && w[4] == 0);
        assert(w.contains(w[0]) && w.contains(w[1]) && w.contains(w[2]) && w.contains(w[3])
            && w.contains(w[4]));
        assert(all.contains(12) && all.contains(3) && all.contains(2) && all.contains(1)
            && all.contains(0));
        assert(ranks::has_run(all, 3));
        ranks::lemma_best_run(all, 12);
        lemma_flush(x);
        lemma_shape_len(x);
    }
}

/// Five different ranks are no pair or better of a kind.
proof fn lemma_shape_len(x: Seq<u8>)
    requires
        is_five(x),
        score_ranks(x).len() == 5,
    ensures
        strength::hand_category(x) == HIGH_CARD || strength::hand_category(x) == FLUSH
            || strength::hand_category(x) == STRAIGHT || strength::hand_category(x)
            == STRAIGHT_FLUSH,
{
    lemma_score_ranks(x);
    strength::lemma_score_parts(x);
}

/// How the ranks play says what the score holds.
#[verifier::rlimit(60)]
proof fn lemma_played(x: Seq<u8>)
    requires
        is_five(x),
    ensures
        ({
            let cat = strength::hand_category(x);
            let d = strength::hand_digits(x);
            let p = as_played(score_ranks(x));
            &&& p.len() == shape(cat).len()
            &&& cat == STRAIGHT || cat == STRAIGHT_FLUSH ==> d.len() == 1 && p == seq![
                d[0],
                d[0] - 1,
                d[0] - 2,
                d[0] - 3,
                d[0] - 4,
            ]
            &&& cat != STRAIGHT && cat != STRAIGHT_FLUSH ==> p == d
        }),
{
    let cat = strength::hand_category(x);
    let d = strength::hand_digits(x);
    lemma_score_ranks(x);
    if cat == STRAIGHT || cat == STRAIGHT_FLUSH {
        strength::lemma_score_is_shown(x);
        if d[0] != 3 {
            assert(strength::run_list(d[0])[4] == d[0] - 4);
            assert(strength::run_list(3)[4] == 0);
            assert(strength::run_list(3)[1] == 3);
        }
    } else {
        lemma_wheel_is_a_straight(x);
    }
}

/// Two five-card hands score alike exactly where they have the same ranks and are
/// both of one suit, or neither: suits never break ties. Otherwise the higher
/// category scores more, and within a category the ranks, the most frequent first
/// and then the highest, decide by the first that differs, A-5-4-3-2 counting as
/// five-high.
#[verifier::rlimit(60)]
pub proof fn law_five_card_hands_compare(
    x: Seq<u8>,
    y: Seq<u8>,
    v: Seq<int>,
    w: Seq<int>,
)
    requires
        is_five(x),
        is_five(y),
        is_rank_order(x, v),
        is_rank_order(y, w),
    ensures
        eval::hand_score(x) == eval::hand_score(y) <==> same_ranks(x, y) && (is_suited(x)
            <==> is_suited(y)),
        strength::hand_category(x) < strength::hand_category(y) ==> eval::hand_score(x)
            < eval::hand_score(y),
        strength::hand_category(x) == strength::hand_category(y) ==> (eval::hand_score(x)
            < eval::hand_score(y) <==> is_lower(as_played(v), as_played(w))),
{
    let c = strength::hand_category(x);
    let e = strength::hand_category(y);
    let dx = strength::hand_digits(x);
    let dy = strength::hand_digits(y);
    strength::lemma_score_parts(x);
    strength::lemma_score_parts(y);
    strength::law_scores_compare_slot_by_slot(c, dx, e, dy);
    strength::law_scores_compare_slot_by_slot(e, dy, c, dx);
    lemma_counts_fixed(x);
    lemma_counts_fixed(y);
    lemma_one_order(x, v, score_ranks(x));
    lemma_one_order(y, w, score_ranks(y));
    lemma_played(x);
    lemma_played(y);
    lemma_flush(x);
    lemma_flush(y);
    lemma_score_ranks(x);
    lemma_score_ranks(y);
    if eval::hand_score(x) == eval::hand_score(y) {
        lemma_same_digits(x, y);
        assert(is_suited(x) <==> is_suited(y));
        assert forall|r: int| #[trigger] eval::rank_count(x, r) == eval::rank_count(y, r) by {
            let z = score_ranks(x);
            if z.contains(r) {
                let i = z.index_of(r);
                assert(eval::rank_count(x, z[i]) == shape(c)[i]);
                assert(eval::rank_count(y, z[i]) == shape(c)[i]);
            }
        }
    }
    if same_ranks(x, y) && (is_suited(x) <==> is_suited(y)) {
        strength::lemma_same_counts(x, y);
        assert(eval::ranks_of(x) =~= eval::ranks_of(y));
        if is_suited(x) {
            let s = eval::flush_suit(x)->0;
            let t = eval::flush_suit(y)->0;
            assert(eval::suited_ranks(x, s) == eval::suited_ranks(y, t));
        }
    }
    if c == e {
        lemma_lower(x, y);
        if eval::hand_score(x) < eval::hand_score(y) {
            lemma_first_difference(x, y);
        }
    }
}

/// Hands that score alike have the same digits.
proof fn lemma_same_digits(x: Seq<u8>, y: Seq<u8>)
    requires
        is_five(x),
        is_five(y),
        eval::hand_score(x) == eval::hand_score(y),
    ensures
        strength::hand_category(x) == strength::hand_category(y),
        strength::hand_digits(x) == strength::hand_digits(y),
        score_ranks(x) == score_ranks(y),
{
    let c = strength::hand_category(x);
    let e = strength::hand_category(y);
    let dx = strength::hand_digits(x);
    let dy = strength::hand_digits(y);
    strength::lemma_score_parts(x);
    strength::lemma_score_parts(y);
    strength::law_scores_compare_slot_by_slot(c, dx, e, dy);
    lemma_played(x);
    lemma_played(y);
    assert(dx.len() == dy.len());
    assert forall|i: int| 0 <= i < dx.len() implies dx[i] == dy[i] by {
        assert(eval::slot(dx, i) == eval::slot(dy, i));
    }
    assert(dx =~= dy);
}

/// Within a category, the lower list scores less.
proof fn lemma_lower(x: Seq<u8>, y: Seq<u8>)
    requires
        is_five(x),
        is_five(y),
        strength::hand_category(x) == strength::hand_category(y),
    ensures
        is_lower(as_played(score_ranks(x)), as_played(score_ranks(y))) ==> eval::hand_score(x)
            < eval::hand_score(y),
{
    let c = strength::hand_category(x);
    let dx = strength::hand_digits(x);
    let dy = strength::hand_digits(y);
    let p = as_played(score_ranks(x));
    let q = as_played(score_ranks(y));
    strength::lemma_score_parts(x);
    strength::lemma_score_parts(y);
    strength::law_scores_compare_slot_by_slot(c, dx, c, dy);
    lemma_played(x);
    lemma_played(y);
    if is_lower(p, q) {
        let k = choose|k: int| #[trigger] differ_at(p, q, k) && p[k] < q[k];
        if c == STRAIGHT || c == STRAIGHT_FLUSH {
            if k > 0 {
                assert(p[0] == q[0]);
            }
            assert(eval::slot(dx, 0) < eval::slot(dy, 0));
        } else {
            assert(eval::slot(dx, k) < eval::slot(dy, k));
            assert forall|j: int| 0 <= j < k implies eval::slot(dx, j) == eval::slot(dy, j) by {
                assert(p[j] == q[j]);
            }
        }
    }
}

/// Within a category, a lower score has the lower list.
proof fn lemma_first_difference(x: Seq<u8>, y: Seq<u8>)
    requires
        is_five(x),
        is_five(y),
        strength::hand_category(x) == strength::hand_category(y),
        eval::hand_score(x) < eval::hand_score(y),
    ensures
        is_lower(as_played(score_ranks(x)), as_played(score_ranks(y))),
{
    let p = as_played(score_ranks(x));
    let q = as_played(score_ranks(y));
    lemma_played(x);
    lemma_played(y);
    strength::lemma_score_parts(x);
    strength::lemma_score_parts(y);
    let c = strength::hand_category(x);
    if p == q {
        assert(strength::hand_digits(x) =~= strength::hand_digits(y)) by {
            if c == STRAIGHT || c == STRAIGHT_FLUSH {
                assert(p[0] == q[0]);
            }
        }
    } else {
        let k = lemma_differ(p, q, 0);
        if q[k] < p[k] {
            assert(differ_at(q, p, k));
            assert(is_lower(q, p));
            lemma_lower(y, x);
        }
        assert(differ_at(p, q, k) && p[k] < q[k]);
    }
}

proof fn lemma_differ(p: Seq<int>, q: Seq<int>, from: int) -> (k: int)
    requires
        p.len() == q.len(),
        p != q,
        0 <= from <= p.len(),
        forall|j: int| 0 <= j < from ==> #[trigger] p[j] == q[j],
    ensures
        differ_at(p, q, k),
        p[k] != q[k],
    decreases p.len() - from,
{
    if from == p.len() {
        assert(p =~= q);
        from
    } else if p[from] != q[from] {
        from
    } else {
        lemma_differ(p, q, from + 1)
    }
}

// ---- Five cards, counted by hand ----

/// How many of the cards have rank `r`.
pub open spec fn times(x: Seq<u8>, r: int) -> int {
    settle::sum(
        x.map_values(
            |c: u8|
                if c as int / 4 == r {
                    1int
                } else {
                    0int
                },
        ),
    )
}

/// Ranks from `hi` down lie in a row; under the five-high one the ace is low.
pub open spec fn has_row(x: Seq<u8>, hi: int) -> bool {
    &&& 3 <= hi <= 12
    &&& times(x, hi) > 0 && times(x, hi - 1) > 0 && times(x, hi - 2) > 0 && times(x, hi - 3) > 0
    &&& hi > 3 ==> times(x, hi - 4) > 0
    &&& hi == 3 ==> times(x, 12) > 0
}

/// Some rank comes up `n` times.
pub open spec fn has_times(x: Seq<u8>, n: int) -> bool {
    exists|r: int| 0 <= r < 13 && #[trigger] times(x, r) == n
}

/// Two ranks come up twice each.
pub open spec fn has_two_pair(x: Seq<u8>) -> bool {
    exists|r: int, q: int|
        0 <= q < r < 13 && #[trigger] times(x, r) == 2 && #[trigger] times(x, q) == 2
}

/// What five cards are, from a straight flush down to a high card.
pub open spec fn kind_of_five(x: Seq<u8>) -> int {
    let row = exists|hi: int| #[trigger] has_row(x, hi);
    if is_suited(x) && row {
        8
    } else if has_times(x, 4) {
        7
    } else if has_times(x, 3) && has_times(x, 2) {
        6
    } else if is_suited(x) {
        5
    } else if row {
        4
    } else if has_times(x, 3) {
        3
    } else if has_two_pair(x) {
        2
    } else if has_times(x, 2) {
        1
    } else {
        0
    }
}

proof fn lemma_times(x: Seq<u8>, r: int)
    ensures
        times(x, r) == eval::rank_count(x, r),
    decreases x.len(),
{
    let f = |c: u8|
        if c as int / 4 == r {
            1int
        } else {
            0int
        };
    if x.len() > 0 {
        lemma_times(x.drop_last(), r);
        assert(x.map_values(f).drop_last() =~= x.drop_last().map_values(f));
    }
}

proof fn lemma_row(x: Seq<u8>)
    ensures
        (exists|hi: int| #[trigger] has_row(x, hi)) <==> ranks::straight_top(eval::ranks_of(x)) is Some,
{
    let all = eval::ranks_of(x);
    assert forall|r: int| 0 <= r < 13 implies (all.contains(r) <==> #[trigger] times(x, r) > 0) by {
        lemma_times(x, r);
    }
    ranks::lemma_best_run(all, 12);
    if let Some(hi) = ranks::straight_top(all) {
        assert(times(x, hi) > 0 && times(x, hi - 1) > 0 && times(x, hi - 2) > 0 && times(x, hi - 3)
            > 0);
        assert(hi > 3 ==> times(x, hi - 4) > 0);
        assert(hi == 3 ==> times(x, 12) > 0);
        assert(has_row(x, hi));
    }
    if exists|hi: int| #[trigger] has_row(x, hi) {
        let hi = choose|hi: int| #[trigger] has_row(x, hi);
        assert(ranks::has_run(all, hi));
    }
}

/// Some rank comes up `n` times where the shape of the category says so.
#[verifier::rlimit(60)]
proof fn lemma_has_times(x: Seq<u8>, n: int)
    requires
        is_five(x),
        n > 0,
    ensures
        has_times(x, n) <==> exists|i: int|
            0 <= i < shape(strength::hand_category(x)).len() && #[trigger] shape(
                strength::hand_category(x),
            )[i] == n,
{
    let w = score_ranks(x);
    let c = shape(strength::hand_category(x));
    lemma_counts_fixed(x);
    lemma_score_ranks(x);
    if has_times(x, n) {
        let r = choose|r: int| 0 <= r < 13 && #[trigger] times(x, r) == n;
        lemma_times(x, r);
        let i = w.index_of(r);
        assert(w[i] == r);
        assert(c[i] == n);
    }
    if exists|i: int| 0 <= i < c.len() && #[trigger] c[i] == n {
        let i = choose|i: int| 0 <= i < c.len() && #[trigger] c[i] == n;
        lemma_times(x, w[i]);
        assert(times(x, w[i]) == n);
    }
}

/// Two ranks come up twice where the shape of the category says so.
#[verifier::rlimit(60)]
proof fn lemma_has_two_pair(x: Seq<u8>)
    requires
        is_five(x),
    ensures
        has_two_pair(x) <==> shape(strength::hand_category(x)) == seq![2int, 2, 1],
{
    let w = score_ranks(x);
    let cat = strength::hand_category(x);
    let c = shape(cat);
    lemma_counts_fixed(x);
    lemma_score_ranks(x);
    if has_two_pair(x) {
        let (r, q) = choose|r: int, q: int|
            0 <= q < r < 13 && #[trigger] times(x, r) == 2 && #[trigger] times(x, q) == 2;
        lemma_times(x, r);
        lemma_times(x, q);
        let (i, j) = (w.index_of(r), w.index_of(q));
        assert(w[i] == r && w[j] == q);
        assert(i != j && c[i] == 2 && c[j] == 2);
    }
    if c == seq![2int, 2, 1] {
        lemma_times(x, w[0]);
        lemma_times(x, w[1]);
        assert(c[0] == 2 && c[1] == 2);
        assert(w[0] > w[1]);
        assert(times(x, w[0]) == 2 && times(x, w[1]) == 2);
    }
}

/// How often ranks come up, by category.
#[verifier::rlimit(60)]
proof fn lemma_shape_counts(x: Seq<u8>)
    requires
        is_five(x),
    ensures
        ({
            let cat = strength::hand_category(x);
            &&& has_times(x, 4) <==> cat == QUADS
            &&& has_times(x, 3) <==> cat == FULL_HOUSE || cat == TRIPS
            &&& has_times(x, 2) <==> cat == FULL_HOUSE || cat == TWO_PAIR || cat == PAIR
            &&& has_two_pair(x) <==> cat == TWO_PAIR
        }),
{
    let cat = strength::hand_category(x);
    let c = shape(cat);
    strength::lemma_score_parts(x);
    lemma_has_times(x, 4);
    lemma_has_times(x, 3);
    lemma_has_times(x, 2);
    lemma_has_two_pair(x);
    assert(cat == QUADS ==> c[0] == 4);
    assert(cat == FULL_HOUSE ==> c[0] == 3 && c[1] == 2);
    assert(cat == TRIPS ==> c[0] == 3);
    assert(cat == TWO_PAIR ==> c[0] == 2 && c[1] == 2);
    assert(cat == PAIR ==> c[0] == 2 && c[1] == 1);
}

/// A score's category is what the five cards are: of one suit or not, in a row or
/// not, and how often their ranks come up.
pub proof fn law_categories_of_five_cards(x: Seq<u8>)
    requires
        is_five(x),
    ensures
        eval::hand_score(x) / 0x10_0000 == kind_of_five(x),
{
    lemma_shape_counts(x);
    lemma_flush(x);
    lemma_row(x);
    strength::law_every_score_has_a_category(x);
    if let Some(s) = eval::flush_suit(x) {
        assert(eval::suited_ranks(x, s) == eval::ranks_of(x));
    }
}

/// The ranks of the cards, those that come up more often first and the higher
/// first among those that come up alike.
pub open spec fn is_in_order(x: Seq<u8>, w: Seq<int>) -> bool {
    &&& forall|r: int| #[trigger] w.contains(r) <==> 0 <= r < 13 && times(x, r) > 0
    &&& forall|i: int, j: int|
        0 <= i < j < w.len() ==> {
            ||| times(x, #[trigger] w[i]) > times(x, #[trigger] w[j])
            ||| times(x, w[i]) == times(x, w[j]) && w[i] > w[j]
        }
}

/// The ranks of any five cards can be put in that order.
pub proof fn law_ranks_can_be_put_in_order(x: Seq<u8>) -> (w: Seq<int>)
    requires
        is_five(x),
    ensures
        is_in_order(x, w),
{
    let w = score_ranks(x);
    lemma_counts_fixed(x);
    assert forall|r: int| #[trigger] w.contains(r) <==> 0 <= r < 13 && times(x, r) > 0 by {
        lemma_times(x, r);
    }
    assert forall|i: int, j: int| 0 <= i < j < w.len() implies {
        ||| times(x, #[trigger] w[i]) > times(x, #[trigger] w[j])
        ||| times(x, w[i]) == times(x, w[j]) && w[i] > w[j]
    } by {
        assert(comes_first(x, w[i], w[j]));
        lemma_times(x, w[i]);
        lemma_times(x, w[j]);
    }
    w
}

/// The ranks as they play: after a five in A-5-4-3-2 the ace is below the deuce.
pub open spec fn with_ace_low(w: Seq<int>) -> Seq<int> {
    if w.len() == 5 && w[0] == 12 && w[1] == 3 && w[2] == 2 && w[3] == 1 && w[4] == 0 {
        seq![3, 2, 1, 0, -1]
    } else {
        w
    }
}

/// Of two hands of five cards the one of the better kind scores more; of one kind
/// the first rank that differs decides, those that come up more often first; and
/// hands of one kind with the same ranks tie.
#[verifier::rlimit(60)]
pub proof fn law_five_cards_compare_by_kind_and_rank(
    x: Seq<u8>,
    y: Seq<u8>,
    v: Seq<int>,
    w: Seq<int>,
)
    requires
        is_five(x),
        is_five(y),
        is_in_order(x, v),
        is_in_order(y, w),
    ensures
        kind_of_five(x) < kind_of_five(y) ==> eval::hand_score(x) < eval::hand_score(y),
        kind_of_five(x) == kind_of_five(y) ==> (eval::hand_score(x) < eval::hand_score(y)
            <==> is_lower(with_ace_low(v), with_ace_low(w))),
        eval::hand_score(x) == eval::hand_score(y) <==> (forall|r: int|
            0 <= r < 13 ==> #[trigger] times(x, r) == times(y, r)) && (is_suited(x)
            <==> is_suited(y)),
{
    lemma_in_order(x, v);
    lemma_in_order(y, w);
    law_five_card_hands_compare(x, y, v, w);
    law_categories_of_five_cards(x);
    law_categories_of_five_cards(y);
    strength::law_every_score_has_a_category(x);
    strength::law_every_score_has_a_category(y);
    assert forall|r: int|
        times(x, r) == #[trigger] eval::rank_count(x, r) && times(y, r) == eval::rank_count(y, r) by {
        lemma_times(x, r);
        lemma_times(y, r);
    }
    if forall|r: int| 0 <= r < 13 ==> #[trigger] times(x, r) == times(y, r) {
        assert forall|r: int| #[trigger] eval::rank_count(x, r) == eval::rank_count(y, r) by {
            if 0 <= r < 13 {
                assert(times(x, r) == times(y, r));
            } else {
                lemma_no_such_rank(x, r);
                lemma_no_such_rank(y, r);
            }
        }
    }
    if same_ranks(x, y) {
        assert forall|r: int| 0 <= r < 13 implies #[trigger] times(x, r) == times(y, r) by {
            assert(eval::rank_count(x, r) == eval::rank_count(y, r));
        }
    }
}

proof fn lemma_no_such_rank(x: Seq<u8>, r: int)
    requires
        forall|i: int| 0 <= i < x.len() ==> #[trigger] x[i] < 52,
        !(0 <= r < 13),
    ensures
        eval::rank_count(x, r) == 0,
    decreases x.len(),
{
    if x.len() > 0 {
        assert(x[x.len() - 1] < 52);
        assert forall|i: int| 0 <= i < x.drop_last().len() implies #[trigger] x.drop_last()[i]
            < 52 by {
            assert(x[i] < 52);
        }
        lemma_no_such_rank(x.drop_last(), r);
    }
}

proof fn lemma_in_order(x: Seq<u8>, w: Seq<int>)
    requires
        is_in_order(x, w),
    ensures
        is_rank_order(x, w),
        with_ace_low(w) == as_played(w),
{
    assert forall|r: int| #[trigger] w.contains(r) <==> 0 <= r < 13 && eval::rank_count(x, r) > 0 by {
        lemma_times(x, r);
    }
    assert forall|i: int, j: int| 0 <= i < j < w.len() implies comes_first(
        x,
        #[trigger] w[i],
        #[trigger] w[j],
    ) by {
        lemma_times(x, w[i]);
        lemma_times(x, w[j]);
    }
    if with_ace_low(w) != w {
        assert(w =~= strength::run_list(3));
    }
}

/// What stands in a slot of a score: a rank, or zero where there is none.
pub open spec fn in_slot(d: Seq<int>, i: int) -> int {
    if i < d.len() {
        d[i]
    } else {
        0
    }
}

/// A score holds the kind of the hand above five slots of four bits each: for a
/// straight just its top rank, else the ranks, those that come up more often
/// first; the slots that are left are zero.
#[verifier::rlimit(60)]
pub proof fn law_scores_hold_kind_and_ranks(x: Seq<u8>, w: Seq<int>)
    requires
        is_five(x),
        is_in_order(x, w),
    ensures
        ({
            let kind = kind_of_five(x);
            let d = if kind == 8 || kind == 4 {
                seq![with_ace_low(w)[0]]
            } else {
                w
            };
            eval::hand_score(x) == kind * 0x10_0000 + in_slot(d, 0) * 0x1_0000 + in_slot(d, 1)
                * 0x1000 + in_slot(d, 2) * 0x100 + in_slot(d, 3) * 0x10 + in_slot(d, 4)
        }),
{
    let d = strength::hand_digits(x);
    lemma_in_order(x, w);
    lemma_counts_fixed(x);
    lemma_one_order(x, w, score_ranks(x));
    lemma_played(x);
    law_categories_of_five_cards(x);
    strength::law_every_score_has_a_category(x);
    strength::lemma_score_parts(x);
    let kind = kind_of_five(x);
    if kind == 8 || kind == 4 {
        assert(d =~= seq![with_ace_low(w)[0]]);
    }
}

/// The kinds of hands, from a high card up, by name.
pub proof fn law_kinds_are_named()
    ensures
        eval::CATEGORY_NAMES[0]@ == "high card"@,
        eval::CATEGORY_NAMES[1]@ == "pair"@,
        eval::CATEGORY_NAMES[2]@ == "two pair"@,
        eval::CATEGORY_NAMES[3]@ == "three of a kind"@,
        eval::CATEGORY_NAMES[4]@ == "straight"@,
        eval::CATEGORY_NAMES[5]@ == "flush"@,
        eval::CATEGORY_NAMES[6]@ == "full house"@,
        eval::CATEGORY_NAMES[7]@ == "four of a kind"@,
        eval::CATEGORY_NAMES[8]@ == "straight flush"@,
{
}

} // verus!
