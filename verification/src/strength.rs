//! What a score means.
//!
//! A score says which hand the cards make. Here the hands that cards show are
//! spelled out one by one, and a score is proved to be the strongest of them,
//! and to be the score of the best five of the cards.

use vstd::prelude::*;

use crate::card;
use crate::eval;
use crate::eval::{
    FLUSH, FULL_HOUSE, HIGH_CARD, PAIR, QUADS, STRAIGHT, STRAIGHT_FLUSH, TRIPS, TWO_PAIR,
};
use crate::ranks;

verus! {

/// Five, six or seven cards, none of them twice.
pub open spec fn is_hand(cards: Seq<u8>) -> bool {
    &&& 5 <= cards.len() <= 7
    &&& are_cards(cards)
}

/// Distinct cards.
pub open spec fn are_cards(cards: Seq<u8>) -> bool {
    &&& cards.no_duplicates()
    &&& forall|i: int| 0 <= i < cards.len() ==> #[trigger] cards[i] < 52
}

/// At least `n` of the cards have rank `r`.
pub open spec fn at_least(cards: Seq<u8>, r: int, n: int) -> bool {
    0 <= r < 13 && eval::rank_count(cards, r) >= n
}

/// The cards show a hand of category `cat` with the ranks `d`: the ranks that
/// make the hand first, then its kickers.
pub open spec fn shows(cards: Seq<u8>, cat: u32, d: Seq<int>) -> bool {
    let all = eval::ranks_of(cards);
    if cat == STRAIGHT_FLUSH {
        &&& d.len() == 1
        &&& 3 <= d[0] < 13
        &&& exists|s: int| 0 <= s < 4 && ranks::has_run(#[trigger] eval::suited_ranks(cards, s), d[0])
    } else if cat == QUADS {
        &&& d.len() == 2
        &&& at_least(cards, d[0], 4)
        &&& ranks::falls_within(d.skip(1), all.remove(d[0]), 0, 13)
    } else if cat == FULL_HOUSE {
        &&& d.len() == 2
        &&& d[0] != d[1]
        &&& at_least(cards, d[0], 3)
        &&& at_least(cards, d[1], 2)
    } else if cat == FLUSH {
        &&& d.len() == 5
        &&& exists|s: int|
            0 <= s < 4 && ranks::falls_within(d, #[trigger] eval::suited_ranks(cards, s), 0, 13)
    } else if cat == STRAIGHT {
        &&& d.len() == 1
        &&& 3 <= d[0] < 13
        &&& ranks::has_run(all, d[0])
    } else if cat == TRIPS {
        &&& d.len() == 3
        &&& at_least(cards, d[0], 3)
        &&& ranks::falls_within(d.skip(1), all.remove(d[0]), 0, 13)
    } else if cat == TWO_PAIR {
        &&& d.len() == 3
        &&& d[0] > d[1]
        &&& at_least(cards, d[0], 2)
        &&& at_least(cards, d[1], 2)
        &&& ranks::falls_within(d.skip(2), all.remove(d[0]).remove(d[1]), 0, 13)
    } else if cat == PAIR {
        &&& d.len() == 4
        &&& at_least(cards, d[0], 2)
        &&& ranks::falls_within(d.skip(1), all.remove(d[0]), 0, 13)
    } else {
        &&& cat == HIGH_CARD
        &&& d.len() == 5
        &&& ranks::falls_within(d, all, 0, 13)
    }
}

/// Ranks that fit their slots.
pub open spec fn are_digits(d: Seq<int>) -> bool {
    &&& d.len() <= 5
    &&& forall|i: int| 0 <= i < d.len() ==> 0 <= #[trigger] d[i] < 13
}

/// A score holds its category and its ranks: the category first, then slot by
/// slot, so that one integer comparison compares hands.
pub proof fn law_scores_compare_slot_by_slot(c1: u32, d1: Seq<int>, c2: u32, d2: Seq<int>)
    requires
        are_digits(d1),
        are_digits(d2),
    ensures
        eval::score_category(eval::packed(c1, d1)) == c1,
        c1 < c2 ==> eval::packed(c1, d1) < eval::packed(c2, d2),
        c1 == c2 ==> forall|i: int|
            #![trigger eval::slot(d1, i)]
            0 <= i < 5 && eval::slot(d1, i) < eval::slot(d2, i) && (forall|j: int|
                0 <= j < i ==> eval::slot(d1, j) == eval::slot(d2, j)) ==> eval::packed(c1, d1)
                < eval::packed(c2, d2),
        eval::packed(c1, d1) == eval::packed(c2, d2) <==> c1 == c2 && forall|i: int|
            0 <= i < 5 ==> eval::slot(d1, i) == eval::slot(d2, i),
{
    lemma_slots(d1);
    lemma_slots(d2);
    assert forall|i: int|
        #![trigger eval::slot(d1, i)]
        c1 == c2 && 0 <= i < 5 && eval::slot(d1, i) < eval::slot(d2, i) && (forall|j: int|
            0 <= j < i ==> eval::slot(d1, j) == eval::slot(d2, j)) implies eval::packed(c1, d1)
        < eval::packed(c2, d2) by {
        assert(i > 0 ==> eval::slot(d1, 0) == eval::slot(d2, 0));
        assert(i > 1 ==> eval::slot(d1, 1) == eval::slot(d2, 1));
        assert(i > 2 ==> eval::slot(d1, 2) == eval::slot(d2, 2));
        assert(i > 3 ==> eval::slot(d1, 3) == eval::slot(d2, 3));
        assert(i == 0 || i == 1 || i == 2 || i == 3 || i == 4);
    }
    if eval::packed(c1, d1) == eval::packed(c2, d2) {
        assert forall|i: int| 0 <= i < 5 implies eval::slot(d1, i) == eval::slot(d2, i) by {
            assert(i == 0 || i == 1 || i == 2 || i == 3 || i == 4);
        }
    }
    if c1 == c2 && (forall|i: int| 0 <= i < 5 ==> eval::slot(d1, i) == eval::slot(d2, i)) {
        assert(eval::slot(d1, 0) == eval::slot(d2, 0));
        assert(eval::slot(d1, 1) == eval::slot(d2, 1));
        assert(eval::slot(d1, 2) == eval::slot(d2, 2));
        assert(eval::slot(d1, 3) == eval::slot(d2, 3));
        assert(eval::slot(d1, 4) == eval::slot(d2, 4));
    }
}

proof fn lemma_slots(d: Seq<int>)
    requires
        are_digits(d),
    ensures
        forall|i: int| 0 <= i < 5 ==> 0 <= #[trigger] eval::slot(d, i) < 13,
{
}

/// Slots that are all at least as high make a score that is at least as high.
proof fn lemma_dominated(cat: u32, d: Seq<int>, e: Seq<int>)
    requires
        d.len() <= e.len(),
        are_digits(d),
        are_digits(e),
        forall|i: int| 0 <= i < d.len() ==> #[trigger] d[i] <= e[i],
    ensures
        eval::packed(cat, d) <= eval::packed(cat, e),
{
    lemma_slots(d);
    lemma_slots(e);
    assert forall|i: int| 0 <= i < 5 implies #[trigger] eval::slot(d, i) <= eval::slot(e, i) by {}
    assert(eval::slot(d, 0) <= eval::slot(e, 0));
    assert(eval::slot(d, 1) <= eval::slot(e, 1));
    assert(eval::slot(d, 2) <= eval::slot(e, 2));
    assert(eval::slot(d, 3) <= eval::slot(e, 3));
    assert(eval::slot(d, 4) <= eval::slot(e, 4));
}

// ---- Counting ----

/// The cards of two ranks are among the cards.
proof fn lemma_two_ranks(cards: Seq<u8>, a: int, b: int)
    requires
        a != b,
    ensures
        eval::rank_count(cards, a) + eval::rank_count(cards, b) <= cards.len(),
    decreases cards.len(),
{
    if cards.len() > 0 {
        lemma_two_ranks(cards.drop_last(), a, b);
    }
}

spec fn one_if(b: bool) -> int {
    if b {
        1
    } else {
        0
    }
}

/// A suit's ranks take one card each; the other cards of two given ranks come
/// on top.
proof fn lemma_suit_and_ranks(cards: Seq<u8>, s: int, a: int, b: int)
    requires
        0 <= s < 4,
        a != b,
        forall|i: int| 0 <= i < cards.len() ==> #[trigger] cards[i] < 52,
    ensures
        ({
            let suited = eval::suited_ranks(cards, s);
            ranks::ranks_down(suited).len() + eval::rank_count(cards, a) - one_if(suited.contains(a))
                + eval::rank_count(cards, b) - one_if(suited.contains(b)) <= cards.len()
        }),
    decreases cards.len(),
{
    let suited = eval::suited_ranks(cards, s);
    if cards.len() == 0 {
        assert(suited =~= Set::empty());
        ranks::lemma_descending_empty(0, 13);
    } else {
        let before = cards.drop_last();
        let c = cards.last();
        let old_suited = eval::suited_ranks(before, s);
        assert(c == cards[cards.len() - 1]);
        assert(before.push(c) =~= cards);
        assert forall|i: int| 0 <= i < before.len() implies #[trigger] before[i] < 52 by {
            assert(before[i] == cards[i]);
        }
        lemma_suit_and_ranks(before, s, a, b);
        eval::lemma_push(before, c);
        if s == c as int % 4 {
            assert(suited == old_suited.insert(c as int / 4));
            if old_suited.contains(c as int / 4) {
                assert(suited =~= old_suited);
            } else {
                ranks::lemma_descending_insert(old_suited, c as int / 4, 0, 13);
            }
        }
    }
}

/// Two suits' ranks take different cards.
proof fn lemma_two_suits(cards: Seq<u8>, s: int, t: int)
    requires
        0 <= s < 4,
        0 <= t < 4,
        s != t,
        forall|i: int| 0 <= i < cards.len() ==> #[trigger] cards[i] < 52,
    ensures
        ranks::ranks_down(eval::suited_ranks(cards, s)).len() + ranks::ranks_down(
            eval::suited_ranks(cards, t),
        ).len() <= cards.len(),
    decreases cards.len(),
{
    if cards.len() == 0 {
        assert(eval::suited_ranks(cards, s) =~= Set::empty());
        assert(eval::suited_ranks(cards, t) =~= Set::empty());
        ranks::lemma_descending_empty(0, 13);
    } else {
        let before = cards.drop_last();
        let c = cards.last();
        assert(c == cards[cards.len() - 1]);
        assert(before.push(c) =~= cards);
        assert forall|i: int| 0 <= i < before.len() implies #[trigger] before[i] < 52 by {
            assert(before[i] == cards[i]);
        }
        lemma_two_suits(before, s, t);
        eval::lemma_push(before, c);
        lemma_suit_grows(before, c, s);
        lemma_suit_grows(before, c, t);
    }
}

/// One more card adds at most one rank, and only to its own suit.
proof fn lemma_suit_grows(cards: Seq<u8>, c: u8, s: int)
    requires
        0 <= s < 4,
        c < 52,
    ensures
        ranks::ranks_down(eval::suited_ranks(cards.push(c), s)).len() <= ranks::ranks_down(
            eval::suited_ranks(cards, s),
        ).len() + one_if(s == c as int % 4),
{
    let suited = eval::suited_ranks(cards, s);
    eval::lemma_push(cards, c);
    if s == c as int % 4 {
        assert(eval::suited_ranks(cards.push(c), s) == suited.insert(c as int / 4));
        if suited.contains(c as int / 4) {
            assert(suited.insert(c as int / 4) =~= suited);
        } else {
            ranks::lemma_descending_insert(suited, c as int / 4, 0, 13);
        }
    } else {
        assert(eval::suited_ranks(cards.push(c), s) == suited);
    }
}

/// A flush leaves no room for quads or a full house: at five to seven cards
/// the three never meet.
pub proof fn law_flush_rules_out_quads_and_full_houses(cards: Seq<u8>, s: int)
    requires
        cards.len() <= 7,
        forall|i: int| 0 <= i < cards.len() ==> #[trigger] cards[i] < 52,
        0 <= s < 4,
        eval::has_flush(cards, s),
    ensures
        forall|r: int| #[trigger] eval::rank_count(cards, r) < 4,
        forall|a: int, b: int|
            a != b && #[trigger] eval::rank_count(cards, a) >= 3 ==> #[trigger] eval::rank_count(
                cards,
                b,
            ) < 2,
        forall|t: int| 0 <= t < 4 && #[trigger] eval::has_flush(cards, t) ==> t == s,
{
    assert forall|r: int| #[trigger] eval::rank_count(cards, r) < 4 by {
        lemma_suit_and_ranks(cards, s, r, if r == 13 { 14 } else { 13 });
    }
    assert forall|a: int, b: int|
        a != b && #[trigger] eval::rank_count(cards, a) >= 3 implies #[trigger] eval::rank_count(
        cards,
        b,
    ) < 2 by {
        lemma_suit_and_ranks(cards, s, a, b);
    }
    assert forall|t: int| 0 <= t < 4 && #[trigger] eval::has_flush(cards, t) implies t == s by {
        if t != s {
            lemma_two_suits(cards, s, t);
        }
    }
}

/// The ranks take one card each; the other cards of two given ranks come on top.
proof fn lemma_ranks_and_repeats(cards: Seq<u8>, a: int, b: int)
    requires
        a != b,
        forall|i: int| 0 <= i < cards.len() ==> #[trigger] cards[i] < 52,
    ensures
        ({
            let all = eval::ranks_of(cards);
            ranks::ranks_down(all).len() + eval::rank_count(cards, a) - one_if(all.contains(a))
                + eval::rank_count(cards, b) - one_if(all.contains(b)) <= cards.len()
        }),
    decreases cards.len(),
{
    let all = eval::ranks_of(cards);
    if cards.len() == 0 {
        assert(all =~= Set::empty());
        ranks::lemma_descending_empty(0, 13);
    } else {
        let before = cards.drop_last();
        let c = cards.last();
        let old_all = eval::ranks_of(before);
        assert(c == cards[cards.len() - 1]);
        assert(before.push(c) =~= cards);
        assert forall|i: int| 0 <= i < before.len() implies #[trigger] before[i] < 52 by {
            assert(before[i] == cards[i]);
        }
        lemma_ranks_and_repeats(before, a, b);
        eval::lemma_push(before, c);
        assert(all == old_all.insert(c as int / 4));
        if old_all.contains(c as int / 4) {
            assert(all =~= old_all);
        } else {
            ranks::lemma_descending_insert(old_all, c as int / 4, 0, 13);
        }
    }
}

/// A straight leaves no room for quads or a full house either.
pub proof fn law_straight_rules_out_quads_and_full_houses(cards: Seq<u8>, hi: int)
    requires
        cards.len() <= 7,
        forall|i: int| 0 <= i < cards.len() ==> #[trigger] cards[i] < 52,
        3 <= hi < 13,
        ranks::has_run(eval::ranks_of(cards), hi),
    ensures
        forall|r: int| #[trigger] eval::rank_count(cards, r) < 4,
        forall|a: int, b: int|
            a != b && #[trigger] eval::rank_count(cards, a) >= 3 ==> #[trigger] eval::rank_count(
                cards,
                b,
            ) < 2,
{
    let all = eval::ranks_of(cards);
    lemma_run_list(all, hi);
    ranks::lemma_descending_dominates(all, run_list(hi), 0, 13);
    assert forall|r: int| #[trigger] eval::rank_count(cards, r) < 4 by {
        lemma_ranks_and_repeats(cards, r, if r == 13 { 14 } else { 13 });
    }
    assert forall|a: int, b: int|
        a != b && #[trigger] eval::rank_count(cards, a) >= 3 implies #[trigger] eval::rank_count(
        cards,
        b,
    ) < 2 by {
        lemma_ranks_and_repeats(cards, a, b);
    }
}

/// Of distinct cards no rank has more than its four suits.
proof fn lemma_rank_count_by_suit(cards: Seq<u8>, r: int)
    requires
        are_cards(cards),
        0 <= r < 13,
    ensures
        eval::rank_count(cards, r) == one_if(cards.contains(card::code(r, 0))) + one_if(
            cards.contains(card::code(r, 1)),
        ) + one_if(cards.contains(card::code(r, 2))) + one_if(cards.contains(card::code(r, 3))),
    decreases cards.len(),
{
    if cards.len() > 0 {
        let before = cards.drop_last();
        let c = cards.last();
        assert(c == cards[cards.len() - 1]);
        assert(before.push(c) =~= cards);
        assert(are_cards(before)) by {
            assert forall|i: int| 0 <= i < before.len() implies #[trigger] before[i] < 52 by {
                assert(before[i] == cards[i]);
            }
        }
        lemma_rank_count_by_suit(before, r);
        assert(!before.contains(c));
        assert forall|x: u8| #[trigger] cards.contains(x) == (before.contains(x) || x == c) by {
            if before.contains(x) {
                let i = before.index_of(x);
                assert(cards[i] == x);
            }
            if cards.contains(x) && x != c {
                let i = cards.index_of(x);
                assert(before[i] == x);
            }
        }
        assert(card::code(c as int / 4, c as int % 4) == c);
    }
}

/// The highest ranks of a set dominate every list of as many of its ranks.
proof fn lemma_top(s: Set<int>, n: int, list: Seq<int>)
    requires
        0 <= n <= 5,
        list.len() == n,
        ranks::falls_within(list, s, 0, 13),
    ensures
        ranks::top(s, n).len() == n,
        are_digits(ranks::top(s, n)),
        ranks::falls_within(ranks::top(s, n), s, 0, 13),
        forall|i: int| 0 <= i < n ==> #[trigger] ranks::top(s, n)[i] >= list[i],
{
    ranks::lemma_descending_dominates(s, list, 0, 13);
    ranks::lemma_descending(s, 0, 13);
    assert forall|i: int| 0 <= i < n implies #[trigger] ranks::top(s, n)[i] >= list[i] by {
        assert(ranks::top(s, n)[i] == ranks::descending(s, 0, 13)[i]);
    }
}

/// The score of a hand is in the category of its branch, with ranks for digits.
proof fn lemma_top_digits(s: Set<int>, n: int)
    requires
        0 <= n <= 5,
    ensures
        ranks::top(s, n).len() <= n,
        ranks::falls_within(ranks::top(s, n), s, 0, 13),
{
    ranks::lemma_descending(s, 0, 13);
}

/// Ranks that occur at least `n` and no more than `n` times are found.
proof fn lemma_held(cards: Seq<u8>, r: int, n: nat)
    requires
        0 <= r < 13,
        eval::rank_count(cards, r) == n,
    ensures
        ranks::ranks_down(eval::ranks_held(cards, n)).len() > 0,
        12 >= ranks::ranks_down(eval::ranks_held(cards, n))[0] >= r,
        eval::rank_count(cards, ranks::ranks_down(eval::ranks_held(cards, n))[0]) == n,
{
    let held = eval::ranks_held(cards, n);
    ranks::lemma_descending(held, 0, 13);
    assert(ranks::falls_within(seq![r], held, 0, 13));
    ranks::lemma_descending_dominates(held, seq![r], 0, 13);
    assert(held.contains(ranks::ranks_down(held)[0]));
}

/// What the lists of quads, trips and pairs hold.
proof fn lemma_held_lists(cards: Seq<u8>, n: nat)
    ensures
        ({
            let list = ranks::ranks_down(eval::ranks_held(cards, n));
            &&& forall|i: int|
                0 <= i < list.len() ==> 0 <= #[trigger] list[i] < 13 && eval::rank_count(cards, list[i])
                    == n
            &&& forall|i: int, j: int| 0 <= i < j < list.len() ==> list[i] > list[j]
        }),
{
    let held = eval::ranks_held(cards, n);
    ranks::lemma_descending(held, 0, 13);
    let list = ranks::ranks_down(held);
    assert forall|i: int| 0 <= i < list.len() implies 0 <= #[trigger] list[i] < 13
        && eval::rank_count(cards, list[i]) == n by {
        assert(held.contains(list[i]));
    }
}

/// Of a hand without a flush, the category its score falls in.
pub open spec fn rank_category(cards: Seq<u8>) -> u32 {
    let quads = ranks::ranks_down(eval::ranks_held(cards, 4));
    let trips = ranks::ranks_down(eval::ranks_held(cards, 3));
    let pairs = ranks::ranks_down(eval::ranks_held(cards, 2));
    if quads.len() > 0 {
        QUADS
    } else if trips.len() > 0 && trips.len() + pairs.len() > 1 {
        FULL_HOUSE
    } else if ranks::straight_top(eval::ranks_of(cards)) is Some {
        STRAIGHT
    } else if trips.len() > 0 {
        TRIPS
    } else if pairs.len() > 1 {
        TWO_PAIR
    } else if pairs.len() > 0 {
        PAIR
    } else {
        HIGH_CARD
    }
}

/// The category that a hand's score falls in.
pub open spec fn hand_category(cards: Seq<u8>) -> u32 {
    match eval::flush_suit(cards) {
        Some(s) => if ranks::straight_top(eval::suited_ranks(cards, s)) is Some {
            STRAIGHT_FLUSH
        } else {
            FLUSH
        },
        None => rank_category(cards),
    }
}

/// The ranks that a hand's score holds.
pub open spec fn hand_digits(cards: Seq<u8>) -> Seq<int> {
    let all = eval::ranks_of(cards);
    let quads = ranks::ranks_down(eval::ranks_held(cards, 4));
    let trips = ranks::ranks_down(eval::ranks_held(cards, 3));
    let pairs = ranks::ranks_down(eval::ranks_held(cards, 2));
    let cat = hand_category(cards);
    if cat == STRAIGHT_FLUSH {
        seq![ranks::straight_top(eval::suited_ranks(cards, eval::flush_suit(cards)->0))->0]
    } else if cat == FLUSH {
        ranks::top(eval::suited_ranks(cards, eval::flush_suit(cards)->0), 5)
    } else if cat == QUADS {
        seq![quads[0]] + ranks::top(all.remove(quads[0]), 1)
    } else if cat == FULL_HOUSE {
        seq![
            trips[0],
            if trips.len() > 1 && (pairs.len() == 0 || trips[1] > pairs[0]) {
                trips[1]
            } else {
                pairs[0]
            },
        ]
    } else if cat == STRAIGHT {
        seq![ranks::straight_top(all)->0]
    } else if cat == TRIPS {
        seq![trips[0]] + ranks::top(all.remove(trips[0]), 2)
    } else if cat == TWO_PAIR {
        seq![pairs[0], pairs[1]] + ranks::top(all.remove(pairs[0]).remove(pairs[1]), 1)
    } else if cat == PAIR {
        seq![pairs[0]] + ranks::top(all.remove(pairs[0]), 3)
    } else {
        ranks::top(all, 5)
    }
}

/// A score is its category and its ranks, packed.
pub proof fn lemma_score_parts(cards: Seq<u8>)
    ensures
        eval::hand_score(cards) == eval::packed(hand_category(cards), hand_digits(cards)),
        are_digits(hand_digits(cards)),
        hand_category(cards) <= 8,
{
    let all = eval::ranks_of(cards);
    let quads = ranks::ranks_down(eval::ranks_held(cards, 4));
    let trips = ranks::ranks_down(eval::ranks_held(cards, 3));
    let pairs = ranks::ranks_down(eval::ranks_held(cards, 2));
    lemma_held_lists(cards, 4);
    lemma_held_lists(cards, 3);
    lemma_held_lists(cards, 2);
    let cat = hand_category(cards);
    if cat == STRAIGHT_FLUSH {
        ranks::lemma_best_run(eval::suited_ranks(cards, eval::flush_suit(cards)->0), 12);
    } else if cat == FLUSH {
        lemma_top_digits(eval::suited_ranks(cards, eval::flush_suit(cards)->0), 5);
    } else if cat == QUADS {
        lemma_top_digits(all.remove(quads[0]), 1);
    } else if cat == FULL_HOUSE {
    } else if cat == STRAIGHT {
        ranks::lemma_best_run(all, 12);
    } else if cat == TRIPS {
        lemma_top_digits(all.remove(trips[0]), 2);
    } else if cat == TWO_PAIR {
        lemma_top_digits(all.remove(pairs[0]).remove(pairs[1]), 1);
    } else if cat == PAIR {
        lemma_top_digits(all.remove(pairs[0]), 3);
    } else {
        lemma_top_digits(all, 5);
    }
}

/// Every score decodes to one of the nine categories.
pub proof fn law_every_score_has_a_category(cards: Seq<u8>)
    ensures
        eval::score_category(eval::hand_score(cards)) == hand_category(cards),
        hand_category(cards) <= STRAIGHT_FLUSH,
{
    lemma_score_parts(cards);
    law_scores_compare_slot_by_slot(
        hand_category(cards),
        hand_digits(cards),
        hand_category(cards),
        hand_digits(cards),
    );
}

/// The wheel is the weakest straight: an ace that plays low makes a five-high.
pub proof fn law_wheel_is_the_weakest_straight(s: Set<int>, hi: int)
    requires
        3 < hi < 13,
        ranks::has_run(s, hi),
    ensures
        eval::packed(STRAIGHT, seq![3]) < eval::packed(STRAIGHT, seq![ranks::straight_top(s)->0]),
        eval::packed(STRAIGHT_FLUSH, seq![3]) < eval::packed(
            STRAIGHT_FLUSH,
            seq![ranks::straight_top(s)->0],
        ),
{
    ranks::lemma_best_run(s, 12);
}

// ---- No hand shown is stronger than the score ----

/// A hand that is shown has ranks for digits.
pub proof fn lemma_shown_digits(cards: Seq<u8>, cat: u32, d: Seq<int>)
    requires
        shows(cards, cat, d),
    ensures
        are_digits(d),
        cat <= 8,
{
    if cat == QUADS || cat == TRIPS || cat == PAIR {
        let rest = d.skip(1);
        assert forall|i: int| 0 <= i < d.len() implies 0 <= #[trigger] d[i] < 13 by {
            if i > 0 {
                assert(d[i] == rest[i - 1]);
            }
        }
    } else if cat == TWO_PAIR {
        assert(d[2] == d.skip(2)[0]);
    }
}

/// The suit of a flush that is shown is the one that scores.
proof fn lemma_flush_found(cards: Seq<u8>, s: int, list: Seq<int>)
    requires
        is_hand(cards),
        0 <= s < 4,
        list.len() >= 5,
        ranks::falls_within(list, eval::suited_ranks(cards, s), 0, 13),
    ensures
        eval::flush_suit(cards) == Some(s),
{
    ranks::lemma_descending_dominates(eval::suited_ranks(cards, s), list, 0, 13);
    law_flush_rules_out_quads_and_full_houses(cards, s);
    assert(eval::has_flush(cards, s));
}

/// The ranks of a straight, highest first.
pub open spec fn run_list(hi: int) -> Seq<int> {
    if hi == 3 {
        seq![12, 3, 2, 1, 0]
    } else {
        seq![hi, hi - 1, hi - 2, hi - 3, hi - 4]
    }
}

pub proof fn lemma_run_list(s: Set<int>, hi: int)
    requires
        3 <= hi < 13,
        ranks::has_run(s, hi),
    ensures
        ranks::falls_within(run_list(hi), s, 0, 13),
        run_list(hi).len() == 5,
{
}

/// A hand scores in no lower category than any hand it shows.
proof fn lemma_category_at_least(cards: Seq<u8>, cat: u32, d: Seq<int>)
    requires
        is_hand(cards),
        shows(cards, cat, d),
    ensures
        hand_category(cards) >= cat,
{
    let all = eval::ranks_of(cards);
    if let Some(f) = eval::flush_suit(cards) {
        law_flush_rules_out_quads_and_full_houses(cards, f);
    }
    if cat == STRAIGHT_FLUSH {
        let s = choose|s: int|
            0 <= s < 4 && ranks::has_run(#[trigger] eval::suited_ranks(cards, s), d[0]);
        lemma_run_list(eval::suited_ranks(cards, s), d[0]);
        lemma_flush_found(cards, s, run_list(d[0]));
        ranks::lemma_best_run(eval::suited_ranks(cards, s), 12);
    } else if cat == QUADS {
        lemma_rank_count_by_suit(cards, d[0]);
        lemma_held(cards, d[0], 4);
    } else if cat == FULL_HOUSE {
        lemma_rank_count_by_suit(cards, d[0]);
        lemma_rank_count_by_suit(cards, d[1]);
        lemma_held(cards, d[0], eval::rank_count(cards, d[0]));
        lemma_held(cards, d[1], eval::rank_count(cards, d[1]));
        if eval::rank_count(cards, d[0]) == 3 && eval::rank_count(cards, d[1]) == 3 {
            lemma_both_held(cards, d[0], d[1], 3);
        }
    } else if cat == FLUSH {
        let s = choose|s: int|
            0 <= s < 4 && ranks::falls_within(d, #[trigger] eval::suited_ranks(cards, s), 0, 13);
        lemma_flush_found(cards, s, d);
    } else if cat == STRAIGHT {
        ranks::lemma_best_run(all, 12);
    } else if cat == TRIPS {
        lemma_rank_count_by_suit(cards, d[0]);
        lemma_held(cards, d[0], eval::rank_count(cards, d[0]));
    } else if cat == TWO_PAIR {
        lemma_rank_count_by_suit(cards, d[0]);
        lemma_rank_count_by_suit(cards, d[1]);
        lemma_held(cards, d[0], eval::rank_count(cards, d[0]));
        lemma_held(cards, d[1], eval::rank_count(cards, d[1]));
        if eval::rank_count(cards, d[0]) == 2 && eval::rank_count(cards, d[1]) == 2 {
            lemma_both_held(cards, d[0], d[1], 2);
        }
    } else if cat == PAIR {
        lemma_rank_count_by_suit(cards, d[0]);
        lemma_held(cards, d[0], eval::rank_count(cards, d[0]));
    }
}

/// Two ranks that occur `n` times are both in the list, highest first.
proof fn lemma_both_held(cards: Seq<u8>, a: int, b: int, n: nat)
    requires
        0 <= a < 13,
        0 <= b < 13,
        a != b,
        eval::rank_count(cards, a) == n,
        eval::rank_count(cards, b) == n,
    ensures
        ({
            let list = ranks::ranks_down(eval::ranks_held(cards, n));
            &&& list.len() >= 2
            &&& list[0] >= if a > b {
                a
            } else {
                b
            }
            &&& list[1] >= if a > b {
                b
            } else {
                a
            }
        }),
{
    let held = eval::ranks_held(cards, n);
    let pair = if a > b {
        seq![a, b]
    } else {
        seq![b, a]
    };
    assert(ranks::falls_within(pair, held, 0, 13));
    ranks::lemma_descending_dominates(held, pair, 0, 13);
}

/// No hand that the cards show is stronger than their score.
proof fn lemma_shown_is_no_stronger(cards: Seq<u8>, cat: u32, d: Seq<int>)
    requires
        is_hand(cards),
        shows(cards, cat, d),
    ensures
        eval::packed(cat, d) <= eval::hand_score(cards),
{
    let all = eval::ranks_of(cards);
    let quads = ranks::ranks_down(eval::ranks_held(cards, 4));
    let trips = ranks::ranks_down(eval::ranks_held(cards, 3));
    let pairs = ranks::ranks_down(eval::ranks_held(cards, 2));
    let e = hand_digits(cards);
    lemma_shown_digits(cards, cat, d);
    lemma_score_parts(cards);
    lemma_category_at_least(cards, cat, d);
    if hand_category(cards) > cat {
        law_scores_compare_slot_by_slot(cat, d, hand_category(cards), e);
    } else {
        lemma_held_lists(cards, 4);
        lemma_held_lists(cards, 3);
        lemma_held_lists(cards, 2);
        lemma_slots(d);
        lemma_slots(e);
        if let Some(f) = eval::flush_suit(cards) {
            law_flush_rules_out_quads_and_full_houses(cards, f);
        }
        if cat == STRAIGHT_FLUSH {
            let s = choose|s: int|
                0 <= s < 4 && ranks::has_run(#[trigger] eval::suited_ranks(cards, s), d[0]);
            lemma_run_list(eval::suited_ranks(cards, s), d[0]);
            lemma_flush_found(cards, s, run_list(d[0]));
            ranks::lemma_best_run(eval::suited_ranks(cards, s), 12);
            lemma_dominated(cat, d, e);
        } else if cat == FLUSH {
            let s = choose|s: int|
                0 <= s < 4 && ranks::falls_within(d, #[trigger] eval::suited_ranks(cards, s), 0, 13);
            lemma_flush_found(cards, s, d);
            lemma_top(eval::suited_ranks(cards, s), 5, d);
            lemma_dominated(cat, d, e);
        } else if cat == QUADS {
            lemma_rank_count_by_suit(cards, d[0]);
            lemma_held(cards, d[0], 4);
            if quads[0] != d[0] {
                lemma_two_ranks(cards, quads[0], d[0]);
            }
            lemma_kickers(cat, all, d, e, quads[0], 1);
        } else if cat == FULL_HOUSE {
            lemma_full_house(cards, d);
        } else if cat == STRAIGHT {
            ranks::lemma_best_run(all, 12);
            lemma_dominated(cat, d, e);
        } else if cat == TRIPS {
            lemma_rank_count_by_suit(cards, d[0]);
            lemma_held(cards, d[0], eval::rank_count(cards, d[0]));
            if trips[0] != d[0] {
                lemma_both_held(cards, trips[0], d[0], 3);
            }
            lemma_kickers(cat, all, d, e, trips[0], 2);
        } else if cat == TWO_PAIR {
            lemma_two_pair(cards, d);
        } else if cat == PAIR {
            lemma_rank_count_by_suit(cards, d[0]);
            lemma_held(cards, d[0], eval::rank_count(cards, d[0]));
            if pairs[0] != d[0] {
                lemma_both_held(cards, pairs[0], d[0], 2);
            }
            lemma_kickers(cat, all, d, e, pairs[0], 3);
        } else {
            lemma_top(all, 5, d);
            lemma_dominated(cat, d, e);
        }
    }
}

/// With the same rank in front, the highest kickers win.
proof fn lemma_kickers(cat: u32, all: Set<int>, d: Seq<int>, e: Seq<int>, r: int, n: int)
    requires
        1 <= n <= 3,
        d.len() == n + 1,
        d[0] == r,
        0 <= r < 13,
        ranks::falls_within(d.skip(1), all.remove(r), 0, 13),
        e == seq![r] + ranks::top(all.remove(r), n),
    ensures
        eval::packed(cat, d) <= eval::packed(cat, e),
{
    let rest = d.skip(1);
    lemma_top(all.remove(r), n, rest);
    assert forall|i: int| 0 <= i < d.len() implies #[trigger] d[i] <= e[i] && 0 <= d[i] < 13 by {
        if i > 0 {
            assert(d[i] == rest[i - 1]);
            assert(e[i] == ranks::top(all.remove(r), n)[i - 1]);
        }
    }
    assert forall|i: int| 0 <= i < e.len() implies 0 <= #[trigger] e[i] < 13 by {
        if i > 0 {
            assert(e[i] == ranks::top(all.remove(r), n)[i - 1]);
        }
    }
    lemma_dominated(cat, d, e);
}

proof fn lemma_full_house(cards: Seq<u8>, d: Seq<int>)
    requires
        is_hand(cards),
        shows(cards, FULL_HOUSE, d),
        hand_category(cards) == FULL_HOUSE,
    ensures
        eval::packed(FULL_HOUSE, d) <= eval::packed(FULL_HOUSE, hand_digits(cards)),
{
    let trips = ranks::ranks_down(eval::ranks_held(cards, 3));
    let pairs = ranks::ranks_down(eval::ranks_held(cards, 2));
    let e = hand_digits(cards);
    lemma_score_parts(cards);
    lemma_held_lists(cards, 3);
    lemma_held_lists(cards, 2);
    lemma_rank_count_by_suit(cards, d[0]);
    lemma_rank_count_by_suit(cards, d[1]);
    if eval::rank_count(cards, d[0]) == 4 {
        lemma_held(cards, d[0], 4);
    }
    if eval::rank_count(cards, d[1]) == 4 {
        lemma_held(cards, d[1], 4);
    }
    lemma_held(cards, d[0], 3);
    lemma_held(cards, d[1], eval::rank_count(cards, d[1]));
    if eval::rank_count(cards, d[1]) == 3 {
        lemma_both_held(cards, d[0], d[1], 3);
    }
    assert(e[0] >= d[0]);
    assert(e[0] == d[0] ==> e[1] >= d[1]);
}

proof fn lemma_two_pair(cards: Seq<u8>, d: Seq<int>)
    requires
        is_hand(cards),
        shows(cards, TWO_PAIR, d),
        hand_category(cards) == TWO_PAIR,
    ensures
        eval::packed(TWO_PAIR, d) <= eval::packed(TWO_PAIR, hand_digits(cards)),
{
    let all = eval::ranks_of(cards);
    let pairs = ranks::ranks_down(eval::ranks_held(cards, 2));
    let e = hand_digits(cards);
    lemma_score_parts(cards);
    lemma_held_lists(cards, 2);
    lemma_rank_count_by_suit(cards, d[0]);
    lemma_rank_count_by_suit(cards, d[1]);
    lemma_held(cards, d[0], eval::rank_count(cards, d[0]));
    lemma_held(cards, d[1], eval::rank_count(cards, d[1]));
    lemma_both_held(cards, d[0], d[1], 2);
    assert(e[0] == pairs[0] && e[1] == pairs[1]);
    let last = d.skip(2);
    assert(last[0] == d[2]);
    if e[0] == d[0] && e[1] == d[1] {
        let rest = all.remove(d[0]).remove(d[1]);
        lemma_top(rest, 1, last);
        assert(e[2] == ranks::top(rest, 1)[0]);
    }
    lemma_slots(e);
    assert(eval::slot(e, 2) >= 0);
}

// ---- The score is a hand that is shown ----

/// How many of the cards have a rank below `hi`.
spec fn total(cards: Seq<u8>, hi: int) -> nat
    decreases hi,
{
    if hi <= 0 {
        0
    } else {
        total(cards, hi - 1) + eval::rank_count(cards, hi - 1)
    }
}

proof fn lemma_total_push(cards: Seq<u8>, c: u8, hi: int)
    requires
        c < 52,
        0 <= hi,
    ensures
        total(cards.push(c), hi) == total(cards, hi) + one_if((c as int) / 4 < hi),
    decreases hi,
{
    eval::lemma_push(cards, c);
    if hi > 0 {
        lemma_total_push(cards, c, hi - 1);
    }
}

proof fn lemma_total_empty(hi: int)
    ensures
        total(seq![], hi) == 0,
    decreases hi,
{
    if hi > 0 {
        lemma_total_empty(hi - 1);
    }
}

/// Every card has a rank.
proof fn lemma_total(cards: Seq<u8>)
    requires
        forall|i: int| 0 <= i < cards.len() ==> #[trigger] cards[i] < 52,
    ensures
        total(cards, 13) == cards.len(),
    decreases cards.len(),
{
    if cards.len() == 0 {
        assert(cards =~= seq![]);
        lemma_total_empty(13);
    } else {
        let before = cards.drop_last();
        assert(cards.last() == cards[cards.len() - 1]);
        assert(before.push(cards.last()) =~= cards);
        assert forall|i: int| 0 <= i < before.len() implies #[trigger] before[i] < 52 by {
            assert(before[i] == cards[i]);
        }
        lemma_total(before);
        lemma_total_push(before, cards.last(), 13);
    }
}

/// The cards of a rank beyond the first.
spec fn spare(cards: Seq<u8>, r: int, hi: int) -> int {
    if r < hi && eval::rank_count(cards, r) > 0 {
        eval::rank_count(cards, r) - 1
    } else {
        0
    }
}

/// If only two ranks repeat, the others are as many as the remaining cards.
proof fn lemma_few_repeats(cards: Seq<u8>, a: int, b: int, hi: int)
    requires
        a != b,
        0 <= a,
        0 <= b,
        hi <= 13,
        forall|r: int|
            0 <= r < 13 && r != a && r != b ==> #[trigger] eval::rank_count(cards, r) <= 1,
    ensures
        total(cards, hi) <= ranks::descending(eval::ranks_of(cards), 0, hi).len() + spare(cards, a, hi)
            + spare(cards, b, hi),
    decreases hi,
{
    if hi > 0 {
        lemma_few_repeats(cards, a, b, hi - 1);
        let r = hi - 1;
        assert(eval::ranks_of(cards).contains(r) <==> eval::rank_count(cards, r) > 0);
    }
}

/// Removing a rank leaves all others in the list.
proof fn lemma_others(all: Set<int>, r: int)
    requires
        all.contains(r),
        0 <= r < 13,
    ensures
        ranks::ranks_down(all.remove(r)).len() + 1 == ranks::ranks_down(all).len(),
{
    ranks::lemma_descending_insert(all.remove(r), r, 0, 13);
    assert(all.remove(r).insert(r) =~= all);
}

/// A rank that is not in the list of its count has another count.
proof fn lemma_not_held(cards: Seq<u8>, n: nat)
    requires
        ranks::ranks_down(eval::ranks_held(cards, n)).len() == 0,
    ensures
        forall|r: int| 0 <= r < 13 ==> #[trigger] eval::rank_count(cards, r) != n,
{
    let held = eval::ranks_held(cards, n);
    ranks::lemma_descending(held, 0, 13);
    assert forall|r: int| 0 <= r < 13 implies #[trigger] eval::rank_count(cards, r) != n by {
        if eval::rank_count(cards, r) == n {
            lemma_held(cards, r, n);
        }
    }
}

/// What a hand scores is a hand that it shows.
pub proof fn lemma_score_is_shown(cards: Seq<u8>)
    requires
        is_hand(cards),
    ensures
        shows(cards, hand_category(cards), hand_digits(cards)),
{
    let all = eval::ranks_of(cards);
    let quads = ranks::ranks_down(eval::ranks_held(cards, 4));
    let trips = ranks::ranks_down(eval::ranks_held(cards, 3));
    let pairs = ranks::ranks_down(eval::ranks_held(cards, 2));
    let cat = hand_category(cards);
    let d = hand_digits(cards);
    lemma_score_parts(cards);
    lemma_held_lists(cards, 4);
    lemma_held_lists(cards, 3);
    lemma_held_lists(cards, 2);
    assert forall|r: int| 0 <= r < 13 implies #[trigger] eval::rank_count(cards, r) <= 4 by {
        lemma_rank_count_by_suit(cards, r);
    }
    lemma_total(cards);
    if cat == STRAIGHT_FLUSH || cat == FLUSH {
        let s = eval::flush_suit(cards)->0;
        let suited = eval::suited_ranks(cards, s);
        if cat == STRAIGHT_FLUSH {
            ranks::lemma_best_run(suited, 12);
            assert(ranks::has_run(eval::suited_ranks(cards, s), d[0]));
        } else {
            lemma_top_digits(suited, 5);
            assert(ranks::falls_within(d, eval::suited_ranks(cards, s), 0, 13));
        }
    } else if cat == QUADS {
        let q = quads[0];
        assert(all.contains(q));
        assert forall|r: int| 0 <= r < 13 && r != q && ranks::ranks_down(all).len() == 1 implies
            #[trigger] eval::rank_count(cards, r) <= 1 by {
            if all.contains(r) {
                let two = if r > q { seq![r, q] } else { seq![q, r] };
                ranks::lemma_descending_dominates(all, two, 0, 13);
            }
        }
        ranks::lemma_descending_dominates(all, seq![q], 0, 13);
        if ranks::ranks_down(all).len() == 1 {
            lemma_few_repeats(cards, q, 13, 13);
        }
        lemma_others(all, q);
        lemma_top_digits(all.remove(q), 1);
        assert(d.skip(1) =~= ranks::top(all.remove(q), 1));
    } else if cat == FULL_HOUSE {
    } else if cat == STRAIGHT {
        ranks::lemma_best_run(all, 12);
    } else if cat == TRIPS {
        let t = trips[0];
        lemma_not_held(cards, 4);
        lemma_not_held(cards, 2);
        assert forall|r: int| 0 <= r < 13 && r != t implies #[trigger] eval::rank_count(cards, r)
            <= 1 by {
            if eval::rank_count(cards, r) == 3 {
                lemma_both_held(cards, r, t, 3);
            }
        }
        lemma_few_repeats(cards, t, 13, 13);
        assert(all.contains(t));
        lemma_others(all, t);
        lemma_top_digits(all.remove(t), 2);
        assert(d.skip(1) =~= ranks::top(all.remove(t), 2));
    } else if cat == TWO_PAIR {
        let (p, q) = (pairs[0], pairs[1]);
        lemma_not_held(cards, 4);
        lemma_not_held(cards, 3);
        assert(all.contains(p) && all.contains(q));
        lemma_others(all, p);
        lemma_others(all.remove(p), q);
        let rest = all.remove(p).remove(q);
        ranks::lemma_descending(rest, 0, 13);
        if ranks::ranks_down(rest).len() == 0 {
            assert forall|r: int| 0 <= r < 13 && r != p && r != q implies #[trigger]
                eval::rank_count(cards, r) <= 1 by {
                if rest.contains(r) {
                    assert(ranks::ranks_down(rest).contains(r));
                }
                assert(!all.contains(r));
            }
            lemma_few_repeats(cards, p, q, 13);
        }
        lemma_top_digits(rest, 1);
        assert(d.skip(2) =~= ranks::top(rest, 1));
    } else {
        lemma_not_held(cards, 4);
        lemma_not_held(cards, 3);
        let p = if cat == PAIR {
            pairs[0]
        } else {
            14
        };
        assert forall|r: int| 0 <= r < 13 && r != p implies #[trigger] eval::rank_count(cards, r)
            <= 1 by {
            if eval::rank_count(cards, r) == 2 {
                if cat == PAIR {
                    lemma_both_held(cards, r, p, 2);
                } else {
                    lemma_held(cards, r, 2);
                }
            }
        }
        lemma_few_repeats(cards, p, 13, 13);
        if cat == PAIR {
            assert(all.contains(p));
            lemma_others(all, p);
            lemma_top_digits(all.remove(p), 3);
            assert(d.skip(1) =~= ranks::top(all.remove(p), 3));
        } else {
            lemma_top_digits(all, 5);
        }
    }
}

/// A hand scores the strongest of the hands it shows.
pub proof fn law_score_is_the_strongest_hand_shown(cards: Seq<u8>)
    requires
        is_hand(cards),
    ensures
        exists|cat: u32, d: Seq<int>|
            #[trigger] shows(cards, cat, d) && eval::hand_score(cards) == eval::packed(cat, d),
        forall|cat: u32, d: Seq<int>| #[trigger]
            shows(cards, cat, d) ==> eval::packed(cat, d) <= eval::hand_score(cards),
{
    lemma_score_parts(cards);
    lemma_score_is_shown(cards);
    assert forall|cat: u32, d: Seq<int>| #[trigger] shows(cards, cat, d) implies eval::packed(cat, d)
        <= eval::hand_score(cards) by {
        lemma_shown_is_no_stronger(cards, cat, d);
    }
}

// ---- The best five ----

/// `five` is five of the cards.
pub open spec fn is_five_of(five: Seq<u8>, cards: Seq<u8>) -> bool {
    &&& five.len() == 5
    &&& five.no_duplicates()
    &&& forall|i: int| 0 <= i < five.len() ==> cards.contains(#[trigger] five[i])
}

/// Part of the cards.
spec fn is_part_of(part: Seq<u8>, cards: Seq<u8>) -> bool {
    &&& part.no_duplicates()
    &&& forall|i: int| 0 <= i < part.len() ==> cards.contains(#[trigger] part[i])
}

proof fn lemma_part(part: Seq<u8>, cards: Seq<u8>)
    requires
        are_cards(cards),
        is_part_of(part, cards),
    ensures
        are_cards(part),
        forall|x: u8| part.contains(x) ==> cards.contains(x),
        forall|r: int|
            0 <= r < 13 ==> #[trigger] eval::rank_count(part, r) <= eval::rank_count(cards, r),
        eval::ranks_of(part).subset_of(eval::ranks_of(cards)),
        forall|s: int|
            #[trigger] eval::suited_ranks(part, s).subset_of(eval::suited_ranks(cards, s)),
{
    assert forall|i: int| 0 <= i < part.len() implies #[trigger] part[i] < 52 by {
        let j = cards.index_of(part[i]);
        assert(cards[j] < 52);
    }
    assert forall|r: int| 0 <= r < 13 implies #[trigger] eval::rank_count(part, r)
        <= eval::rank_count(cards, r) by {
        lemma_rank_count_by_suit(part, r);
        lemma_rank_count_by_suit(cards, r);
    }
}

proof fn lemma_falls_within_more(list: Seq<int>, s: Set<int>, t: Set<int>)
    requires
        ranks::falls_within(list, s, 0, 13),
        s.subset_of(t),
    ensures
        ranks::falls_within(list, t, 0, 13),
{
}

/// What part of the cards shows, all of them show.
proof fn lemma_shown_by_part(part: Seq<u8>, cards: Seq<u8>, cat: u32, d: Seq<int>)
    requires
        are_cards(cards),
        is_part_of(part, cards),
        shows(part, cat, d),
    ensures
        shows(cards, cat, d),
{
    lemma_part(part, cards);
    let few = eval::ranks_of(part);
    let all = eval::ranks_of(cards);
    if cat == STRAIGHT_FLUSH {
        let s = choose|s: int|
            0 <= s < 4 && ranks::has_run(#[trigger] eval::suited_ranks(part, s), d[0]);
        assert(eval::suited_ranks(part, s).subset_of(eval::suited_ranks(cards, s)));
        assert(ranks::has_run(eval::suited_ranks(cards, s), d[0]));
    } else if cat == FLUSH {
        let s = choose|s: int|
            0 <= s < 4 && ranks::falls_within(d, #[trigger] eval::suited_ranks(part, s), 0, 13);
        assert(eval::suited_ranks(part, s).subset_of(eval::suited_ranks(cards, s)));
        assert(ranks::falls_within(d, eval::suited_ranks(cards, s), 0, 13));
    } else if cat == QUADS || cat == TRIPS || cat == PAIR {
        lemma_falls_within_more(d.skip(1), few.remove(d[0]), all.remove(d[0]));
    } else if cat == TWO_PAIR {
        lemma_falls_within_more(
            d.skip(2),
            few.remove(d[0]).remove(d[1]),
            all.remove(d[0]).remove(d[1]),
        );
    }
}

/// The cards of rank `r`, by suit, among those of the first `n` suits.
spec fn of_rank(cards: Seq<u8>, r: int, n: int) -> Seq<u8>
    decreases n,
{
    if n <= 0 {
        seq![]
    } else if cards.contains(card::code(r, n - 1)) {
        of_rank(cards, r, n - 1).push(card::code(r, n - 1))
    } else {
        of_rank(cards, r, n - 1)
    }
}

proof fn lemma_of_rank(cards: Seq<u8>, r: int, n: int)
    requires
        are_cards(cards),
        0 <= r < 13,
        0 <= n <= 4,
    ensures
        is_part_of(of_rank(cards, r, n), cards),
        forall|i: int|
            0 <= i < of_rank(cards, r, n).len() ==> (#[trigger] of_rank(cards, r, n)[i]) as int / 4 == r
                && of_rank(cards, r, n)[i] as int % 4 < n,
        n == 4 ==> of_rank(cards, r, n).len() == eval::rank_count(cards, r),
    decreases n,
{
    if n > 0 {
        lemma_of_rank(cards, r, n - 1);
    }
    if n == 4 {
        lemma_rank_count_by_suit(cards, r);
        reveal_with_fuel(of_rank, 5);
    }
}

/// `counts[i]` cards of rank `which[i]`, for each `i`.
spec fn gather(cards: Seq<u8>, which: Seq<int>, counts: Seq<int>) -> Seq<u8>
    decreases which.len(),
{
    if which.len() == 0 {
        seq![]
    } else {
        gather(cards, which.drop_last(), counts.drop_last()) + of_rank(cards, which.last(), 4).take(
            counts.last(),
        )
    }
}

spec fn sum(counts: Seq<int>) -> int
    decreases counts.len(),
{
    if counts.len() == 0 {
        0
    } else {
        sum(counts.drop_last()) + counts.last()
    }
}

/// All of the cards have rank `r`.
proof fn lemma_rank_count_uniform(cards: Seq<u8>, r: int, q: int)
    requires
        forall|i: int| 0 <= i < cards.len() ==> (#[trigger] cards[i]) as int / 4 == r,
    ensures
        eval::rank_count(cards, q) == if q == r {
            cards.len()
        } else {
            0
        },
    decreases cards.len(),
{
    if cards.len() > 0 {
        let before = cards.drop_last();
        assert forall|i: int| 0 <= i < before.len() implies (#[trigger] before[i]) as int / 4 == r by {
            assert(before[i] == cards[i]);
        }
        assert(cards.last() == cards[cards.len() - 1]);
        lemma_rank_count_uniform(before, r, q);
    }
}

proof fn lemma_rank_count_add(a: Seq<u8>, b: Seq<u8>, r: int)
    ensures
        eval::rank_count(a + b, r) == eval::rank_count(a, r) + eval::rank_count(b, r),
    decreases b.len(),
{
    if b.len() == 0 {
        assert(a + b =~= a);
    } else {
        lemma_rank_count_add(a, b.drop_last(), r);
        assert((a + b).drop_last() =~= a + b.drop_last());
    }
}

/// Distinct ranks, each with at least as many cards as asked for, can be
/// gathered.
proof fn lemma_gather(cards: Seq<u8>, which: Seq<int>, counts: Seq<int>)
    requires
        are_cards(cards),
        which.len() == counts.len(),
        which.no_duplicates(),
        forall|i: int|
            0 <= i < which.len() ==> 0 <= #[trigger] counts[i] && at_least(cards, which[i], counts[i]),
    ensures
        ({
            let g = gather(cards, which, counts);
            &&& is_part_of(g, cards)
            &&& g.len() == sum(counts)
            &&& forall|i: int|
                0 <= i < g.len() ==> exists|j: int|
                    0 <= j < which.len() && (#[trigger] g[i]) as int / 4 == #[trigger] which[j]
            &&& forall|j: int|
                0 <= j < which.len() ==> eval::rank_count(g, #[trigger] which[j]) == counts[j]
            &&& forall|r: int| !which.contains(r) ==> #[trigger] eval::rank_count(g, r) == 0
        }),
    decreases which.len(),
{
    let g = gather(cards, which, counts);
    if which.len() > 0 {
        let (w, c) = (which.drop_last(), counts.drop_last());
        let (r, n) = (which.last(), counts.last());
        assert forall|i: int| 0 <= i < w.len() implies 0 <= #[trigger] c[i] && at_least(
            cards,
            w[i],
            c[i],
        ) by {
            assert(c[i] == counts[i] && w[i] == which[i]);
        }
        assert(n == counts[which.len() - 1] && r == which[which.len() - 1]);
        lemma_gather(cards, w, c);
        let before = gather(cards, w, c);
        let own = of_rank(cards, r, 4);
        let part = own.take(n);
        lemma_of_rank(cards, r, 4);
        assert forall|i: int| 0 <= i < part.len() implies (#[trigger] part[i]) as int / 4 == r by {
            assert(part[i] == own[i]);
        }
        assert(is_part_of(part, cards)) by {
            assert forall|i: int| 0 <= i < part.len() implies cards.contains(#[trigger] part[i]) by {
                assert(part[i] == own[i]);
            }
        }
        assert(!w.contains(r)) by {
            if w.contains(r) {
                let j = w.index_of(r);
                assert(which[j] == which[which.len() - 1]);
            }
        }
        assert forall|i: int| 0 <= i < before.len() implies (#[trigger] before[i]) as int / 4 != r by {
            let j = choose|j: int|
                0 <= j < w.len() && (#[trigger] before[i]) as int / 4 == #[trigger] w[j];
            assert(w.contains(w[j]));
        }
        assert(g == before + part);
        assert(g.no_duplicates()) by {
            assert forall|i: int, j: int| 0 <= i < j < g.len() implies g[i] != g[j] by {
                if i < before.len() && j >= before.len() {
                    assert(g[i] == before[i]);
                    assert(g[j] == part[j - before.len()]);
                    assert(before[i] as int / 4 != r);
                } else if i >= before.len() {
                    assert(g[i] == part[i - before.len()]);
                    assert(g[j] == part[j - before.len()]);
                } else {
                    assert(g[i] == before[i] && g[j] == before[j]);
                }
            }
        }
        assert forall|i: int| 0 <= i < g.len() implies cards.contains(#[trigger] g[i]) by {
            if i < before.len() {
                assert(g[i] == before[i]);
            } else {
                assert(g[i] == part[i - before.len()]);
            }
        }
        assert forall|i: int| 0 <= i < g.len() implies exists|j: int|
            0 <= j < which.len() && (#[trigger] g[i]) as int / 4 == #[trigger] which[j] by {
            if i < before.len() {
                assert(g[i] == before[i]);
                let j = choose|j: int|
                    0 <= j < w.len() && (#[trigger] before[i]) as int / 4 == #[trigger] w[j];
                assert(which[j] == w[j]);
            } else {
                assert(g[i] == part[i - before.len()]);
                assert(which[which.len() - 1] == r);
            }
        }
        assert forall|q: int| #[trigger] eval::rank_count(g, q) == eval::rank_count(before, q) + if q
            == r {
            n
        } else {
            0
        } by {
            lemma_rank_count_add(before, part, q);
            lemma_rank_count_uniform(part, r, q);
        }
        assert forall|j: int| 0 <= j < which.len() implies eval::rank_count(g, #[trigger] which[j])
            == counts[j] by {
            if j < w.len() {
                assert(which[j] == w[j]);
                assert(w.contains(w[j]));
                assert(eval::rank_count(before, w[j]) == c[j]);
            } else {
                assert(eval::rank_count(before, r) == 0);
            }
        }
        assert forall|q: int| !which.contains(q) implies #[trigger] eval::rank_count(g, q) == 0 by {
            assert(!w.contains(q)) by {
                if w.contains(q) {
                    let j = w.index_of(q);
                    assert(which[j] == q);
                }
            }
            assert(which[which.len() - 1] == r);
        }
    }
}

/// Cards of one suit, by rank.
proof fn lemma_suited_five(cards: Seq<u8>, s: int, list: Seq<int>)
    requires
        are_cards(cards),
        0 <= s < 4,
        list.len() == 5,
        ranks::falls_within(list, eval::suited_ranks(cards, s), 0, 13),
    ensures
        ({
            let five = list.map_values(|r: int| card::code(r, s));
            &&& is_five_of(five, cards)
            &&& ranks::falls_within(list, eval::suited_ranks(five, s), 0, 13)
        }),
{
    let five = list.map_values(|r: int| card::code(r, s));
    assert forall|i: int| 0 <= i < 5 implies cards.contains(#[trigger] five[i]) && five[i] == 4
        * list[i] + s by {
        assert(eval::suited_ranks(cards, s).contains(list[i]));
    }
    assert forall|i: int, j: int| 0 <= i < j < 5 implies five[i] != five[j] by {
        assert(list[i] > list[j]);
    }
    assert forall|i: int| 0 <= i < 5 implies eval::suited_ranks(five, s).contains(#[trigger] list[i]) by {
        assert(five[i] == card::code(list[i], s));
    }
}

/// How many cards of each rank make the hand.
spec fn parts(cat: u32) -> Seq<int> {
    if cat == QUADS {
        seq![4, 1]
    } else if cat == FULL_HOUSE {
        seq![3, 2]
    } else if cat == TRIPS {
        seq![3, 1, 1]
    } else if cat == TWO_PAIR {
        seq![2, 2, 1]
    } else if cat == PAIR {
        seq![2, 1, 1, 1]
    } else {
        seq![1, 1, 1, 1, 1]
    }
}

proof fn lemma_parts(cat: u32)
    ensures
        sum(parts(cat)) == 5,
{
    reveal_with_fuel(sum, 6);
    let p = parts(cat);
    if cat == QUADS || cat == FULL_HOUSE {
        assert(p.drop_last() =~= seq![p[0]]);
        assert(seq![p[0]].drop_last() =~= seq![]);
    } else if cat == TRIPS || cat == TWO_PAIR {
        assert(p.drop_last() =~= seq![p[0], p[1]]);
        assert(seq![p[0], p[1]].drop_last() =~= seq![p[0]]);
        assert(seq![p[0]].drop_last() =~= seq![]);
    } else if cat == PAIR {
        assert(p.drop_last() =~= seq![p[0], p[1], p[2]]);
        assert(seq![p[0], p[1], p[2]].drop_last() =~= seq![p[0], p[1]]);
        assert(seq![p[0], p[1]].drop_last() =~= seq![p[0]]);
        assert(seq![p[0]].drop_last() =~= seq![]);
    } else {
        assert(p.drop_last() =~= seq![p[0], p[1], p[2], p[3]]);
        assert(seq![p[0], p[1], p[2], p[3]].drop_last() =~= seq![p[0], p[1], p[2]]);
        assert(seq![p[0], p[1], p[2]].drop_last() =~= seq![p[0], p[1]]);
        assert(seq![p[0], p[1]].drop_last() =~= seq![p[0]]);
        assert(seq![p[0]].drop_last() =~= seq![]);
    }
}

/// The ranks of the cards that make a hand without a flush.
spec fn hand_ranks(cat: u32, d: Seq<int>) -> Seq<int> {
    if cat == STRAIGHT {
        run_list(d[0])
    } else {
        d
    }
}

proof fn lemma_hand_ranks(cards: Seq<u8>, cat: u32, d: Seq<int>)
    requires
        shows(cards, cat, d),
        cat != STRAIGHT_FLUSH,
        cat != FLUSH,
    ensures
        hand_ranks(cat, d).len() == parts(cat).len(),
        hand_ranks(cat, d).no_duplicates(),
        forall|i: int|
            0 <= i < parts(cat).len() ==> 0 <= #[trigger] parts(cat)[i] && at_least(
                cards,
                hand_ranks(cat, d)[i],
                parts(cat)[i],
            ),
{
    let w = hand_ranks(cat, d);
    let all = eval::ranks_of(cards);
    if cat == QUADS || cat == TRIPS || cat == PAIR {
        let rest = d.skip(1);
        assert forall|i: int| 1 <= i < d.len() implies all.contains(#[trigger] d[i]) && d[i] != d[0] by {
            assert(d[i] == rest[i - 1]);
        }
        assert forall|i: int, j: int| 0 <= i < j < d.len() implies d[i] != d[j] by {
            if i > 0 {
                assert(d[i] == rest[i - 1] && d[j] == rest[j - 1]);
            }
        }
    } else if cat == TWO_PAIR {
        assert(d[2] == d.skip(2)[0]);
        assert(all.contains(d[2]));
    } else if cat == STRAIGHT {
        lemma_run_list(all, d[0]);
        assert forall|i: int| 0 <= i < 5 implies all.contains(#[trigger] w[i]) by {}
    } else if cat == HIGH_CARD {
        assert forall|i: int| 0 <= i < 5 implies all.contains(#[trigger] w[i]) by {}
    }
}

/// Five cards of the right ranks show the hand.
proof fn lemma_gathered_hand(cards: Seq<u8>, cat: u32, d: Seq<int>)
    requires
        are_cards(cards),
        shows(cards, cat, d),
        cat != STRAIGHT_FLUSH,
        cat != FLUSH,
    ensures
        is_five_of(gather(cards, hand_ranks(cat, d), parts(cat)), cards),
        shows(gather(cards, hand_ranks(cat, d), parts(cat)), cat, d),
{
    let w = hand_ranks(cat, d);
    let g = gather(cards, w, parts(cat));
    lemma_hand_ranks(cards, cat, d);
    lemma_gather(cards, w, parts(cat));
    lemma_parts(cat);
    let own = eval::ranks_of(g);
    lemma_shown_digits(cards, cat, d);
    assert forall|i: int| 0 <= i < w.len() implies own.contains(#[trigger] w[i]) by {
        assert(eval::rank_count(g, w[i]) == parts(cat)[i]);
        assert(at_least(cards, w[i], parts(cat)[i]));
    }
    if cat == QUADS || cat == TRIPS || cat == PAIR {
        let rest = d.skip(1);
        assert(eval::rank_count(g, w[0]) == parts(cat)[0]);
        assert forall|i: int| 0 <= i < rest.len() implies own.remove(d[0]).contains(
            #[trigger] rest[i],
        ) by {
            assert(rest[i] == w[i + 1]);
        }
    } else if cat == FULL_HOUSE {
        assert(eval::rank_count(g, w[0]) == parts(cat)[0]);
        assert(eval::rank_count(g, w[1]) == parts(cat)[1]);
    } else if cat == TWO_PAIR {
        assert(eval::rank_count(g, w[0]) == parts(cat)[0]);
        assert(eval::rank_count(g, w[1]) == parts(cat)[1]);
        let rest = d.skip(2);
        assert(rest[0] == w[2]);
    } else if cat == STRAIGHT {
        assert(own.contains(w[0]) && own.contains(w[1]) && own.contains(w[2]) && own.contains(w[3])
            && own.contains(w[4]));
    }
}

/// Five of the cards show what all of them show.
proof fn lemma_five_show(cards: Seq<u8>, cat: u32, d: Seq<int>) -> (five: Seq<u8>)
    requires
        are_cards(cards),
        shows(cards, cat, d),
    ensures
        is_five_of(five, cards),
        shows(five, cat, d),
{
    if cat == STRAIGHT_FLUSH {
        let s = choose|s: int|
            0 <= s < 4 && ranks::has_run(#[trigger] eval::suited_ranks(cards, s), d[0]);
        let list = run_list(d[0]);
        lemma_run_list(eval::suited_ranks(cards, s), d[0]);
        lemma_suited_five(cards, s, list);
        let five = list.map_values(|r: int| card::code(r, s));
        let own = eval::suited_ranks(five, s);
        assert(own.contains(list[0]) && own.contains(list[1]) && own.contains(list[2])
            && own.contains(list[3]) && own.contains(list[4]));
        assert(ranks::has_run(eval::suited_ranks(five, s), d[0]));
        five
    } else if cat == FLUSH {
        let s = choose|s: int|
            0 <= s < 4 && ranks::falls_within(d, #[trigger] eval::suited_ranks(cards, s), 0, 13);
        lemma_suited_five(cards, s, d);
        d.map_values(|r: int| card::code(r, s))
    } else {
        lemma_gathered_hand(cards, cat, d);
        gather(cards, hand_ranks(cat, d), parts(cat))
    }
}

/// The score of six or seven cards is the score of the best five among them:
/// some five score as much, and no five score more.
pub proof fn law_score_is_that_of_the_best_five(cards: Seq<u8>)
    requires
        is_hand(cards),
    ensures
        exists|five: Seq<u8>| #[trigger]
            is_five_of(five, cards) && eval::hand_score(five) == eval::hand_score(cards),
        forall|five: Seq<u8>| #[trigger]
            is_five_of(five, cards) ==> eval::hand_score(five) <= eval::hand_score(cards),
{
    assert forall|five: Seq<u8>| #[trigger] is_five_of(five, cards) implies eval::hand_score(five)
        <= eval::hand_score(cards) by {
        lemma_part(five, cards);
        lemma_score_parts(five);
        lemma_score_is_shown(five);
        lemma_shown_by_part(five, cards, hand_category(five), hand_digits(five));
        lemma_shown_is_no_stronger(cards, hand_category(five), hand_digits(five));
    }
    lemma_score_parts(cards);
    lemma_score_is_shown(cards);
    let five = lemma_five_show(cards, hand_category(cards), hand_digits(cards));
    lemma_part(five, cards);
    lemma_shown_is_no_stronger(five, hand_category(cards), hand_digits(cards));
    assert(is_five_of(five, cards));
}

// ---- What does not matter ----

/// Neither the order of the cards matters nor anything but which cards they are.
pub proof fn law_order_does_not_matter(cards: Seq<u8>, other: Seq<u8>)
    requires
        cards.to_multiset() == other.to_multiset(),
        forall|i: int| 0 <= i < cards.len() ==> #[trigger] cards[i] < 52,
        forall|i: int| 0 <= i < other.len() ==> #[trigger] other[i] < 52,
    ensures
        eval::hand_score(cards) == eval::hand_score(other),
{
    cards.to_multiset_ensures();
    other.to_multiset_ensures();
    assert forall|x: u8| cards.contains(x) == other.contains(x) by {
        assert(cards.contains(x) <==> cards.to_multiset().count(x) > 0);
        assert(other.contains(x) <==> other.to_multiset().count(x) > 0);
    }
    assert forall|r: int| #[trigger] eval::rank_count(cards, r) == eval::rank_count(other, r) by {
        lemma_rank_count_multiset(cards, r);
        lemma_rank_count_multiset(other, r);
    }
    lemma_same_counts(cards, other);
    assert forall|s: int| #[trigger] eval::suited_ranks(cards, s) == eval::suited_ranks(other, s) by {
        assert(eval::suited_ranks(cards, s) =~= eval::suited_ranks(other, s));
    }
}

pub proof fn lemma_same_counts(cards: Seq<u8>, other: Seq<u8>)
    requires
        forall|r: int| #[trigger] eval::rank_count(cards, r) == eval::rank_count(other, r),
    ensures
        eval::rank_score(cards) == eval::rank_score(other),
{
    assert(eval::ranks_of(cards) =~= eval::ranks_of(other));
    assert(eval::ranks_held(cards, 4) =~= eval::ranks_held(other, 4));
    assert(eval::ranks_held(cards, 3) =~= eval::ranks_held(other, 3));
    assert(eval::ranks_held(cards, 2) =~= eval::ranks_held(other, 2));
}

/// The cards of a rank, counted suit by suit.
proof fn lemma_rank_count_multiset(cards: Seq<u8>, r: int)
    requires
        forall|i: int| 0 <= i < cards.len() ==> #[trigger] cards[i] < 52,
    ensures
        0 <= r < 13 ==> eval::rank_count(cards, r) == cards.to_multiset().count(card::code(r, 0))
            + cards.to_multiset().count(card::code(r, 1)) + cards.to_multiset().count(
            card::code(r, 2),
        ) + cards.to_multiset().count(card::code(r, 3)),
        !(0 <= r < 13) ==> eval::rank_count(cards, r) == 0,
    decreases cards.len(),
{
    cards.to_multiset_ensures();
    if cards.len() == 0 {
        assert(cards.to_multiset().len() == 0);
    } else {
        let before = cards.drop_last();
        let c = cards.last();
        assert(c == cards[cards.len() - 1]);
        assert(before.push(c) =~= cards);
        assert forall|i: int| 0 <= i < before.len() implies #[trigger] before[i] < 52 by {
            assert(before[i] == cards[i]);
        }
        lemma_rank_count_multiset(before, r);
        before.to_multiset_ensures();
        assert(cards.to_multiset() =~= before.to_multiset().insert(c));
        assert(card::code(c as int / 4, c as int % 4) == c);
    }
}

/// The card with its suit renamed.
pub open spec fn renamed(c: u8, suit: spec_fn(int) -> int) -> u8 {
    card::code(c as int / 4, suit(c as int % 4))
}

/// Suits never break ties: renaming the suits leaves every score as it is.
pub proof fn law_suits_never_break_ties(cards: Seq<u8>, suit: spec_fn(int) -> int)
    requires
        cards.len() <= 7,
        forall|i: int| 0 <= i < cards.len() ==> #[trigger] cards[i] < 52,
        forall|s: int| 0 <= s < 4 ==> 0 <= #[trigger] suit(s) < 4,
        forall|s: int, t: int| 0 <= s < t < 4 ==> #[trigger] suit(s) != #[trigger] suit(t),
    ensures
        eval::hand_score(cards.map_values(|c: u8| renamed(c, suit))) == eval::hand_score(cards),
{
    let other = cards.map_values(|c: u8| renamed(c, suit));
    assert forall|i: int| 0 <= i < other.len() implies #[trigger] other[i] < 52 && other[i] as int / 4
        == cards[i] as int / 4 && other[i] as int % 4 == suit(cards[i] as int % 4) by {
        assert(cards[i] < 52);
        assert(0 <= suit(cards[i] as int % 4) < 4);
    }
    assert forall|r: int| #[trigger] eval::rank_count(cards, r) == eval::rank_count(other, r) by {
        lemma_rank_count_renamed(cards, other, r);
    }
    lemma_same_counts(cards, other);
    assert forall|s: int| 0 <= s < 4 implies eval::suited_ranks(other, suit(s))
        == #[trigger] eval::suited_ranks(cards, s) by {
        assert forall|r: int| 0 <= r < 13 implies other.contains(#[trigger] card::code(r, suit(s)))
            == cards.contains(card::code(r, s)) by {
            if cards.contains(card::code(r, s)) {
                let i = cards.index_of(card::code(r, s));
                assert(other[i] == card::code(r, suit(s)));
            }
            if other.contains(card::code(r, suit(s))) {
                let i = other.index_of(card::code(r, suit(s)));
                let t = cards[i] as int % 4;
                assert(suit(t) == suit(s));
                assert(t == s) by {
                    if t < s {
                        assert(suit(t) != suit(s));
                    } else if t > s {
                        assert(suit(s) != suit(t));
                    }
                }
                assert(cards[i] == card::code(r, s));
            }
        }
        assert(eval::suited_ranks(other, suit(s)) =~= eval::suited_ranks(cards, s));
    }
    assert forall|s: int| 0 <= s < 4 implies #[trigger] eval::has_flush(cards, s) == eval::has_flush(
        other,
        suit(s),
    ) by {
        assert(eval::suited_ranks(other, suit(s)) == eval::suited_ranks(cards, s));
    }
    if let Some(s) = eval::flush_suit(cards) {
        assert(eval::has_flush(other, suit(s)));
        law_flush_rules_out_quads_and_full_houses(other, suit(s));
        assert(eval::flush_suit(other) == Some(suit(s)));
        assert(eval::suited_ranks(other, suit(s)) == eval::suited_ranks(cards, s));
    } else {
        assert(!eval::has_flush(cards, 0) && !eval::has_flush(cards, 1) && !eval::has_flush(cards, 2)
            && !eval::has_flush(cards, 3));
        if let Some(t) = eval::flush_suit(other) {
            assert(suit(0) == t || suit(1) == t || suit(2) == t || suit(3) == t) by {
                assert(suit(0) != suit(1) && suit(0) != suit(2) && suit(0) != suit(3));
                assert(suit(1) != suit(2) && suit(1) != suit(3) && suit(2) != suit(3));
            }
        }
    }
}

proof fn lemma_rank_count_renamed(cards: Seq<u8>, other: Seq<u8>, r: int)
    requires
        cards.len() == other.len(),
        forall|i: int| 0 <= i < other.len() ==> (#[trigger] other[i]) as int / 4 == cards[i] as int / 4,
    ensures
        eval::rank_count(cards, r) == eval::rank_count(other, r),
    decreases cards.len(),
{
    if cards.len() > 0 {
        let (a, b) = (cards.drop_last(), other.drop_last());
        assert forall|i: int| 0 <= i < b.len() implies (#[trigger] b[i]) as int / 4 == a[i] as int
            / 4 by {
            assert(b[i] == other[i] && a[i] == cards[i]);
        }
        lemma_rank_count_renamed(a, b, r);
        assert(other[other.len() - 1] as int / 4 == cards[cards.len() - 1] as int / 4);
    }
}

} // verus!
