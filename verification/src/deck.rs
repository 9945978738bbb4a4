//! A seeded 52-card deck.
//!
//! Solver runs and variance-reduction work both depend on being able to replay
//! an exact sequence of hands, so the seed is always explicit.

use vstd::prelude::*;

use crate::rng;
pub use crate::rng::Rng;

verus! {

/// A deck: its cards in order, how many have left, and its generator's state.
#[verifier::ext_equal]
pub struct DeckState {
    pub cards: Seq<u8>,
    pub dealt: int,
    pub rng: rng::State,
}

impl DeckState {
    /// Fifty-two cards, each once, some of them dealt.
    pub open spec fn wf(self) -> bool {
        &&& is_pack(self.cards)
        &&& 0 <= self.dealt <= 52
    }

    /// The cards still to come.
    pub open spec fn undealt(self) -> Seq<u8> {
        self.cards.skip(self.dealt)
    }
}

/// Fifty-two different cards.
pub open spec fn is_pack(cards: Seq<u8>) -> bool {
    &&& cards.len() == 52
    &&& cards.no_duplicates()
    &&& forall|i: int| 0 <= i < 52 ==> #[trigger] cards[i] < 52
}

/// The cards with those in two places exchanged.
pub open spec fn swapped(cards: Seq<u8>, i: int, j: int) -> Seq<u8> {
    cards.update(i, cards[j]).update(j, cards[i])
}

/// A fresh deck: the cards in order, none dealt.
pub open spec fn fresh_deck(seed: u64) -> DeckState {
    DeckState { cards: Seq::new(52, |i: int| i as u8), dealt: 0, rng: rng::seeded(seed) }
}

/// Fisher-Yates from place `i` down: each place gets a card drawn from those up
/// to it.
pub open spec fn shuffled_from(cards: Seq<u8>, s: rng::State, i: int) -> (Seq<u8>, rng::State)
    decreases i,
{
    if i <= 0 {
        (cards, s)
    } else {
        let (j, t) = rng::draw(s, (i + 1) as u64);
        shuffled_from(swapped(cards, i, j as int), t, i - 1)
    }
}

/// The deck shuffled whole, none of it dealt.
pub open spec fn shuffled(d: DeckState) -> DeckState {
    let (cards, s) = shuffled_from(d.cards, d.rng, 51);
    DeckState { cards, dealt: 0, rng: s }
}

/// The deck after `n` more cards were dealt.
pub open spec fn dealt(d: DeckState, n: int) -> DeckState {
    DeckState { dealt: d.dealt + n, ..d }
}

/// The deck with card `c` taken out of the undealt part, if it was there: it
/// changes places with the next card, which counts as dealt.
pub open spec fn without_card(d: DeckState, c: u8) -> DeckState {
    if d.undealt().contains(c) {
        DeckState {
            cards: swapped(d.cards, d.dealt, d.cards.index_of(c)),
            dealt: d.dealt + 1,
            ..d
        }
    } else {
        d
    }
}

/// The deck with the cards taken out, one after the other.
pub open spec fn without_cards(d: DeckState, cards: Seq<u8>) -> DeckState
    decreases cards.len(),
{
    if cards.len() == 0 {
        d
    } else {
        without_card(without_cards(d, cards.drop_last()), cards.last())
    }
}

pub struct Deck {
    cards: [u8; 52],
    dealt: usize,
    rng: Rng,
}

impl View for Deck {
    type V = DeckState;

    closed spec fn view(&self) -> DeckState {
        DeckState { cards: self.cards@, dealt: self.dealt as int, rng: self.rng@ }
    }
}

impl Deck {
    pub fn new(seed: u64) -> (deck: Deck)
        ensures
            deck@ == fresh_deck(seed),
            deck@.wf(),
    {
        let mut cards: [u8; 52] = [0; 52];
        for i in 0..52
            invariant
                forall|j: int| 0 <= j < i ==> #[trigger] cards[j] == j,
        {
            cards[i] = i as u8;
        }
        let deck = Deck { cards, dealt: 0, rng: Rng::new(seed) };
        assert(deck@.cards =~= fresh_deck(seed).cards);
        deck
    }

    /// Fisher-Yates, and reset the deal pointer.
    pub fn shuffle(&mut self)
        requires
            old(self)@.wf(),
        ensures
            final(self)@ == shuffled(old(self)@),
            final(self)@.wf(),
    {
        let mut i: usize = 51;
        while i > 0
            invariant
                i <= 51,
                is_pack(self.cards@),
                shuffled_from(self.cards@, self.rng@, i as int) == shuffled_from(
                    old(self)@.cards,
                    old(self)@.rng,
                    51,
                ),
            decreases i,
        {
            let j: usize = self.rng.below(i as u64 + 1) as usize;
            let ghost before = self.cards@;
            let x: u8 = self.cards[i];
            self.cards[i] = self.cards[j];
            self.cards[j] = x;
            proof {
                assert(self.cards@ =~= swapped(before, i as int, j as int));
                lemma_swapped(before, i as int, j as int);
            }
            i -= 1;
        }
        self.dealt = 0;
    }

    pub fn deal(&mut self, n: usize) -> (cards: &[u8])
        requires
            old(self)@.wf(),
            old(self)@.dealt + n <= 52,
        ensures
            cards@ == old(self)@.undealt().take(n as int),
            final(self)@ == dealt(old(self)@, n as int),
            final(self)@.wf(),
    {
        let start: usize = self.dealt;
        self.dealt = self.dealt + n;
        &self.cards[start..self.dealt]
    }

    pub fn deal_one(&mut self) -> (c: u8)
        requires
            old(self)@.wf(),
            old(self)@.dealt < 52,
        ensures
            c == old(self)@.undealt()[0],
            c < 52,
            final(self)@ == dealt(old(self)@, 1),
            final(self)@.wf(),
    {
        self.deal(1)[0]
    }

    pub fn remaining(&self) -> (n: usize)
        requires
            self@.wf(),
        ensures
            n == 52 - self@.dealt,
            n == self@.undealt().len(),
    {
        52 - self.dealt
    }

    /// Remove specific cards from the undealt portion: used when a hand is
    /// partially specified (known hole cards, a fixed board) and the rest
    /// still needs to run out randomly.
    pub fn remove(&mut self, cards: &[u8])
        requires
            old(self)@.wf(),
        ensures
            final(self)@ == without_cards(old(self)@, cards@),
            final(self)@.wf(),
    {
        for k in 0..cards.len()
            invariant
                self@ == without_cards(old(self)@, cards@.take(k as int)),
                self@.wf(),
        {
            let c: u8 = cards[k];
            proof {
                assert(cards@.take(k + 1).drop_last() =~= cards@.take(k as int));
            }
            self.remove_card(c);
        }
        assert(cards@.take(cards@.len() as int) =~= cards@);
    }

    fn remove_card(&mut self, c: u8)
        requires
            old(self)@.wf(),
        ensures
            final(self)@ == without_card(old(self)@, c),
            final(self)@.wf(),
    {
        let ghost was = self@;
        let start: usize = self.dealt;
        for i in start..52
            invariant
                start == was.dealt,
                self@ == was,
                was == old(self)@,
                was.wf(),
                forall|j: int| start <= j < i ==> #[trigger] self.cards[j] != c,
        {
            if self.cards[i] == c {
                proof {
                    assert(was.undealt()[i - was.dealt] == c);
                    assert(was.cards.index_of(c) == i);
                    lemma_swapped(was.cards, was.dealt, i as int);
                }
                self.cards[i] = self.cards[self.dealt];
                self.cards[self.dealt] = c;
                self.dealt = self.dealt + 1;
                assert(self@.cards =~= swapped(was.cards, was.dealt, i as int));
                return;
            }
        }
        proof {
            if was.undealt().contains(c) {
                let j = was.undealt().index_of(c);
                assert(self.cards[j + was.dealt] == c);
            }
        }
    }
}

proof fn lemma_swapped(cards: Seq<u8>, i: int, j: int)
    requires
        is_pack(cards),
        0 <= i < 52,
        0 <= j < 52,
    ensures
        is_pack(swapped(cards, i, j)),
{
}

/// Every card is in the pack.
pub proof fn law_pack_has_every_card(cards: Seq<u8>, c: u8)
    requires
        is_pack(cards),
        c < 52,
    ensures
        cards.contains(c),
{
    let numbers = cards.map_values(|x: u8| x as int);
    assert forall|i: int, j: int| 0 <= i < j < numbers.len() implies numbers[i] != numbers[j] by {
        assert(cards[i] != cards[j]);
    }
    numbers.unique_seq_to_set();
    let all = vstd::set_lib::set_int_range(0, 52);
    vstd::set_lib::lemma_int_range(0, 52);
    assert(numbers.to_set().subset_of(all)) by {
        assert forall|x: int| numbers.to_set().contains(x) implies all.contains(x) by {
            let i = numbers.index_of(x);
            assert(numbers[i] == x && cards[i] < 52);
        }
    }
    vstd::set_lib::lemma_subset_equality(numbers.to_set(), all);
    assert(all.contains(c as int));
    let i = numbers.index_of(c as int);
    assert(cards[i] == c);
}

proof fn lemma_shuffled_from(cards: Seq<u8>, s: rng::State, i: int)
    requires
        is_pack(cards),
        i < 52,
    ensures
        is_pack(shuffled_from(cards, s, i).0),
    decreases i,
{
    if i > 0 {
        let (j, t) = rng::draw(s, (i + 1) as u64);
        rng::lemma_draw_in_range(s, (i + 1) as u64);
        lemma_swapped(cards, i, j as int);
        lemma_shuffled_from(swapped(cards, i, j as int), t, i - 1);
    }
}

/// A shuffle is a permutation: afterwards every card is there to be dealt, once.
pub proof fn law_shuffle_is_a_permutation(d: DeckState)
    requires
        d.wf(),
    ensures
        shuffled(d).wf(),
        shuffled(d).undealt().len() == 52,
        shuffled(d).undealt().no_duplicates(),
        forall|c: u8| c < 52 <==> #[trigger] shuffled(d).undealt().contains(c),
{
    lemma_shuffled_from(d.cards, d.rng, 51);
    let cards = shuffled(d).cards;
    assert(shuffled(d).undealt() =~= cards);
    assert forall|c: u8| c < 52 <==> #[trigger] shuffled(d).undealt().contains(c) by {
        if c < 52 {
            law_pack_has_every_card(cards, c);
        }
        if cards.contains(c) {
            let i = cards.index_of(c);
            assert(cards[i] < 52);
        }
    }
}

/// Nothing but the seed decides: decks from one seed stay alike through
/// shuffles, deals and removals.
pub proof fn law_seed_decides(a: DeckState, b: DeckState, seed: u64, n: int, cards: Seq<u8>)
    requires
        a == fresh_deck(seed),
        b == fresh_deck(seed),
    ensures
        shuffled(a) == shuffled(b),
        dealt(shuffled(a), n) == dealt(shuffled(b), n),
        without_cards(shuffled(a), cards) == without_cards(shuffled(b), cards),
{
}

/// A card that was dealt is not dealt again.
pub proof fn law_dealt_cards_are_gone(d: DeckState, n: int)
    requires
        d.wf(),
        0 <= n,
        d.dealt + n <= 52,
    ensures
        dealt(d, n).wf(),
        d.undealt() =~= d.undealt().take(n) + dealt(d, n).undealt(),
        forall|c: u8| #[trigger]
            d.undealt().take(n).contains(c) ==> !dealt(d, n).undealt().contains(c),
{
    let now = d.undealt().take(n);
    let later = dealt(d, n).undealt();
    assert forall|c: u8| #[trigger] now.contains(c) implies !later.contains(c) by {
        let i = now.index_of(c);
        assert(d.cards[d.dealt + i] == c);
        if later.contains(c) {
            let j = later.index_of(c);
            assert(d.cards[d.dealt + n + j] == c);
        }
    }
}

/// Taking one card out leaves exactly the other undealt cards to come.
proof fn lemma_without_card(d: DeckState, c: u8)
    requires
        d.wf(),
    ensures
        without_card(d, c).wf(),
        without_card(d, c).rng == d.rng,
        without_card(d, c).cards.take(d.dealt) == d.cards.take(d.dealt),
        without_card(d, c).dealt == d.dealt + if d.undealt().contains(c) {
            1int
        } else {
            0int
        },
        forall|x: u8| #[trigger]
            without_card(d, c).undealt().contains(x) <==> d.undealt().contains(x) && x != c,
{
    let e = without_card(d, c);
    if d.undealt().contains(c) {
        let k = d.undealt().index_of(c);
        assert(d.cards[d.dealt + k] == c);
        let p = d.cards.index_of(c);
        assert(p == d.dealt + k);
        lemma_swapped(d.cards, d.dealt, p);
        assert(e.cards.take(d.dealt) =~= d.cards.take(d.dealt));
        assert forall|x: u8| #[trigger] e.undealt().contains(x) <==> d.undealt().contains(x) && x
            != c by {
            if e.undealt().contains(x) {
                let j = e.undealt().index_of(x);
                let from = if d.dealt + 1 + j == p {
                    d.dealt
                } else {
                    d.dealt + 1 + j
                };
                assert(d.cards[from] == x);
                assert(d.undealt()[from - d.dealt] == x);
            }
            if d.undealt().contains(x) && x != c {
                let j = d.undealt().index_of(x);
                assert(d.cards[d.dealt + j] == x);
                let to = if j == 0 {
                    p
                } else {
                    d.dealt + j
                };
                assert(e.cards[to] == x);
                assert(e.undealt()[to - d.dealt - 1] == x);
            }
        }
    }
}

/// The cards of a list that are still to come, each once.
pub open spec fn listed_undealt(d: DeckState, cards: Seq<u8>) -> Set<u8> {
    cards.to_set().intersect(d.undealt().to_set())
}

/// Removed cards are out of play, and only those: the others are still to come,
/// as many fewer as there were different cards to take out, what was dealt stays
/// dealt, and the generator is not touched.
pub proof fn law_remove_takes_cards_out_of_play(d: DeckState, cards: Seq<u8>)
    requires
        d.wf(),
    ensures
        without_cards(d, cards).wf(),
        without_cards(d, cards).rng == d.rng,
        without_cards(d, cards).dealt >= d.dealt,
        without_cards(d, cards).cards.take(d.dealt) == d.cards.take(d.dealt),
        forall|x: u8| #[trigger]
            without_cards(d, cards).undealt().contains(x) <==> d.undealt().contains(x)
                && !cards.contains(x),
        without_cards(d, cards).undealt().len() == d.undealt().len() - listed_undealt(
            d,
            cards,
        ).len(),
        cards.no_duplicates() && (forall|i: int|
            0 <= i < cards.len() ==> d.undealt().contains(#[trigger] cards[i]))
            ==> without_cards(d, cards).undealt().len() == d.undealt().len() - cards.len(),
    decreases cards.len(),
{
    if cards.no_duplicates() && (forall|i: int|
        0 <= i < cards.len() ==> d.undealt().contains(#[trigger] cards[i])) {
        cards.unique_seq_to_set();
        assert(listed_undealt(d, cards) =~= cards.to_set());
    }
    if cards.len() == 0 {
        assert(listed_undealt(d, cards) =~= Set::empty());
    } else {
        let before = cards.drop_last();
        let c = cards.last();
        assert(c == cards[cards.len() - 1]);
        law_remove_takes_cards_out_of_play(d, before);
        let e = without_cards(d, before);
        lemma_without_card(e, c);
        let f = without_card(e, c);
        assert(f.cards.take(d.dealt) =~= f.cards.take(e.dealt).take(d.dealt));
        assert(e.cards.take(d.dealt) =~= e.cards.take(e.dealt).take(d.dealt));
        assert forall|x: u8| #[trigger] cards.contains(x) == (before.contains(x) || x == c) by {
            if before.contains(x) {
                let i = before.index_of(x);
                assert(cards[i] == x);
            }
            if cards.contains(x) && x != c {
                let i = cards.index_of(x);
                assert(before[i] == x);
            }
        }
        assert forall|x: u8| #[trigger] f.undealt().contains(x) <==> d.undealt().contains(x)
            && !cards.contains(x) by {
            assert(e.undealt().contains(x) <==> d.undealt().contains(x) && !before.contains(x));
        }
        assert(listed_undealt(d, before).finite()) by {
            vstd::seq_lib::seq_to_set_is_finite(before);
        }
        assert(listed_undealt(d, cards) =~= if d.undealt().contains(c) {
            listed_undealt(d, before).insert(c)
        } else {
            listed_undealt(d, before)
        });
        assert(listed_undealt(d, before).contains(c) <==> d.undealt().contains(c)
            && before.contains(c));
    }
}

/// Removing cards a second time changes nothing.
pub proof fn law_removing_again_changes_nothing(d: DeckState, cards: Seq<u8>)
    requires
        d.wf(),
    ensures
        without_cards(without_cards(d, cards), cards) == without_cards(d, cards),
{
    let e = without_cards(d, cards);
    law_remove_takes_cards_out_of_play(d, cards);
    lemma_nothing_to_remove(e, cards);
}

/// Cards that are not to come are not taken out.
proof fn lemma_nothing_to_remove(d: DeckState, cards: Seq<u8>)
    requires
        forall|x: u8| #[trigger] d.undealt().contains(x) ==> !cards.contains(x),
    ensures
        without_cards(d, cards) == d,
    decreases cards.len(),
{
    if cards.len() > 0 {
        let before = cards.drop_last();
        assert(cards.contains(cards[cards.len() - 1]));
        assert forall|x: u8| #[trigger] d.undealt().contains(x) implies !before.contains(x) by {
            if before.contains(x) {
                assert(cards[before.index_of(x)] == x);
            }
        }
        lemma_nothing_to_remove(d, before);
    }
}

/// A fresh deck has the cards in order from the first, all to come.
pub proof fn law_fresh_decks_are_in_order(seed: u64, k: int)
    requires
        0 <= k < 52,
    ensures
        fresh_deck(seed).undealt().len() == 52,
        fresh_deck(seed).undealt()[k] == k,
        fresh_deck(seed).rng == rng::seeded(seed),
{
}

/// Dealing takes cards off the front and leaves the others in their order; the
/// generator is not touched.
pub proof fn law_deals_leave_the_rest_in_order(d: DeckState, n: int, k: int)
    requires
        d.wf(),
        0 <= n,
        d.dealt + n <= 52,
        0 <= k < 52 - d.dealt - n,
    ensures
        dealt(d, n).undealt().len() == d.undealt().len() - n,
        dealt(d, n).undealt()[k] == d.undealt()[n + k],
        dealt(d, n).rng == d.rng,
{
}

/// Taking out the card in place `p` of those to come moves the first one there;
/// all others keep their order.
pub proof fn law_removal_keeps_the_other_places(d: DeckState, p: int, k: int)
    requires
        d.wf(),
        0 <= p < d.undealt().len(),
        0 < k < d.undealt().len(),
    ensures
        ({
            let e = without_cards(d, seq![d.undealt()[p]]);
            &&& e.undealt().len() == d.undealt().len() - 1
            &&& k != p ==> e.undealt()[k - 1] == d.undealt()[k]
            &&& k == p ==> e.undealt()[k - 1] == d.undealt()[0]
        }),
{
    let c = d.undealt()[p];
    let one = seq![c];
    reveal_with_fuel(without_cards, 2);
    assert(one.drop_last() =~= seq![]);
    assert(without_cards(d, one) == without_card(d, c));
    assert(d.undealt().contains(c));
    assert(d.cards[d.dealt + p] == c);
    assert(d.cards.index_of(c) == d.dealt + p);
}

} // verus!
