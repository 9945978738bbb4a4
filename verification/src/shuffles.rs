//! Why shuffles and samples are fair: every order comes from just one sequence
//! of choices.
//!
//! A shuffle makes one choice for each place, and each choice is drawn so that
//! all its values come up alike. Where every order comes from exactly one
//! sequence of choices, every order comes up alike.

use vstd::prelude::*;

use crate::deck;
use crate::deck::DeckState;
use crate::equity;
use crate::rng;

verus! {

/// Choices for a shuffle of the places up to `i`: for each place, one up to it.
pub open spec fn are_choices(js: Seq<int>, i: int) -> bool {
    &&& js.len() == i + 1
    &&& forall|k: int| 0 <= k < js.len() ==> 0 <= #[trigger] js[k] <= k
}

/// The cards after each place from `i` down changed cards with the place chosen
/// for it.
pub open spec fn arranged(cards: Seq<u8>, js: Seq<int>, i: int) -> Seq<u8>
    decreases i,
{
    if i <= 0 {
        cards
    } else {
        arranged(deck::swapped(cards, i, js[i]), js, i - 1)
    }
}

/// The choices that the generator makes from a state on.
pub open spec fn choices(s: rng::State, i: int) -> Seq<int>
    decreases i,
{
    if i <= 0 {
        seq![0]
    } else {
        let (x, t) = rng::draw(s, (i + 1) as u64);
        choices(t, i - 1).push(x as int)
    }
}

/// A shuffle follows the generator's choices.
pub proof fn law_shuffle_follows_the_choices(d: DeckState)
    ensures
        are_choices(choices(d.rng, 51), 51),
        deck::shuffled(d).cards == arranged(d.cards, choices(d.rng, 51), 51),
{
    lemma_choices(d.cards, d.rng, 51);
}

proof fn lemma_choices(cards: Seq<u8>, s: rng::State, i: int)
    requires
        0 <= i < 52,
    ensures
        are_choices(choices(s, i), i),
        deck::shuffled_from(cards, s, i).0 == arranged(cards, choices(s, i), i),
    decreases i,
{
    if i > 0 {
        let (x, t) = rng::draw(s, (i + 1) as u64);
        rng::lemma_draw_in_range(s, (i + 1) as u64);
        let next = deck::swapped(cards, i, x as int);
        lemma_choices(next, t, i - 1);
        lemma_arranged_prefix(next, choices(t, i - 1), choices(s, i), i - 1);
    }
}

/// Only the choices for the places that are left matter.
proof fn lemma_arranged_prefix(cards: Seq<u8>, js: Seq<int>, ks: Seq<int>, i: int)
    requires
        forall|k: int| 0 < k <= i ==> #[trigger] js[k] == ks[k],
    ensures
        arranged(cards, js, i) == arranged(cards, ks, i),
    decreases i,
{
    if i > 0 {
        assert(js[i] == ks[i]);
        lemma_arranged_prefix(deck::swapped(cards, i, js[i]), js, ks, i - 1);
    }
}

/// Places above `i` keep their cards.
proof fn lemma_arranged_keeps(cards: Seq<u8>, js: Seq<int>, i: int)
    requires
        i < cards.len(),
        forall|k: int| 0 < k <= i ==> 0 <= #[trigger] js[k] <= k,
    ensures
        arranged(cards, js, i).len() == cards.len(),
        forall|k: int| i < k < cards.len() ==> #[trigger] arranged(cards, js, i)[k] == cards[k],
    decreases i,
{
    if i > 0 {
        assert(0 <= js[i] <= i);
        lemma_arranged_keeps(deck::swapped(cards, i, js[i]), js, i - 1);
    }
}

proof fn lemma_swapped_distinct(cards: Seq<u8>, i: int, j: int)
    requires
        cards.no_duplicates(),
        0 <= i < cards.len(),
        0 <= j < cards.len(),
    ensures
        deck::swapped(cards, i, j).no_duplicates(),
{
    let d = deck::swapped(cards, i, j);
    assert forall|a: int, b: int| 0 <= a < d.len() && 0 <= b < d.len() && a != b implies d[a]
        != d[b] by {
        let a0 = if a == i {
            j
        } else if a == j {
            i
        } else {
            a
        };
        let b0 = if b == i {
            j
        } else if b == j {
            i
        } else {
            b
        };
        assert(d[a] == cards[a0] && d[b] == cards[b0]);
    }
}

/// Different choices give different orders.
proof fn lemma_choices_differ(cards: Seq<u8>, js: Seq<int>, ks: Seq<int>, i: int)
    requires
        cards.no_duplicates(),
        i < cards.len(),
        forall|k: int| 0 < k <= i ==> 0 <= #[trigger] js[k] <= k,
        forall|k: int| 0 < k <= i ==> 0 <= #[trigger] ks[k] <= k,
        arranged(cards, js, i) == arranged(cards, ks, i),
    ensures
        forall|k: int| 0 < k <= i ==> #[trigger] js[k] == ks[k],
    decreases i,
{
    if i > 0 {
        assert(0 <= js[i] <= i && 0 <= ks[i] <= i);
        let a = deck::swapped(cards, i, js[i]);
        let b = deck::swapped(cards, i, ks[i]);
        lemma_arranged_keeps(a, js, i - 1);
        lemma_arranged_keeps(b, ks, i - 1);
        assert(arranged(cards, js, i)[i] == cards[js[i]]);
        assert(arranged(cards, ks, i)[i] == cards[ks[i]]);
        lemma_swapped_distinct(cards, i, js[i]);
        lemma_choices_differ(a, js, ks, i - 1);
    }
}

/// Choices that give an order, where the cards above place `i` are in it already.
proof fn lemma_choices_exist(cards: Seq<u8>, target: Seq<u8>, i: int) -> (js: Seq<int>)
    requires
        cards.no_duplicates(),
        target.no_duplicates(),
        target.len() == cards.len(),
        0 <= i < cards.len(),
        forall|k: int| 0 <= k < target.len() ==> cards.contains(#[trigger] target[k]),
        forall|k: int| i < k < cards.len() ==> #[trigger] cards[k] == target[k],
    ensures
        are_choices(js, i),
        arranged(cards, js, i) == target,
    decreases i,
{
    assert(cards.contains(target[i]));
    let j = cards.index_of(target[i]);
    assert(j <= i) by {
        if j > i {
            assert(cards[j] == target[j]);
        }
    }
    if i == 0 {
        assert(cards =~= target);
        seq![0int]
    } else {
        let next = deck::swapped(cards, i, j);
        lemma_swapped_distinct(cards, i, j);
        assert forall|k: int| 0 <= k < target.len() implies next.contains(#[trigger] target[k]) by {
            assert(cards.contains(target[k]));
            let m = cards.index_of(target[k]);
            let to = if m == i {
                j
            } else if m == j {
                i
            } else {
                m
            };
            assert(next[to] == target[k]);
        }
        let rest = lemma_choices_exist(next, target, i - 1);
        let js = rest.push(j);
        lemma_arranged_prefix(next, rest, js, i - 1);
        js
    }
}

/// The shuffle is unbiased: every order of the pack comes from choices, and from
/// no others.
pub proof fn law_every_order_comes_from_one_sequence_of_choices(cards: Seq<u8>, target: Seq<u8>)
    requires
        deck::is_pack(cards),
        deck::is_pack(target),
    ensures
        exists|js: Seq<int>| #[trigger] are_choices(js, 51) && arranged(cards, js, 51) == target,
        forall|js: Seq<int>, ks: Seq<int>| #[trigger]
            are_choices(js, 51) && #[trigger] are_choices(ks, 51) && arranged(cards, js, 51)
                == target && arranged(cards, ks, 51) == target ==> js == ks,
{
    assert forall|k: int| 0 <= k < target.len() implies cards.contains(#[trigger] target[k]) by {
        deck::law_pack_has_every_card(cards, target[k]);
    }
    let js = lemma_choices_exist(cards, target, 51);
    assert(are_choices(js, 51) && arranged(cards, js, 51) == target);
    assert forall|js: Seq<int>, ks: Seq<int>| #[trigger]
        are_choices(js, 51) && #[trigger] are_choices(ks, 51) && arranged(cards, js, 51) == target
            && arranged(cards, ks, 51) == target implies js == ks by {
        lemma_choices_differ(cards, js, ks, 51);
        assert(0 <= js[0] <= 0 && 0 <= ks[0] <= 0);
        assert(js =~= ks);
    }
}

/// Shuffles tell the generator's choices apart: packs in one order come out alike
/// exactly where the choices are the same.
pub proof fn law_shuffles_agree_where_the_choices_do(a: DeckState, b: DeckState)
    requires
        a.wf(),
        a.cards == b.cards,
    ensures
        deck::shuffled(a).cards == deck::shuffled(b).cards <==> choices(a.rng, 51) == choices(
            b.rng,
            51,
        ),
{
    law_shuffle_follows_the_choices(a);
    law_shuffle_follows_the_choices(b);
    deck::law_shuffle_is_a_permutation(a);
    law_every_order_comes_from_one_sequence_of_choices(a.cards, deck::shuffled(a).cards);
}

/// A shuffle leaves the generator behind its last choice: where the choices for the
/// upper places end, those for the lower ones begin.
pub proof fn law_shuffles_leave_the_generator_behind_the_choices(d: DeckState) -> (states: Seq<
    rng::State,
>)
    ensures
        states.len() == 52,
        states[51] == d.rng,
        states[0] == deck::shuffled(d).rng,
        forall|i: int|
            0 < i < 52 ==> rng::draw(#[trigger] states[i], (i + 1) as u64) == (
                choices(d.rng, 51)[i] as u64,
                states[i - 1],
            ),
{
    lemma_states(d.cards, d.rng, 51)
}

proof fn lemma_states(cards: Seq<u8>, s: rng::State, i: int) -> (states: Seq<rng::State>)
    requires
        0 <= i < 52,
    ensures
        states.len() == i + 1,
        states[i] == s,
        states[0] == deck::shuffled_from(cards, s, i).1,
        forall|k: int|
            0 < k <= i ==> rng::draw(#[trigger] states[k], (k + 1) as u64) == (
                choices(s, i)[k] as u64,
                states[k - 1],
            ),
    decreases i,
{
    if i == 0 {
        seq![s]
    } else {
        let (x, t) = rng::draw(s, (i + 1) as u64);
        let before = lemma_states(deck::swapped(cards, i, x as int), t, i - 1);
        lemma_choices(cards, s, i);
        lemma_choices(deck::swapped(cards, i, x as int), t, i - 1);
        let states = before.push(s);
        assert forall|k: int| 0 < k <= i implies rng::draw(#[trigger] states[k], (k + 1) as u64) == (
            choices(s, i)[k] as u64,
            states[k - 1],
        ) by {
            if k < i {
                assert(states[k] == before[k]);
                assert(choices(s, i)[k] == choices(t, i - 1)[k]);
            }
        }
        states
    }
}

/// Choices for a sample of `k` of `n` cards: for each place, how far on the card
/// that goes there lies.
pub open spec fn are_steps(js: Seq<int>, n: int, k: int) -> bool {
    &&& js.len() == k
    &&& forall|i: int| 0 <= i < k ==> 0 <= #[trigger] js[i] < n - i
}

/// The cards after the first places changed cards with those chosen for them.
pub open spec fn sampled(cards: Seq<u8>, js: Seq<int>) -> Seq<u8>
    decreases js.len(),
{
    if js.len() == 0 {
        cards
    } else {
        let k = js.len() - 1;
        deck::swapped(sampled(cards, js.drop_last()), k, k + js.last())
    }
}

/// The choices that the generator makes for a sample.
pub open spec fn steps(n: int, s: rng::State, k: int) -> (Seq<int>, rng::State)
    decreases k,
{
    if k <= 0 {
        (seq![], s)
    } else {
        let (before, t) = steps(n, s, k - 1);
        let (x, u) = rng::draw(t, (n - (k - 1)) as u64);
        (before.push(x as int), u)
    }
}

/// A sample follows the generator's choices.
pub proof fn law_sample_follows_the_choices(cards: Seq<u8>, s: rng::State, k: int)
    requires
        0 <= k <= cards.len() <= 52,
    ensures
        are_steps(steps(cards.len() as int, s, k).0, cards.len() as int, k),
        equity::drawn(cards, s, k) == (
            sampled(cards, steps(cards.len() as int, s, k).0),
            steps(cards.len() as int, s, k).1,
        ),
    decreases k,
{
    let n = cards.len() as int;
    if k > 0 {
        law_sample_follows_the_choices(cards, s, k - 1);
        let (before, t) = steps(n, s, k - 1);
        rng::lemma_draw_in_range(t, (n - (k - 1)) as u64);
        assert(steps(n, s, k).0.drop_last() =~= before);
    }
}

proof fn lemma_sampled(cards: Seq<u8>, js: Seq<int>)
    requires
        cards.no_duplicates(),
        js.len() <= cards.len(),
        are_steps(js, cards.len() as int, js.len() as int),
    ensures
        sampled(cards, js).no_duplicates(),
        sampled(cards, js).len() == cards.len(),
        forall|c: u8| #[trigger] sampled(cards, js).contains(c) <==> cards.contains(c),
        js.len() > 0 ==> sampled(cards, js).take(js.len() - 1) == sampled(
            cards,
            js.drop_last(),
        ).take(js.len() - 1),
        js.len() > 0 ==> sampled(cards, js)[js.len() - 1] == sampled(
            cards,
            js.drop_last(),
        )[js.len() - 1 + js.last()],
    decreases js.len(),
{
    if js.len() > 0 {
        let k = js.len() - 1;
        let before = sampled(cards, js.drop_last());
        assert(0 <= js[k] < cards.len() - k);
        assert(are_steps(js.drop_last(), cards.len() as int, k)) by {
            assert forall|i: int| 0 <= i < k implies 0 <= #[trigger] js.drop_last()[i] < cards.len()
                - i by {
                assert(js.drop_last()[i] == js[i]);
            }
        }
        lemma_sampled(cards, js.drop_last());
        lemma_swapped_distinct(before, k, k + js.last());
        let now = sampled(cards, js);
        let j = k + js.last();
        assert(now.take(k) =~= before.take(k));
        assert forall|c: u8| #[trigger] now.contains(c) <==> cards.contains(c) by {
            if now.contains(c) {
                let m = now.index_of(c);
                let from = if m == k {
                    j
                } else if m == j {
                    k
                } else {
                    m
                };
                assert(before[from] == c);
                assert(before.contains(c));
            }
            if cards.contains(c) {
                assert(before.contains(c));
                let m = before.index_of(c);
                let to = if m == k {
                    j
                } else if m == j {
                    k
                } else {
                    m
                };
                assert(now[to] == c);
            }
        }
    }
}

proof fn lemma_steps_differ(cards: Seq<u8>, js: Seq<int>, ks: Seq<int>, k: int)
    requires
        cards.no_duplicates(),
        0 <= k <= cards.len(),
        are_steps(js, cards.len() as int, k),
        are_steps(ks, cards.len() as int, k),
        sampled(cards, js).take(k) == sampled(cards, ks).take(k),
    ensures
        js == ks,
    decreases k,
{
    if k == 0 {
        assert(js =~= ks);
    } else {
        let a = js.drop_last();
        let b = ks.drop_last();
        lemma_sampled(cards, js);
        lemma_sampled(cards, ks);
        assert(are_steps(a, cards.len() as int, k - 1)) by {
            assert forall|i: int| 0 <= i < k - 1 implies 0 <= #[trigger] a[i] < cards.len() - i by {
                assert(a[i] == js[i]);
            }
        }
        assert(are_steps(b, cards.len() as int, k - 1)) by {
            assert forall|i: int| 0 <= i < k - 1 implies 0 <= #[trigger] b[i] < cards.len() - i by {
                assert(b[i] == ks[i]);
            }
        }
        let whole = sampled(cards, js).take(k);
        assert(whole.take(k - 1) =~= sampled(cards, a).take(k - 1)) by {
            assert(whole.take(k - 1) =~= sampled(cards, js).take(k - 1));
        }
        assert(whole.take(k - 1) =~= sampled(cards, b).take(k - 1)) by {
            assert(sampled(cards, ks).take(k).take(k - 1) =~= sampled(cards, ks).take(k - 1));
        }
        lemma_steps_differ(cards, a, b, k - 1);
        assert(whole[k - 1] == sampled(cards, js)[k - 1]);
        assert(whole[k - 1] == sampled(cards, ks).take(k)[k - 1]);
        assert(0 <= js[k - 1] < cards.len() - (k - 1));
        assert(0 <= ks[k - 1] < cards.len() - (k - 1));
        lemma_sampled(cards, a);
        assert(js =~= a.push(js.last()));
        assert(ks =~= b.push(ks.last()));
    }
}

proof fn lemma_steps_exist(cards: Seq<u8>, target: Seq<u8>) -> (js: Seq<int>)
    requires
        cards.no_duplicates(),
        target.no_duplicates(),
        target.len() <= cards.len(),
        forall|k: int| 0 <= k < target.len() ==> cards.contains(#[trigger] target[k]),
    ensures
        are_steps(js, cards.len() as int, target.len() as int),
        sampled(cards, js).take(target.len() as int) == target,
    decreases target.len(),
{
    if target.len() == 0 {
        let js: Seq<int> = seq![];
        assert(sampled(cards, js).take(0) =~= target);
        js
    } else {
        let k = target.len() - 1;
        let before = target.drop_last();
        assert forall|i: int| 0 <= i < before.len() implies cards.contains(#[trigger] before[i]) by {
            assert(before[i] == target[i]);
        }
        let js = lemma_steps_exist(cards, before);
        lemma_sampled(cards, js);
        let c = sampled(cards, js);
        assert(cards.contains(target[k]));
        assert(c.contains(target[k]));
        let m = c.index_of(target[k]);
        assert(m >= k) by {
            if m < k {
                assert(c.take(k)[m] == before[m]);
                assert(before[m] == target[m]);
            }
        }
        let all = js.push(m - k);
        assert(all.drop_last() =~= js);
        assert(are_steps(all, cards.len() as int, k + 1)) by {
            assert forall|i: int| 0 <= i < k + 1 implies 0 <= #[trigger] all[i] < cards.len() - i by {
                if i < k {
                    assert(all[i] == js[i]);
                }
            }
        }
        lemma_sampled(cards, all);
        assert(sampled(cards, all).take(k + 1) =~= target) by {
            assert forall|i: int| 0 <= i < k + 1 implies sampled(cards, all)[i] == target[i] by {
                if i < k {
                    assert(sampled(cards, all).take(k)[i] == c.take(k)[i]);
                    assert(c.take(k)[i] == before[i]);
                }
            }
        }
        all
    }
}

/// Samples are unbiased: every run of `k` of the cards, in every order, comes from
/// choices, and from no others.
pub proof fn law_every_sample_comes_from_one_sequence_of_choices(
    cards: Seq<u8>,
    target: Seq<u8>,
)
    requires
        cards.no_duplicates(),
        target.no_duplicates(),
        target.len() <= cards.len(),
        forall|i: int| 0 <= i < target.len() ==> cards.contains(#[trigger] target[i]),
    ensures
        exists|js: Seq<int>| #[trigger]
            are_steps(js, cards.len() as int, target.len() as int) && sampled(cards, js).take(
                target.len() as int,
            ) == target,
        forall|js: Seq<int>, ks: Seq<int>| #[trigger]
            are_steps(js, cards.len() as int, target.len() as int) && #[trigger] are_steps(
                ks,
                cards.len() as int,
                target.len() as int,
            ) && sampled(cards, js).take(target.len() as int) == target && sampled(cards, ks).take(
                target.len() as int,
            ) == target ==> js == ks,
{
    let n = cards.len() as int;
    let k = target.len() as int;
    let js = lemma_steps_exist(cards, target);
    assert(are_steps(js, n, k) && sampled(cards, js).take(k) == target);
    assert forall|js: Seq<int>, ks: Seq<int>| #[trigger]
        are_steps(js, n, k) && #[trigger] are_steps(ks, n, k) && sampled(cards, js).take(k) == target
            && sampled(cards, ks).take(k) == target implies js == ks by {
        lemma_steps_differ(cards, js, ks, k);
    }
}

} // verus!
