//! What the enumerations of boards cover, and what the samples are drawn from.

use vstd::prelude::*;

use crate::combinations;
use crate::equity;
use crate::range;
use crate::rng;
use crate::tally;

verus! {

/// Cards in rising order.
pub open spec fn is_rising(cards: Seq<u8>) -> bool {
    forall|i: int, j: int| 0 <= i < j < cards.len() ==> #[trigger] cards[i] < #[trigger] cards[j]
}

/// The ways to take `k` of some cards, in the order in which they are
/// enumerated.
pub open spec fn runouts(cards: Seq<u8>, k: int) -> Seq<Seq<u8>> {
    combinations::combinations(cards.len() as int, k).map_values(
        |c: Seq<int>| equity::picked(cards, c),
    )
}

/// Every way to finish the board comes up, and comes up once: the runouts are
/// just the choices of the cards needed from those that are not known.
pub proof fn law_every_runout_comes_up_once(cards: Seq<u8>, k: int)
    requires
        is_rising(cards),
        0 <= k,
    ensures
        runouts(cards, k).len() == combinations::binomial(cards.len() as int, k),
        runouts(cards, k).no_duplicates(),
        forall|d: Seq<u8>| #[trigger]
            runouts(cards, k).contains(d) <==> d.len() == k && is_rising(d) && forall|i: int|
                0 <= i < d.len() ==> cards.contains(#[trigger] d[i]),
{
    let n = cards.len() as int;
    let list = combinations::combinations(n, k);
    let all = runouts(cards, k);
    combinations::law_combinations_are_counted(n, k);
    combinations::law_combinations_are_listed_once(n, k);
    assert forall|p: int, q: int| 0 <= p < all.len() && 0 <= q < all.len() && p != q implies all[p]
        != all[q] by {
        combinations::lemma_picks_are_picks(0, n, k, p);
        combinations::lemma_picks_are_picks(0, n, k, q);
        if all[p] == all[q] {
            assert forall|i: int| 0 <= i < k implies list[p][i] == list[q][i] by {
                assert(all[p][i] == cards[list[p][i]]);
                assert(all[q][i] == cards[list[q][i]]);
                if list[p][i] < list[q][i] {
                    assert(cards[list[p][i]] < cards[list[q][i]]);
                } else if list[q][i] < list[p][i] {
                    assert(cards[list[q][i]] < cards[list[p][i]]);
                }
            }
            assert(list[p] =~= list[q]);
        }
    }
    assert forall|d: Seq<u8>| #[trigger] all.contains(d) implies d.len() == k && is_rising(d)
        && forall|i: int| 0 <= i < d.len() ==> cards.contains(#[trigger] d[i]) by {
        let p = all.index_of(d);
        combinations::lemma_picks_are_picks(0, n, k, p);
        assert(d == equity::picked(cards, list[p]));
        assert forall|i: int, j: int| 0 <= i < j < d.len() implies #[trigger] d[i] < #[trigger] d[j] by {
            assert(list[p][i] < list[p][j]);
        }
        assert forall|i: int| 0 <= i < d.len() implies cards.contains(#[trigger] d[i]) by {
            assert(d[i] == cards[list[p][i]]);
        }
    }
    assert forall|d: Seq<u8>|
        d.len() == k && is_rising(d) && (forall|i: int|
            0 <= i < d.len() ==> cards.contains(#[trigger] d[i])) implies #[trigger] all.contains(d) by {
        let c = Seq::new(k as nat, |i: int| cards.index_of(d[i]));
        assert forall|i: int| 0 <= i < k implies 0 <= #[trigger] c[i] < n && cards[c[i]] == d[i] by {
            assert(cards.contains(d[i]));
        }
        assert forall|i: int, j: int| 0 <= i < j < c.len() implies #[trigger] c[i] < #[trigger] c[j] by {
            assert(d[i] < d[j]);
            if c[j] < c[i] {
                assert(cards[c[j]] < cards[c[i]]);
            }
        }
        assert(combinations::is_pick(c, 0, n));
        assert(list.contains(c));
        let p = list.index_of(c);
        assert(all[p] =~= d);
    }
}

/// The unseen cards come in rising order, so the law above holds of them.
pub proof fn law_unseen_cards_are_rising(cards: Seq<u8>)
    ensures
        is_rising(equity::unseen_cards(cards)),
{
    equity::lemma_outside(cards, 52);
}

/// An enumeration has one showdown for each way to finish the board, and its
/// trials count them.
pub proof fn law_exact_trials(hands: Seq<(u8, u8)>, board: Seq<u8>, dead: Seq<u8>)
    requires
        hands.len() >= 2,
        equity::can_be_dealt(hands, board, dead),
    ensures
        tally::tally_of(equity::exact_showdowns(hands, board, dead), hands.len()).trials
            == combinations::binomial(
            52 - (2 * hands.len() + board.len() + dead.len()),
            5 - board.len(),
        ),
        equity::exact_showdowns(hands, board, dead).len() == runouts(
            equity::unseen_cards(equity::known(hands, board, dead)),
            5 - board.len(),
        ).len(),
        forall|p: int|
            0 <= p < equity::exact_showdowns(hands, board, dead).len() ==> (
            #[trigger] equity::exact_showdowns(hands, board, dead)[p]) == equity::showdown(
                hands,
                board + runouts(
                    equity::unseen_cards(equity::known(hands, board, dead)),
                    5 - board.len(),
                )[p],
            ),
{
    let all = equity::known(hands, board, dead);
    let rows = equity::exact_showdowns(hands, board, dead);
    equity::law_unseen_cards(all);
    equity::lemma_hands_are_cards(hands, board, dead);
    combinations::law_combinations_are_counted(
        equity::unseen_cards(all).len() as int,
        5 - board.len(),
    );
    assert(tally::are_rows(rows, hands.len()));
    tally::law_shares_are_fractions_of_the_pot(rows, hands.len());
}

/// A full board leaves nothing to chance: there is one showdown.
pub proof fn law_full_board_is_one_showdown(hands: Seq<(u8, u8)>, board: Seq<u8>, dead: Seq<u8>)
    requires
        board.len() == 5,
    ensures
        equity::exact_showdowns(hands, board, dead) == seq![equity::showdown(hands, board)],
{
    let cards = equity::unseen_cards(equity::known(hands, board, dead));
    let none: Seq<int> = seq![];
    assert(combinations::combinations(cards.len() as int, 0) == seq![none]);
    assert(board + equity::picked(cards, none) =~= board);
    assert(equity::exact_showdowns(hands, board, dead) =~= seq![equity::showdown(hands, board)]);
}

/// On a full board sampling repeats the one showdown: everything counted is as many
/// times what the enumeration counts as there are trials, whatever the seed.
pub proof fn law_full_board_samples_repeat(
    hands: Seq<(u8, u8)>,
    board: Seq<u8>,
    dead: Seq<u8>,
    s: rng::State,
    trials: nat,
)
    requires
        board.len() == 5,
        hands.len() > 0,
    ensures
        ({
            let cards = equity::unseen_cards(equity::known(hands, board, dead));
            let n = hands.len();
            let once = tally::tally_of(equity::exact_showdowns(hands, board, dead), n);
            let all = tally::tally_of(
                equity::sampled_showdowns(hands, board, cards, s, trials as int),
                n,
            );
            &&& all.trials == trials
            &&& forall|i: int| 0 <= i < n ==> #[trigger] all.equity[i] == trials * once.equity[i]
            &&& forall|i: int| 0 <= i < n ==> #[trigger] all.wins[i] == trials * once.wins[i]
            &&& forall|i: int| 0 <= i < n ==> #[trigger] all.ties[i] == trials * once.ties[i]
        }),
{
    let cards = equity::unseen_cards(equity::known(hands, board, dead));
    let row = equity::showdown(hands, board);
    law_full_board_is_one_showdown(hands, board, dead);
    let rows = equity::sampled_showdowns(hands, board, cards, s, trials as int);
    assert forall|t: int| 0 <= t < trials implies #[trigger] rows[t] == row by {
        assert(board + equity::redrawn(cards, s, 0, t + 1).0.take(0) =~= board);
    }
    assert(rows =~= tally::repeated(row, trials));
    tally::law_repeated_showdowns_multiply(row, trials, hands.len());
}

/// The order in which the hands are named makes no difference: with the hands in
/// another order, so is all that is counted for them.
pub proof fn law_reordered_hands_reorder_equities(
    hands: Seq<(u8, u8)>,
    p: Seq<int>,
    board: Seq<u8>,
    dead: Seq<u8>,
)
    requires
        hands.len() > 0,
        tally::is_order(p, hands.len() as int),
    ensures
        ({
            let n = hands.len();
            let others = tally::reordered(hands, p);
            let t = tally::tally_of(equity::exact_showdowns(hands, board, dead), n);
            let u = tally::tally_of(equity::exact_showdowns(others, board, dead), n);
            &&& equity::can_be_dealt(hands, board, dead) ==> equity::can_be_dealt(
                others,
                board,
                dead,
            )
            &&& u.trials == t.trials
            &&& u.equity == tally::reordered(t.equity, p)
            &&& u.wins == tally::reordered(t.wins, p)
            &&& u.ties == tally::reordered(t.ties, p)
        }),
{
    let n = hands.len();
    let others = tally::reordered(hands, p);
    let x = equity::known(hands, board, dead);
    let y = equity::known(others, board, dead);
    equity::lemma_cards_of(hands);
    equity::lemma_cards_of(others);
    // Where each known card was before.
    let from = |m: int|
        if m < 2 * n {
            2 * p[m / 2] + m % 2
        } else {
            m
        };
    assert forall|m: int| 0 <= m < y.len() implies 0 <= #[trigger] from(m) < x.len() && y[m]
        == x[from(m)] by {
        if m < 2 * n {
            let i = m / 2;
            assert(0 <= p[i] < n);
            assert(others[i] == hands[p[i]]);
            assert(m == 2 * i || m == 2 * i + 1);
            assert(equity::cards_of(others)[2 * i] == others[i].0);
            assert(equity::cards_of(others)[2 * i + 1] == others[i].1);
            assert(equity::cards_of(hands)[2 * p[i]] == hands[p[i]].0);
            assert(equity::cards_of(hands)[2 * p[i] + 1] == hands[p[i]].1);
        }
    }
    assert forall|c: u8| #[trigger] x.contains(c) <==> y.contains(c) by {
        if y.contains(c) {
            let m = y.index_of(c);
            assert(y[m] == x[from(m)]);
        }
        if x.contains(c) {
            let k = x.index_of(c);
            if k < 2 * n {
                let j = tally::lemma_order_has_all(p, n as int, k / 2);
                let m = 2 * j + k % 2;
                assert(m / 2 == j && m % 2 == k % 2);
                assert(from(m) == k);
                assert(y[m] == c);
            } else {
                assert(from(k) == k);
                assert(y[k] == c);
            }
        }
    }
    if equity::can_be_dealt(hands, board, dead) {
        assert forall|a: int, b: int| 0 <= a < b < y.len() implies y[a] != y[b] by {
            assert(y[a] == x[from(a)] && y[b] == x[from(b)]);
            if a < 2 * n && b < 2 * n && a / 2 != b / 2 {
                assert(p[a / 2] != p[b / 2]);
            }
            assert(from(a) != from(b));
        }
        assert forall|m: int| 0 <= m < y.len() implies #[trigger] y[m] < 52 by {
            assert(y[m] == x[from(m)]);
        }
    }
    lemma_outside_congruent(x, y, 52);
    let rows = equity::exact_showdowns(hands, board, dead);
    let mixed = equity::exact_showdowns(others, board, dead);
    assert(tally::are_rows(rows, n));
    assert forall|k: int| 0 <= k < rows.len() implies #[trigger] mixed[k] == tally::reordered(
        rows[k],
        p,
    ) by {
        assert(mixed[k] =~= tally::reordered(rows[k], p));
    }
    tally::law_reordered_seats_reorder_counts(rows, mixed, p, n);
}

/// Shares of an exact equity sum to one.
pub proof fn law_exact_shares_sum_to_one(hands: Seq<(u8, u8)>, board: Seq<u8>, dead: Seq<u8>)
    requires
        hands.len() >= 2,
        equity::can_be_dealt(hands, board, dead),
    ensures
        crate::settle::sum(
            tally::tally_of(equity::exact_showdowns(hands, board, dead), hands.len()).equity,
        ) == tally::tally_of(equity::exact_showdowns(hands, board, dead), hands.len()).trials
            * tally::POT_UNITS,
{
    equity::lemma_hands_are_cards(hands, board, dead);
    assert(tally::are_rows(equity::exact_showdowns(hands, board, dead), hands.len()));
    tally::law_shares_sum_to_one(equity::exact_showdowns(hands, board, dead), hands.len());
}

/// However many trials came before, the cards that a trial deals are different,
/// and are among those that it may deal: none that is known.
pub proof fn law_samples_deal_unseen_cards(
    cards: Seq<u8>,
    s: rng::State,
    k: int,
    trials: int,
)
    requires
        equity::are_distinct(cards),
        0 <= k <= cards.len(),
        cards.len() <= 52,
    ensures
        equity::redrawn(cards, s, k, trials).0.to_multiset() == cards.to_multiset(),
        equity::are_distinct(equity::redrawn(cards, s, k, trials).0.take(k)),
        forall|i: int|
            0 <= i < k ==> cards.contains(#[trigger] equity::redrawn(cards, s, k, trials).0.take(k)[i]),
{
    lemma_redrawn(cards, s, k, trials);
    let c = equity::redrawn(cards, s, k, trials).0;
    equity::lemma_distinct_prefix(c.take(k), c);
    assert forall|i: int| 0 <= i < k implies cards.contains(#[trigger] c.take(k)[i]) by {
        broadcast use vstd::seq_lib::group_to_multiset_ensures;

        assert(c.take(k)[i] == c[i]);
        assert(c.contains(c[i]));
        assert(c.to_multiset().count(c[i]) > 0);
    }
}

pub proof fn lemma_redrawn(cards: Seq<u8>, s: rng::State, k: int, trials: int)
    requires
        equity::are_distinct(cards),
        0 <= k <= cards.len(),
        cards.len() <= 52,
    ensures
        equity::are_distinct(equity::redrawn(cards, s, k, trials).0),
        equity::redrawn(cards, s, k, trials).0.len() == cards.len(),
        equity::redrawn(cards, s, k, trials).0.to_multiset() == cards.to_multiset(),
    decreases trials,
{
    if trials > 0 {
        lemma_redrawn(cards, s, k, trials - 1);
        let (c, t) = equity::redrawn(cards, s, k, trials - 1);
        equity::lemma_drawn(c, t, k);
    }
}

/// Ranges of one holding each reduce to specific hands.
pub proof fn law_single_holdings_reduce_to_hands(
    a: (u8, u8),
    b: (u8, u8),
    board: Seq<u8>,
    dead: Seq<u8>,
)
    requires
        !equity::share_a_card(a, b),
    ensures
        equity::pair_showdowns(seq![a], seq![b], board, dead) == equity::exact_showdowns(
            equity::two(a, b),
            board,
            dead,
        ),
{
    reveal_with_fuel(equity::pair_showdowns, 2);
    reveal_with_fuel(equity::showdowns_against, 2);
    assert(seq![a].drop_last() =~= seq![]);
    assert(seq![b].drop_last() =~= seq![]);
    assert(equity::pair_showdowns(seq![a], seq![b], board, dead) =~= equity::exact_showdowns(
        equity::two(a, b),
        board,
        dead,
    ));
}

/// The places that a draw picks in the first `n` ranges, whatever is there.
pub open spec fn places(ranges: Seq<Seq<(u8, u8)>>, s: rng::State, n: int) -> (Seq<int>, rng::State)
    decreases n,
{
    if n <= 0 {
        (seq![], s)
    } else {
        let (before, t) = places(ranges, s, n - 1);
        let (x, u) = rng::draw(t, ranges[n - 1].len() as u64);
        (before.push(x as int), u)
    }
}

/// The holdings in some places of the ranges.
pub open spec fn holdings_at(ranges: Seq<Seq<(u8, u8)>>, at: Seq<int>) -> Seq<(u8, u8)> {
    Seq::new(at.len(), |i: int| ranges[i][at[i]])
}

/// Ranges that can be drawn from: in order, not empty, and clear of known cards.
pub open spec fn can_be_drawn(
    ranges: Seq<Seq<(u8, u8)>>,
    board: Seq<u8>,
    dead: Seq<u8>,
) -> bool {
    &&& equity::are_distinct(board + dead)
    &&& forall|i: int|
        0 <= i < ranges.len() ==> {
            &&& range::canonical(#[trigger] ranges[i])
            &&& 0 < ranges[i].len() <= u64::MAX
        }
}

/// An attempt keeps just the draws that can be dealt: it succeeds if and only if
/// the holdings drawn, one place from each range, are different cards and none
/// of them known, and then it deals just these. Every place in a range comes up
/// alike and holds another holding, so every joint holding that can be dealt
/// comes up alike.
pub proof fn law_attempts_accept_what_can_be_dealt(
    ranges: Seq<Seq<(u8, u8)>>,
    board: Seq<u8>,
    dead: Seq<u8>,
    s: rng::State,
)
    requires
        can_be_drawn(ranges, board, dead),
    ensures
        ({
            let n = ranges.len() as int;
            let at = places(ranges, s, n).0;
            let h = holdings_at(ranges, at);
            &&& equity::attempt(ranges, board, dead, s, n).0 is Some <==> equity::are_distinct(
                equity::known(h, board, dead),
            )
            &&& equity::attempt(ranges, board, dead, s, n).0 is Some ==> equity::attempt(
                ranges,
                board,
                dead,
                s,
                n,
            ) == (Some(h), places(ranges, s, n).1)
        }),
{
    lemma_attempt(ranges, board, dead, s, ranges.len() as int);
}

pub proof fn lemma_attempt(
    ranges: Seq<Seq<(u8, u8)>>,
    board: Seq<u8>,
    dead: Seq<u8>,
    s: rng::State,
    n: int,
)
    requires
        can_be_drawn(ranges, board, dead),
        0 <= n <= ranges.len(),
    ensures
        ({
            let at = places(ranges, s, n).0;
            let h = holdings_at(ranges, at);
            &&& at.len() == n
            &&& forall|i: int| 0 <= i < n ==> 0 <= #[trigger] at[i] < ranges[i].len()
            &&& equity::attempt(ranges, board, dead, s, n).0 is Some <==> equity::are_distinct(
                equity::known(h, board, dead),
            )
            &&& equity::attempt(ranges, board, dead, s, n).0 is Some ==> equity::attempt(
                ranges,
                board,
                dead,
                s,
                n,
            ) == (Some(h), places(ranges, s, n).1)
        }),
    decreases n,
{
    if n == 0 {
        assert(holdings_at(ranges, places(ranges, s, 0).0) =~= seq![]);
        assert(equity::known(seq![], board, dead) =~= board + dead);
    } else {
        lemma_attempt(ranges, board, dead, s, n - 1);
        let (before, t) = places(ranges, s, n - 1);
        let r = ranges[n - 1];
        assert(range::canonical(r));
        rng::lemma_draw_in_range(t, r.len() as u64);
        let x = rng::draw(t, r.len() as u64).0 as int;
        let at = before.push(x);
        let h0 = holdings_at(ranges, before);
        let h = holdings_at(ranges, at);
        assert(h =~= h0.push(r[x]));
        assert(range::is_holding(r[x]));
        equity::lemma_known_push(h0, board, dead, r[x]);
        if equity::are_distinct(equity::known(h, board, dead)) {
            equity::lemma_known_pop(h0, board, dead, r[x]);
        }
    }
}

/// Different places hold different joint holdings.
pub proof fn law_places_are_told_apart(ranges: Seq<Seq<(u8, u8)>>, at: Seq<int>, other: Seq<int>)
    requires
        at.len() == ranges.len(),
        other.len() == ranges.len(),
        forall|i: int| 0 <= i < ranges.len() ==> range::canonical(#[trigger] ranges[i]),
        forall|i: int| 0 <= i < ranges.len() ==> 0 <= #[trigger] at[i] < ranges[i].len(),
        forall|i: int| 0 <= i < ranges.len() ==> 0 <= #[trigger] other[i] < ranges[i].len(),
        holdings_at(ranges, at) == holdings_at(ranges, other),
    ensures
        at == other,
{
    assert forall|i: int| 0 <= i < ranges.len() implies at[i] == other[i] by {
        let r = ranges[i];
        assert(holdings_at(ranges, at)[i] == holdings_at(ranges, other)[i]);
        assert(range::canonical(r));
        if at[i] < other[i] {
            assert(range::precedes(r[at[i]], r[other[i]]));
        } else if other[i] < at[i] {
            assert(range::precedes(r[other[i]], r[at[i]]));
        }
    }
    assert(at =~= other);
}

/// One place in each range.
pub open spec fn are_places(ranges: Seq<Seq<(u8, u8)>>, at: Seq<int>) -> bool {
    &&& at.len() == ranges.len()
    &&& forall|i: int| 0 <= i < ranges.len() ==> 0 <= #[trigger] at[i] < ranges[i].len()
}

/// Every joint holding comes from one list of places, and from no other: an
/// attempt deals it exactly where the draw picks these places.
pub proof fn law_every_joint_holding_comes_from_one_list_of_places(
    ranges: Seq<Seq<(u8, u8)>>,
    board: Seq<u8>,
    dead: Seq<u8>,
    h: Seq<(u8, u8)>,
) -> (at: Seq<int>)
    requires
        can_be_drawn(ranges, board, dead),
        equity::is_joint(ranges, board, dead, h),
    ensures
        are_places(ranges, at),
        holdings_at(ranges, at) == h,
        forall|other: Seq<int>| #[trigger]
            are_places(ranges, other) && holdings_at(ranges, other) == h ==> other == at,
        forall|s: rng::State|
            (#[trigger] equity::attempt(ranges, board, dead, s, ranges.len() as int)).0 == Some(h)
                <==> places(ranges, s, ranges.len() as int).0 == at,
{
    let n = ranges.len() as int;
    let at = Seq::new(ranges.len(), |i: int| ranges[i].index_of(h[i]));
    assert forall|i: int| 0 <= i < n implies 0 <= #[trigger] at[i] < ranges[i].len()
        && ranges[i][at[i]] == h[i] by {
        assert(ranges[i].contains(h[i]));
    }
    assert(holdings_at(ranges, at) =~= h);
    assert forall|other: Seq<int>| #[trigger]
        are_places(ranges, other) && holdings_at(ranges, other) == h implies other == at by {
        law_places_are_told_apart(ranges, at, other);
    }
    assert forall|s: rng::State|
        (#[trigger] equity::attempt(ranges, board, dead, s, n)).0 == Some(h) <==> places(
            ranges,
            s,
            n,
        ).0 == at by {
        lemma_attempt(ranges, board, dead, s, n);
        assert(are_places(ranges, places(ranges, s, n).0));
    }
    at
}

/// Words that are kept when drawing a place in each range.
pub open spec fn are_kept(ranges: Seq<Seq<(u8, u8)>>, words: Seq<int>) -> bool {
    &&& words.len() == ranges.len()
    &&& forall|i: int|
        0 <= i < ranges.len() ==> 0 <= #[trigger] words[i] <= rng::zone(ranges[i].len() as u64)
}

/// The places that words stand for.
pub open spec fn picked(ranges: Seq<Seq<(u8, u8)>>, words: Seq<int>) -> Seq<int> {
    Seq::new(words.len(), |i: int| words[i] % (ranges[i].len() as int))
}

/// Words that stand for the places `at`, each in the same block as the word that
/// was there.
pub open spec fn moved(ranges: Seq<Seq<(u8, u8)>>, words: Seq<int>, at: Seq<int>) -> Seq<int> {
    Seq::new(words.len(), |i: int| words[i] - words[i] % (ranges[i].len() as int) + at[i])
}

/// Sampling is uniform over joint holdings: the kept words that deal one holding
/// and those that deal another can be paired off, one for one, so the generator
/// has equally many for each.
pub proof fn law_joint_holdings_come_up_alike(
    ranges: Seq<Seq<(u8, u8)>>,
    board: Seq<u8>,
    dead: Seq<u8>,
    h: Seq<(u8, u8)>,
    other: Seq<(u8, u8)>,
    words: Seq<int>,
) -> (at: (Seq<int>, Seq<int>))
    requires
        can_be_drawn(ranges, board, dead),
        equity::is_joint(ranges, board, dead, h),
        equity::is_joint(ranges, board, dead, other),
        are_kept(ranges, words),
        holdings_at(ranges, picked(ranges, words)) == h,
    ensures
        are_places(ranges, at.0) && holdings_at(ranges, at.0) == h,
        are_places(ranges, at.1) && holdings_at(ranges, at.1) == other,
        are_kept(ranges, moved(ranges, words, at.1)),
        holdings_at(ranges, picked(ranges, moved(ranges, words, at.1))) == other,
        moved(ranges, moved(ranges, words, at.1), at.0) == words,
{
    let from = law_every_joint_holding_comes_from_one_list_of_places(ranges, board, dead, h);
    let to = law_every_joint_holding_comes_from_one_list_of_places(ranges, board, dead, other);
    let there = moved(ranges, words, to);
    let back = moved(ranges, there, from);
    let here = picked(ranges, words);
    assert forall|i: int| 0 <= i < ranges.len() implies 0 <= #[trigger] here[i]
        < ranges[i].len() by {
        assert(range::canonical(ranges[i]));
        vstd::arithmetic::div_mod::lemma_mod_bound(words[i], ranges[i].len() as int);
    }
    assert(are_places(ranges, here));
    assert(here == from);
    assert forall|i: int| 0 <= i < ranges.len() implies 0 <= #[trigger] there[i] <= rng::zone(
        ranges[i].len() as u64,
    ) && there[i] % (ranges[i].len() as int) == to[i] && back[i] == words[i] by {
        assert(range::canonical(ranges[i]));
        assert(0 <= to[i] < ranges[i].len());
        assert(here[i] == from[i]);
        rng::lemma_kept_block(ranges[i].len() as u64, words[i], to[i]);
    }
    assert(picked(ranges, there) =~= to);
    assert(back =~= words);
    (from, to)
}

/// What a deal gives is a joint holding, a holding of each range, all different
/// cards, none of them known; and it comes whole from one attempt, unless every
/// attempt that was allowed has failed.
pub proof fn law_deals_are_joint_holdings(
    ranges: Seq<Seq<(u8, u8)>>,
    board: Seq<u8>,
    dead: Seq<u8>,
    s: rng::State,
    attempts: int,
)
    requires
        can_be_drawn(ranges, board, dead),
        equity::go_together(ranges, board, dead),
    ensures
        ({
            let h = equity::deal(ranges, board, dead, s, attempts).0;
            &&& equity::is_joint(ranges, board, dead, h)
            &&& equity::first_joint(ranges, board, dead, seq![], 0) == Some(h) || exists|
                t: rng::State,
            | #[trigger]
                equity::attempt(ranges, board, dead, t, ranges.len() as int).0 == Some(h)
        }),
    decreases attempts,
{
    let n = ranges.len() as int;
    if attempts <= 0 {
        equity::lemma_search_decides(ranges, board, dead);
    } else {
        let (h, t) = equity::attempt(ranges, board, dead, s, n);
        lemma_attempt(ranges, board, dead, s, n);
        if h is Some {
            let at = places(ranges, s, n).0;
            assert forall|i: int| 0 <= i < n implies ranges[i].contains(#[trigger] (h->0)[i]) by {
                assert((h->0)[i] == ranges[i][at[i]]);
            }
            assert(equity::attempt(ranges, board, dead, s, n).0 == Some(h->0));
        } else {
            law_deals_are_joint_holdings(ranges, board, dead, t, attempts - 1);
        }
    }
}

/// Two ranges of which no holdings go together cannot be dealt.
pub proof fn law_clashing_ranges_cannot_be_dealt(
    ranges: Seq<Seq<(u8, u8)>>,
    board: Seq<u8>,
    dead: Seq<u8>,
)
    requires
        ranges.len() >= 2,
        forall|i: int, j: int|
            0 <= i < ranges[0].len() && 0 <= j < ranges[1].len() ==> equity::share_a_card(
                #[trigger] ranges[0][i],
                #[trigger] ranges[1][j],
            ),
    ensures
        !equity::go_together(ranges, board, dead),
{
    if equity::go_together(ranges, board, dead) {
        let h = choose|h: Seq<(u8, u8)>| #[trigger] equity::is_joint(ranges, board, dead, h);
        let all = equity::known(h, board, dead);
        equity::lemma_cards_of(h);
        assert(ranges[0].contains(h[0]) && ranges[1].contains(h[1]));
        let i = ranges[0].index_of(h[0]);
        let j = ranges[1].index_of(h[1]);
        assert(equity::share_a_card(ranges[0][i], ranges[1][j]));
        assert(all[0] == h[0].0 && all[1] == h[0].1);
        assert(all[2] == h[1].0 && all[3] == h[1].1);
    }
}

/// One of the six numbers counted for two players, equity, wins and ties of the
/// first and of the second.
spec fn number(rows: Seq<Seq<int>>, m: int) -> int {
    let t = tally::tally_of(rows, 2);
    if m == 0 {
        t.equity[0]
    } else if m == 1 {
        t.equity[1]
    } else if m == 2 {
        t.wins[0]
    } else if m == 3 {
        t.wins[1]
    } else if m == 4 {
        t.ties[0]
    } else {
        t.ties[1]
    }
}

/// The same number of the other player.
spec fn of_other(m: int) -> int {
    if m % 2 == 0 {
        m + 1
    } else {
        m - 1
    }
}

proof fn lemma_number_adds(a: Seq<Seq<int>>, b: Seq<Seq<int>>, m: int)
    requires
        tally::are_rows(a, 2),
        tally::are_rows(b, 2),
    ensures
        number(a + b, m) == number(a, m) + number(b, m),
{
    tally::law_counts_add_up(a, b, 2);
}

proof fn lemma_rows_append(a: Seq<Seq<int>>, b: Seq<Seq<int>>)
    requires
        tally::are_rows(a, 2),
        tally::are_rows(b, 2),
    ensures
        tally::are_rows(a + b, 2),
{
    assert forall|k: int| 0 <= k < (a + b).len() implies (#[trigger] (a + b)[k]).len() == 2 by {
        if k < a.len() {
            assert((a + b)[k] == a[k]);
        } else {
            assert((a + b)[k] == b[k - a.len()]);
        }
    }
}

proof fn lemma_outside_congruent(a: Seq<u8>, b: Seq<u8>, n: int)
    requires
        forall|c: u8| #[trigger] a.contains(c) <==> b.contains(c),
    ensures
        equity::outside(a, n) == equity::outside(b, n),
    decreases n,
{
    if n > 0 {
        lemma_outside_congruent(a, b, n - 1);
        assert(a.contains((n - 1) as u8) <==> b.contains((n - 1) as u8));
    }
}

/// Seats exchanged, the hands show down the same.
proof fn lemma_exchange(a: (u8, u8), b: (u8, u8), board: Seq<u8>, dead: Seq<u8>, m: int)
    requires
        0 <= m < 6,
    ensures
        tally::are_rows(equity::exact_showdowns(equity::two(a, b), board, dead), 2),
        number(equity::exact_showdowns(equity::two(b, a), board, dead), of_other(m)) == number(
            equity::exact_showdowns(equity::two(a, b), board, dead),
            m,
        ),
{
    let x = equity::known(equity::two(a, b), board, dead);
    let y = equity::known(equity::two(b, a), board, dead);
    let none: Seq<(u8, u8)> = seq![];
    equity::lemma_known_push(none, board, dead, a);
    equity::lemma_known_push(none.push(a), board, dead, b);
    equity::lemma_known_push(none, board, dead, b);
    equity::lemma_known_push(none.push(b), board, dead, a);
    assert(none.push(a).push(b) =~= equity::two(a, b));
    assert(none.push(b).push(a) =~= equity::two(b, a));
    assert forall|c: u8| #[trigger] x.contains(c) <==> y.contains(c) by {
        assert(equity::known(none.push(a), board, dead).contains(c) <==> equity::known(
            none,
            board,
            dead,
        ).contains(c) || c == a.0 || c == a.1);
        assert(equity::known(none.push(b), board, dead).contains(c) <==> equity::known(
            none,
            board,
            dead,
        ).contains(c) || c == b.0 || c == b.1);
    }
    lemma_outside_congruent(x, y, 52);
    let rows = equity::exact_showdowns(equity::two(a, b), board, dead);
    let others = equity::exact_showdowns(equity::two(b, a), board, dead);
    let p = seq![1int, 0int];
    assert forall|k: int| 0 <= k < rows.len() implies #[trigger] others[k] == tally::reordered(
        rows[k],
        p,
    ) by {
        assert(others[k] =~= tally::reordered(rows[k], p));
    }
    tally::law_reordered_seats_reorder_counts(rows, others, p, 2);
}

/// What one pair of holdings adds to a number.
spec fn cell(a: (u8, u8), b: (u8, u8), board: Seq<u8>, dead: Seq<u8>, m: int) -> int {
    if equity::share_a_card(a, b) {
        0
    } else {
        number(equity::exact_showdowns(equity::two(a, b), board, dead), m)
    }
}

/// What the pairs of one holding with a list of others add to a number.
spec fn row_of(
    a: (u8, u8),
    others: Seq<(u8, u8)>,
    board: Seq<u8>,
    dead: Seq<u8>,
    m: int,
) -> int
    decreases others.len(),
{
    if others.len() == 0 {
        0
    } else {
        row_of(a, others.drop_last(), board, dead, m) + cell(a, others.last(), board, dead, m)
    }
}

proof fn lemma_row_of(
    a: (u8, u8),
    others: Seq<(u8, u8)>,
    board: Seq<u8>,
    dead: Seq<u8>,
    m: int,
)
    requires
        0 <= m < 6,
    ensures
        tally::are_rows(equity::showdowns_against(a, others, board, dead), 2),
        number(equity::showdowns_against(a, others, board, dead), m) == row_of(
            a,
            others,
            board,
            dead,
            m,
        ),
    decreases others.len(),
{
    if others.len() > 0 {
        let before = equity::showdowns_against(a, others.drop_last(), board, dead);
        lemma_row_of(a, others.drop_last(), board, dead, m);
        lemma_exchange(a, others.last(), board, dead, m);
        let none: Seq<Seq<int>> = seq![];
        let more = if equity::share_a_card(a, others.last()) {
            none
        } else {
            equity::exact_showdowns(equity::two(a, others.last()), board, dead)
        };
        lemma_number_adds(before, more, m);
        lemma_rows_append(before, more);
    }
}

proof fn lemma_pair_rows(
    holdings: Seq<(u8, u8)>,
    others: Seq<(u8, u8)>,
    board: Seq<u8>,
    dead: Seq<u8>,
    m: int,
)
    requires
        0 <= m < 6,
        holdings.len() > 0,
    ensures
        tally::are_rows(equity::pair_showdowns(holdings.drop_last(), others, board, dead), 2),
        tally::are_rows(equity::pair_showdowns(holdings, others, board, dead), 2),
        number(equity::pair_showdowns(holdings, others, board, dead), m) == number(
            equity::pair_showdowns(holdings.drop_last(), others, board, dead),
            m,
        ) + row_of(holdings.last(), others, board, dead, m),
    decreases holdings.len(),
{
    let before = equity::pair_showdowns(holdings.drop_last(), others, board, dead);
    let more = equity::showdowns_against(holdings.last(), others, board, dead);
    if holdings.len() > 1 {
        lemma_pair_rows(holdings.drop_last(), others, board, dead, m);
    }
    lemma_row_of(holdings.last(), others, board, dead, m);
    lemma_number_adds(before, more, m);
    lemma_rows_append(before, more);
}

/// One more holding to play against adds a row, seen from the other side.
proof fn lemma_one_more(
    holdings: Seq<(u8, u8)>,
    others: Seq<(u8, u8)>,
    board: Seq<u8>,
    dead: Seq<u8>,
    m: int,
)
    requires
        0 <= m < 6,
        others.len() > 0,
    ensures
        number(equity::pair_showdowns(holdings, others, board, dead), m) == number(
            equity::pair_showdowns(holdings, others.drop_last(), board, dead),
            m,
        ) + row_of(others.last(), holdings, board, dead, of_other(m)),
    decreases holdings.len(),
{
    if holdings.len() > 0 {
        let a = holdings.last();
        let b = others.last();
        lemma_pair_rows(holdings, others, board, dead, m);
        lemma_pair_rows(holdings, others.drop_last(), board, dead, m);
        lemma_one_more(holdings.drop_last(), others, board, dead, m);
        lemma_exchange(a, b, board, dead, m);
        assert(equity::share_a_card(a, b) <==> equity::share_a_card(b, a));
    }
}

proof fn lemma_swap(
    holdings: Seq<(u8, u8)>,
    others: Seq<(u8, u8)>,
    board: Seq<u8>,
    dead: Seq<u8>,
    m: int,
)
    requires
        0 <= m < 6,
    ensures
        number(equity::pair_showdowns(holdings, others, board, dead), m) == number(
            equity::pair_showdowns(others, holdings, board, dead),
            of_other(m),
        ),
    decreases others.len(),
{
    if others.len() == 0 {
        lemma_no_others(holdings, others, board, dead);
    } else {
        lemma_swap(holdings, others.drop_last(), board, dead, m);
        lemma_one_more(holdings, others, board, dead, m);
        lemma_pair_rows(others, holdings, board, dead, of_other(m));
    }
}

proof fn lemma_no_others(
    holdings: Seq<(u8, u8)>,
    others: Seq<(u8, u8)>,
    board: Seq<u8>,
    dead: Seq<u8>,
)
    requires
        others.len() == 0,
    ensures
        equity::pair_showdowns(holdings, others, board, dead) == Seq::<Seq<int>>::empty(),
        equity::pair_showdowns(others, holdings, board, dead) == Seq::<Seq<int>>::empty(),
    decreases holdings.len(),
{
    if holdings.len() > 0 {
        lemma_no_others(holdings.drop_last(), others, board, dead);
        assert(equity::pair_showdowns(holdings, others, board, dead) =~= Seq::<
            Seq<int>,
        >::empty());
    }
}

/// Which range is named first makes no difference: with the ranges exchanged, so
/// is all that is counted. In particular equal ranges split evenly.
pub proof fn law_exchanged_ranges_exchange_equities(
    holdings: Seq<(u8, u8)>,
    others: Seq<(u8, u8)>,
    board: Seq<u8>,
    dead: Seq<u8>,
)
    ensures
        ({
            let t = tally::tally_of(equity::pair_showdowns(holdings, others, board, dead), 2);
            let u = tally::tally_of(equity::pair_showdowns(others, holdings, board, dead), 2);
            &&& t.equity[0] == u.equity[1] && t.equity[1] == u.equity[0]
            &&& t.wins[0] == u.wins[1] && t.wins[1] == u.wins[0]
            &&& t.ties[0] == u.ties[1] && t.ties[1] == u.ties[0]
            &&& holdings == others ==> t.equity[0] == t.equity[1]
        }),
{
    lemma_swap(holdings, others, board, dead, 0);
    lemma_swap(holdings, others, board, dead, 1);
    lemma_swap(holdings, others, board, dead, 2);
    lemma_swap(holdings, others, board, dead, 3);
    lemma_swap(holdings, others, board, dead, 4);
    lemma_swap(holdings, others, board, dead, 5);
}

} // verus!
