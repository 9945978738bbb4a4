//! What a showdown pays, from the chips that are in and the cards that are shown.

use vstd::prelude::*;

use crate::eval;
use crate::game::{Player, Status};
use crate::play;
use crate::pots;
use crate::pots::PotModel;
use crate::settle;
use crate::strength;
use crate::table;
use crate::table::Table;

verus! {

/// The seven cards of a seat: the board and both hole cards.
pub open spec fn own_cards(t: Table, i: int) -> Seq<u8> {
    seq![
        t.board[0],
        t.board[1],
        t.board[2],
        t.board[3],
        t.board[4],
        t.players[i].hole[0],
        t.players[i].hole[1],
    ]
}

/// The best five of some cards score `x`.
pub open spec fn is_best_five(cards: Seq<u8>, x: int) -> bool {
    &&& exists|five: Seq<u8>| #[trigger]
        strength::is_five_of(five, cards) && eval::hand_score(five) == x
    &&& forall|five: Seq<u8>| #[trigger]
        strength::is_five_of(five, cards) ==> eval::hand_score(five) <= x
}

/// A hand that can be shown down: two or more players are live, five cards are on
/// the board, and everyone who is live holds two more.
pub open spec fn can_be_shown(t: Table) -> bool {
    &&& t.players.len() <= usize::MAX
    &&& 0 <= t.button
    &&& play::two_are_live(t.players)
    &&& t.board.len() == 5
    &&& forall|i: int|
        0 <= i < t.players.len() && (#[trigger] t.players[i]).status != Status::Folded
            ==> strength::is_hand(own_cards(t, i))
}

/// What the best five cards of every live seat score.
pub open spec fn are_bests(t: Table, best: Seq<int>) -> bool {
    &&& best.len() == t.players.len()
    &&& forall|i: int|
        #![trigger best[i]]
        0 <= i < t.players.len() && t.players[i].status != Status::Folded ==> is_best_five(
            own_cards(t, i),
            best[i],
        )
}

/// How many seats after the button a seat is: the button itself comes last.
pub open spec fn after_button(button: int, i: int, n: int) -> int {
    if i > button % n {
        i - button % n
    } else {
        i - button % n + n
    }
}

/// The seat can win the pot and nobody who can has a better hand.
pub open spec fn wins_pot(pot: PotModel, best: Seq<int>, i: int) -> bool {
    &&& exists|k: int| 0 <= k < pot.eligible.len() && #[trigger] pot.eligible[k] == i
    &&& forall|k: int| 0 <= k < pot.eligible.len() ==> best[#[trigger] pot.eligible[k] as int] <= best[i]
}

/// The shares are a fair split of the pot: all of it goes out, only to its
/// winners, to no two of them more than a chip apart, and those who get the chip
/// more sit before those who do not, counted from the left of the button.
pub open spec fn is_fair_split(pot: PotModel, best: Seq<int>, button: int, share: Seq<int>) -> bool {
    let n = best.len() as int;
    &&& share.len() == n
    &&& settle::sum(share) == pot.amount
    &&& forall|i: int| 0 <= i < n ==> #[trigger] share[i] >= 0
    &&& forall|i: int| 0 <= i < n && #[trigger] share[i] > 0 ==> wins_pot(pot, best, i)
    &&& forall|i: int, j: int|
        0 <= i < n && 0 <= j < n && wins_pot(pot, best, i) && wins_pot(pot, best, j)
            ==> #[trigger] share[i] <= #[trigger] share[j] + 1
    &&& forall|i: int, j: int|
        0 <= i < n && 0 <= j < n && wins_pot(pot, best, i) && wins_pot(pot, best, j)
            && #[trigger] share[i] > #[trigger] share[j] ==> after_button(button, i, n)
            < after_button(button, j, n)
}

/// What is in of `chips` from one level up to another.
pub open spec fn part_between(chips: int, floor: int, top: int) -> int {
    if chips <= floor {
        0
    } else {
        play::least(chips, top) - floor
    }
}

/// What all players have in from one level up to another.
pub open spec fn all_between(players: Seq<Player>, floor: int, top: int) -> int {
    settle::sum(players.map_values(|p: Player| part_between(p.committed as int, floor, top)))
}

/// A pot of those who are in for at least `level`: these seats, in order, can win
/// it, and it holds what everyone has in from `floor` up to `top`.
pub open spec fn is_pot_of(
    pot: PotModel,
    players: Seq<Player>,
    floor: int,
    level: int,
    top: int,
) -> bool {
    &&& pot.amount == all_between(players, floor, top)
    &&& forall|a: int, b: int|
        0 <= a < b < pot.eligible.len() ==> #[trigger] pot.eligible[a] < #[trigger] pot.eligible[b]
    &&& forall|seat: usize| #[trigger]
        pot.eligible.contains(seat) <==> {
            &&& seat < players.len()
            &&& players[seat as int].status != Status::Folded
            &&& players[seat as int].committed >= level
        }
}

/// Where a pot starts: where the one below it ends.
pub open spec fn floor_of(levels: Seq<int>, from: int, k: int) -> int {
    if k == 0 {
        from
    } else {
        levels[k - 1]
    }
}

/// Where a pot ends: at its level, and for the last one nowhere, so that it takes
/// what folded players have in beyond.
pub open spec fn top_of(levels: Seq<int>, k: int) -> int {
    if k == levels.len() - 1 {
        u32::MAX as int
    } else {
        levels[k]
    }
}

/// The levels are what live players have in beyond `from`, from the lowest up.
pub open spec fn are_levels(players: Seq<Player>, from: int, levels: Seq<int>) -> bool {
    &&& forall|a: int, b: int|
        0 <= a < b < levels.len() ==> #[trigger] levels[a] < #[trigger] levels[b]
    &&& forall|a: int|
        0 <= a < levels.len() ==> #[trigger] levels[a] > from && exists|i: int|
            0 <= i < players.len() && (#[trigger] players[i]).status != Status::Folded
                && players[i].committed == levels[a]
    &&& forall|i: int|
        0 <= i < players.len() && (#[trigger] players[i]).status != Status::Folded
            && players[i].committed > from ==> levels.contains(players[i].committed as int)
}

proof fn lemma_layer_is_part(players: Seq<Player>, floor: int, top: int)
    requires
        floor <= top,
    ensures
        pots::layer_sum(players, floor, top) == all_between(players, floor, top),
    decreases players.len(),
{
    let f = |p: Player| part_between(p.committed as int, floor, top);
    if players.len() > 0 {
        lemma_layer_is_part(players.drop_last(), floor, top);
        assert(players.map_values(f).drop_last() =~= players.drop_last().map_values(f));
    }
}

proof fn lemma_eligible_rises(players: Seq<Player>, level: int)
    requires
        players.len() <= usize::MAX,
    ensures
        forall|a: int, b: int|
            0 <= a < b < pots::eligible_at(players, level).len() ==> #[trigger] pots::eligible_at(
                players,
                level,
            )[a] < #[trigger] pots::eligible_at(players, level)[b],
    decreases players.len(),
{
    if players.len() > 0 {
        let f = pots::eligible_at(players.drop_last(), level);
        lemma_eligible_rises(players.drop_last(), level);
        pots::lemma_eligible_at(players.drop_last(), level);
    }
}

proof fn lemma_is_pot_of(players: Seq<Player>, from: int, level: int)
    requires
        players.len() <= usize::MAX,
        0 <= from < level <= u32::MAX,
    ensures
        is_pot_of(
            pots::pot_at(players, from, level),
            players,
            from,
            level,
            pots::reach(players, level),
        ),
{
    lemma_layer_is_part(players, from, pots::reach(players, level));
    lemma_eligible_rises(players, level);
    pots::lemma_eligible_at(players, level);
    let e = pots::eligible_at(players, level);
    assert forall|seat: usize| #[trigger] e.contains(seat) implies seat < players.len()
        && players[seat as int].status != Status::Folded && players[seat as int].committed
        >= level by {
        let k = e.index_of(seat);
        assert(e[k] == seat);
    }
}

/// The side pots are the layers of what is in: one for each sum that a live player
/// is in for, from the lowest up, open to those who are in for as much.
pub proof fn law_side_pots_are_layers(players: Seq<Player>) -> (levels: Seq<int>)
    requires
        players.len() <= usize::MAX,
    ensures
        are_levels(players, 0, levels),
        pots::pots_of(players).len() == levels.len(),
        forall|k: int|
            0 <= k < levels.len() ==> is_pot_of(
                #[trigger] pots::pots_of(players)[k],
                players,
                floor_of(levels, 0, k),
                levels[k],
                top_of(levels, k),
            ),
{
    lemma_pots_are_layers(players, 0)
}

#[verifier::rlimit(40)]
proof fn lemma_pots_are_layers(players: Seq<Player>, from: int) -> (levels: Seq<int>)
    requires
        players.len() <= usize::MAX,
        0 <= from <= u32::MAX,
    ensures
        are_levels(players, from, levels),
        pots::pots_above(players, from).len() == levels.len(),
        forall|k: int|
            0 <= k < levels.len() ==> is_pot_of(
                #[trigger] pots::pots_above(players, from)[k],
                players,
                floor_of(levels, from, k),
                levels[k],
                top_of(levels, k),
            ),
    decreases u32::MAX - from,
{
    pots::lemma_next_level(players, from);
    match pots::next_level(players, from) {
        None => {
            seq![]
        },
        Some(level) => {
            let rest = lemma_pots_are_layers(players, level);
            let levels = seq![level] + rest;
            let all = pots::pots_above(players, from);
            pots::lemma_next_level(players, level);
            lemma_is_pot_of(players, from, level);
            assert(rest.len() == 0 <==> pots::next_level(players, level) is None);
            assert forall|a: int| 0 <= a < levels.len() implies #[trigger] levels[a] > from
                && exists|i: int|
                0 <= i < players.len() && (#[trigger] players[i]).status != Status::Folded
                    && players[i].committed == levels[a] by {
                if a == 0 {
                    let i = choose|i: int|
                        0 <= i < players.len() && table::is_live(#[trigger] players[i])
                            && players[i].committed == level;
                    assert(players[i].status != Status::Folded && players[i].committed == levels[a]);
                } else {
                    assert(levels[a] == rest[a - 1]);
                }
            }
            assert forall|i: int|
                0 <= i < players.len() && (#[trigger] players[i]).status != Status::Folded
                    && players[i].committed > from implies levels.contains(
                players[i].committed as int,
            ) by {
                assert(table::is_live(players[i]));
                if players[i].committed == level {
                    assert(levels[0] == level);
                } else {
                    let a = rest.index_of(players[i].committed as int);
                    assert(levels[a + 1] == rest[a]);
                }
            }
            assert forall|k: int| 0 <= k < levels.len() implies is_pot_of(
                #[trigger] all[k],
                players,
                floor_of(levels, from, k),
                levels[k],
                top_of(levels, k),
            ) by {
                if k == 0 {
                    assert(all[0] == pots::pot_at(players, from, level));
                } else {
                    let above = pots::pots_above(players, level);
                    assert(all[k] == above[k - 1]);
                    assert(levels[k] == rest[k - 1]);
                    assert(floor_of(levels, from, k) == floor_of(rest, level, k - 1));
                    assert(top_of(levels, k) == top_of(rest, k - 1));
                }
            }
            levels
        },
    }
}

/// What the model shows down is the best five of the board and both hole cards.
proof fn lemma_strengths_are_bests(t: Table, best: Seq<int>)
    requires
        can_be_shown(t),
        are_bests(t, best),
    ensures
        pots::strengths(t).len() == best.len(),
        forall|i: int|
            0 <= i < t.players.len() && (#[trigger] t.players[i]).status != Status::Folded
                ==> pots::strengths(t)[i] == best[i],
{
    assert forall|i: int|
        0 <= i < t.players.len() && (#[trigger] t.players[i]).status != Status::Folded implies
        pots::strengths(t)[i] == best[i] by {
        let cards = own_cards(t, i);
        assert(pots::seven(t.board, t.players[i]) =~= cards);
        strength::law_score_is_that_of_the_best_five(cards);
        assert(is_best_five(cards, best[i]));
        let five = choose|five: Seq<u8>| #[trigger]
            strength::is_five_of(five, cards) && eval::hand_score(five) == best[i];
        let other = choose|five: Seq<u8>| #[trigger]
            strength::is_five_of(five, cards) && eval::hand_score(five) == eval::hand_score(cards);
        assert(strength::is_five_of(five, cards) && strength::is_five_of(other, cards));
    }
}

proof fn lemma_winner_wins(pot: PotModel, t: Table, best: Seq<int>, i: int)
    requires
        can_be_shown(t),
        are_bests(t, best),
        0 <= i < t.players.len(),
        forall|k: int|
            0 <= k < pot.eligible.len() ==> {
                let seat = #[trigger] pot.eligible[k];
                seat < t.players.len() && table::is_live(t.players[seat as int])
            },
    ensures
        pots::is_winner(pot.eligible, pots::strengths(t), i) <==> wins_pot(pot, best, i),
{
    lemma_strengths_are_bests(t, best);
    let e = pot.eligible;
    let s = pots::strengths(t);
    assert forall|k: int| 0 <= k < e.len() implies s[#[trigger] e[k] as int] == best[e[k] as int] by {
        assert(t.players[e[k] as int].status != Status::Folded);
    }
    if pots::is_winner(e, s, i) {
        let k = e.index_of(i as usize);
        assert(e[k] == i);
        assert(s[i] == best[i]);
    }
    if wins_pot(pot, best, i) {
        let k = choose|k: int| 0 <= k < e.len() && #[trigger] e[k] == i;
        assert(e.contains(e[k]));
        assert(s[i] == best[i]);
    }
}

#[verifier::rlimit(40)]
proof fn lemma_fair_split(pot: PotModel, t: Table, best: Seq<int>)
    requires
        can_be_shown(t),
        are_bests(t, best),
        pot.eligible.len() > 0,
        pot.amount >= 0,
        forall|k: int|
            0 <= k < pot.eligible.len() ==> {
                let seat = #[trigger] pot.eligible[k];
                seat < t.players.len() && table::is_live(t.players[seat as int])
            },
    ensures
        is_fair_split(
            pot,
            best,
            t.button,
            settle::shares(
                pot,
                pots::strengths(t),
                table::seat_after(t.button, 1, t.players.len() as int),
            ),
        ),
{
    let n = t.players.len() as int;
    let s = pots::strengths(t);
    let first = table::seat_after(t.button, 1, n);
    let share = settle::shares(pot, s, first);
    lemma_strengths_are_bests(t, best);
    lemma_first(t.button, n);
    settle::law_pot_is_shared_out(pot, s, first);
    pots::lemma_winners(pot.eligible, s, first);
    assert forall|i: int| 0 <= i < n implies #[trigger] share[i] >= 0 && (share[i] > 0
        ==> wins_pot(pot, best, i)) by {
        pots::lemma_share_positive(pot, s, first, i);
        lemma_winner_wins(pot, t, best, i);
    }
    assert forall|i: int, j: int|
        0 <= i < n && 0 <= j < n && wins_pot(pot, best, i) && wins_pot(pot, best, j) implies
        #[trigger] share[i] <= #[trigger] share[j] + 1 && (share[i] > share[j] ==> after_button(
        t.button,
        i,
        n,
    ) < after_button(t.button, j, n)) by {
        lemma_winner_wins(pot, t, best, i);
        lemma_winner_wins(pot, t, best, j);
        lemma_distance(t.button, i, n);
        lemma_distance(t.button, j, n);
        if pots::distance(first, i, n) <= pots::distance(first, j, n) {
            settle::law_pot_is_split_evenly(pot, s, first, i, j);
        }
        if pots::distance(first, j, n) <= pots::distance(first, i, n) {
            settle::law_pot_is_split_evenly(pot, s, first, j, i);
        }
    }
}

proof fn lemma_first(button: int, n: int)
    requires
        0 <= button,
        0 < n,
    ensures
        0 <= button % n < n,
        table::seat_after(button, 1, n) == if button % n + 1 < n {
            button % n + 1
        } else {
            0
        },
{
    let b = button % n;
    vstd::arithmetic::div_mod::lemma_mod_bound(button, n);
    vstd::arithmetic::div_mod::lemma_add_mod_noop_right(1, button, n);
    if b + 1 < n {
        vstd::arithmetic::div_mod::lemma_small_mod((b + 1) as nat, n as nat);
    } else {
        vstd::arithmetic::div_mod::lemma_mod_self_0(n);
    }
}

proof fn lemma_distance(button: int, i: int, n: int)
    requires
        0 <= button,
        0 <= i < n,
    ensures
        pots::distance(table::seat_after(button, 1, n), i, n) == after_button(button, i, n) - 1,
{
    lemma_first(button, n);
}

proof fn lemma_shares_sum(all: Seq<PotModel>, s: Seq<int>, first: int, i: int)
    requires
        0 <= i < s.len(),
    ensures
        pots::shares_of(all, s, first, i) == settle::sum(
            Seq::new(all.len(), |k: int| settle::shares(all[k], s, first)[i]),
        ),
    decreases all.len(),
{
    let f = |k: int| settle::shares(all[k], s, first)[i];
    if all.len() > 0 {
        let before = all.drop_last();
        lemma_shares_sum(before, s, first, i);
        assert(Seq::new(all.len(), f).drop_last() =~= Seq::new(
            before.len(),
            |k: int| settle::shares(before[k], s, first)[i],
        ));
    }
}

/// A showdown splits every pot fairly among those with the best five cards, of the
/// board and both their own, and pays every seat its shares.
#[verifier::rlimit(40)]
pub proof fn law_showdowns_pay_the_best_hands(t: Table, best: Seq<int>) -> (shares: Seq<Seq<int>>)
    requires
        can_be_shown(t),
        are_bests(t, best),
    ensures
        shares.len() == pots::pots_of(t.players).len(),
        forall|k: int|
            0 <= k < shares.len() ==> is_fair_split(
                pots::pots_of(t.players)[k],
                best,
                t.button,
                #[trigger] shares[k],
            ),
        forall|i: int|
            0 <= i < t.players.len() ==> #[trigger] pots::payout(t, i) == settle::sum(
                shares.map_values(|share: Seq<int>| share[i]),
            ),
{
    let n = t.players.len() as int;
    let all = pots::pots_of(t.players);
    let s = pots::strengths(t);
    let first = table::seat_after(t.button, 1, n);
    let shares = Seq::new(all.len(), |k: int| settle::shares(all[k], s, first));
    play::lemma_counts(t.players);
    assert forall|k: int| 0 <= k < shares.len() implies is_fair_split(
        all[k],
        best,
        t.button,
        #[trigger] shares[k],
    ) by {
        settle::law_pots_are_for_live_seats(t.players, k, k);
        lemma_fair_split(all[k], t, best);
    }
    assert forall|i: int| 0 <= i < n implies #[trigger] pots::payout(t, i) == settle::sum(
        shares.map_values(|share: Seq<int>| share[i]),
    ) by {
        lemma_shares_sum(all, s, first, i);
        assert(shares.map_values(|share: Seq<int>| share[i]) =~= Seq::new(
            all.len(),
            |k: int| settle::shares(all[k], s, first)[i],
        ));
    }
    shares
}

/// A hand that is beaten by one that is in for as much is paid nothing, and
/// neither is one that was folded.
#[verifier::rlimit(40)]
pub proof fn law_beaten_hands_are_paid_nothing(t: Table, best: Seq<int>, i: int, j: int)
    requires
        can_be_shown(t),
        are_bests(t, best),
        0 <= i < t.players.len(),
        0 <= j < t.players.len(),
        t.players[i].status == Status::Folded || {
            &&& t.players[j].status != Status::Folded
            &&& t.players[j].committed >= t.players[i].committed
            &&& best[j] > best[i]
        },
    ensures
        pots::payout(t, i) == 0,
{
    let all = pots::pots_of(t.players);
    let shares = law_showdowns_pay_the_best_hands(t, best);
    let levels = law_side_pots_are_layers(t.players);
    let mine = shares.map_values(|share: Seq<int>| share[i]);
    assert forall|k: int| 0 <= k < mine.len() implies #[trigger] mine[k] == 0 by {
        let pot = all[k];
        let share = shares[k];
        assert(is_fair_split(pot, best, t.button, share));
        assert(mine[k] == share[i]);
        if share[i] > 0 {
            assert(wins_pot(pot, best, i));
            let m = choose|m: int| 0 <= m < pot.eligible.len() && #[trigger] pot.eligible[m] == i;
            assert(pot.eligible.contains(pot.eligible[m]));
            assert(pot.eligible.contains(j as usize));
            let l = pot.eligible.index_of(j as usize);
            assert(best[pot.eligible[l] as int] <= best[i]);
        }
    }
    settle::lemma_sum_zeros(mine);
}

/// A player who is left alone takes all that was put in, with no cards shown.
pub proof fn law_last_player_takes_the_pot(t: Table, i: int, j: int)
    requires
        0 <= i < t.players.len(),
        0 <= j < t.players.len(),
        t.players[i].status != Status::Folded,
        forall|k: int|
            0 <= k < t.players.len() && k != i ==> (#[trigger] t.players[k]).status
                == Status::Folded,
    ensures
        pots::payout(t, i) == settle::sum(
            t.players.map_values(|p: Player| p.committed as int),
        ),
        j != i ==> pots::payout(t, j) == 0,
{
    play::lemma_counts(t.players);
    play::law_pot_is_what_was_put_in(t.players);
}

/// Where everyone has folded nobody is paid.
pub proof fn law_nobody_left_is_paid_nothing(t: Table, i: int)
    requires
        t.players.len() <= usize::MAX,
        0 <= i < t.players.len(),
        forall|k: int|
            0 <= k < t.players.len() ==> (#[trigger] t.players[k]).status == Status::Folded,
    ensures
        pots::payout(t, i) == 0,
{
    settle::law_nobody_wins_more_than_they_matched(t, i, i);
}

} // verus!
