//! The betting rules, seat by seat: what every call may change and what it must.
//!
//! These laws speak of seats, chips and cards alone, so each says on its own what
//! a call is for.

use vstd::prelude::*;

use crate::card::NO_CARD;
use crate::game::{Action, Player, Status, Street};
use crate::rounds;
use crate::settle;
use crate::table;
use crate::table::Table;

verus! {

/// The seat `d` places on from seat `i` at a table of `n`.
pub open spec fn on_from(i: int, d: int, n: int) -> int {
    if i + d < n {
        i + d
    } else {
        i + d - n
    }
}

/// Seat `seat` is the first one after seat `from`, going round to `from` itself,
/// whose player can act: nobody in between can.
pub open spec fn is_next_able(players: Seq<Player>, from: int, seat: int) -> bool {
    exists|d: int| #[trigger] is_next_able_at(players, from, seat, d)
}

pub open spec fn is_next_able_at(players: Seq<Player>, from: int, seat: int, d: int) -> bool {
    let n = players.len() as int;
    &&& 1 <= d <= n
    &&& seat == on_from(from, d, n)
    &&& players[seat].status == Status::Active
    &&& forall|e: int| 1 <= e < d ==> players[#[trigger] on_from(from, e, n)].status != Status::Active
}

/// Two different players have not folded.
pub open spec fn two_are_live(players: Seq<Player>) -> bool {
    exists|i: int, j: int|
        0 <= i < j < players.len() && (#[trigger] players[i]).status != Status::Folded && (
        #[trigger] players[j]).status != Status::Folded
}

/// Two different players can act.
pub open spec fn two_are_able(players: Seq<Player>) -> bool {
    exists|i: int, j: int|
        0 <= i < j < players.len() && (#[trigger] players[i]).status == Status::Active && (
        #[trigger] players[j]).status == Status::Active
}

/// The smaller of two numbers.
pub open spec fn least(a: int, b: int) -> int {
    if a < b {
        a
    } else {
        b
    }
}

proof fn lemma_on_from(i: int, d: int, n: int)
    requires
        0 <= i < n,
        0 <= d <= n,
    ensures
        table::seat_after(i, d, n) == on_from(i, d, n),
        0 <= on_from(i, d, n) < n,
{
    if i + d < n {
        vstd::arithmetic::div_mod::lemma_small_mod((i + d) as nat, n as nat);
    } else {
        vstd::arithmetic::div_mod::lemma_mod_sub_multiples_vanish(i + d, n);
        vstd::arithmetic::div_mod::lemma_small_mod((i + d - n) as nat, n as nat);
    }
}

/// The search for the next player starts one seat on.
#[verifier::rlimit(40)]
proof fn lemma_next_able(players: Seq<Player>, from: int)
    requires
        players.len() >= 1,
        0 <= from < players.len(),
    ensures
        ({
            let n = players.len() as int;
            let seat = table::next_active(players, table::seat_after(from, 1, n), 0);
            &&& (exists|i: int| 0 <= i < n && (#[trigger] players[i]).status == Status::Active)
                ==> is_next_able(players, from, seat)
            &&& (forall|i: int| 0 <= i < n ==> (#[trigger] players[i]).status != Status::Active)
                ==> seat == on_from(from, 1, n)
        }),
{
    let n = players.len() as int;
    lemma_on_from(from, 1, n);
    let start = on_from(from, 1, n);
    let c = rounds::lemma_next_active(players, start, 0);
    let seat = table::next_active(players, start, 0);
    assert forall|e: int| 0 <= e < n implies #[trigger] table::seat_after(start, e, n) == on_from(
        from,
        e + 1,
        n,
    ) && 0 <= on_from(from, e + 1, n) < n by {
        lemma_on_from(start, e, n);
    }
    if exists|i: int| 0 <= i < n && (#[trigger] players[i]).status == Status::Active {
        let i = choose|i: int| 0 <= i < n && (#[trigger] players[i]).status == Status::Active;
        if c == n {
            let e = if i >= start {
                i - start
            } else {
                i - start + n
            };
            lemma_on_from(start, e, n);
            assert(table::seat_after(start, e, n) == i);
        }
        assert(table::seat_after(start, c, n) == on_from(from, c + 1, n));
        assert forall|e: int| 1 <= e < c + 1 implies players[#[trigger] on_from(from, e, n)].status
            != Status::Active by {
            assert(table::seat_after(start, e - 1, n) == on_from(from, e, n));
        }
        assert(is_next_able_at(players, from, seat, c + 1));
    }
}

#[verifier::rlimit(40)]
pub proof fn lemma_counts(players: Seq<Player>)
    ensures
        table::live_count(players) >= 2 <==> two_are_live(players),
        table::active_count(players) >= 2 <==> two_are_able(players),
        table::live_count(players) >= 1 <==> exists|i: int|
            0 <= i < players.len() && (#[trigger] players[i]).status != Status::Folded,
        table::active_count(players) >= 1 <==> exists|i: int|
            0 <= i < players.len() && (#[trigger] players[i]).status == Status::Active,
    decreases players.len(),
{
    if players.len() > 0 {
        let b = players.drop_last();
        let m = players.len() - 1;
        lemma_counts(b);
        assert forall|i: int| 0 <= i < m implies #[trigger] b[i] == players[i] by {}
        if two_are_live(b) {
            let (i, j) = choose|i: int, j: int|
                0 <= i < j < b.len() && (#[trigger] b[i]).status != Status::Folded && (
                #[trigger] b[j]).status != Status::Folded;
            assert(players[i].status != Status::Folded && players[j].status != Status::Folded);
        }
        if two_are_able(b) {
            let (i, j) = choose|i: int, j: int|
                0 <= i < j < b.len() && (#[trigger] b[i]).status == Status::Active && (
                #[trigger] b[j]).status == Status::Active;
            assert(players[i].status == Status::Active && players[j].status == Status::Active);
        }
        if table::live_count(b) >= 1 {
            let i = choose|i: int| 0 <= i < b.len() && (#[trigger] b[i]).status != Status::Folded;
            assert(players[i].status != Status::Folded);
        }
        if table::active_count(b) >= 1 {
            let i = choose|i: int| 0 <= i < b.len() && (#[trigger] b[i]).status == Status::Active;
            assert(players[i].status == Status::Active);
        }
        if two_are_live(players) {
            let (i, j) = choose|i: int, j: int|
                0 <= i < j < players.len() && (#[trigger] players[i]).status != Status::Folded && (
                #[trigger] players[j]).status != Status::Folded;
            assert(b[i].status != Status::Folded);
            if j < m {
                assert(b[j].status != Status::Folded);
            }
        }
        if two_are_able(players) {
            let (i, j) = choose|i: int, j: int|
                0 <= i < j < players.len() && (#[trigger] players[i]).status == Status::Active && (
                #[trigger] players[j]).status == Status::Active;
            assert(b[i].status == Status::Active);
            if j < m {
                assert(b[j].status == Status::Active);
            }
        }
        if exists|i: int| 0 <= i < players.len() && (#[trigger] players[i]).status != Status::Folded {
            let i = choose|i: int|
                0 <= i < players.len() && (#[trigger] players[i]).status != Status::Folded;
            if i < m {
                assert(b[i].status != Status::Folded);
            }
        }
        if exists|i: int| 0 <= i < players.len() && (#[trigger] players[i]).status == Status::Active {
            let i = choose|i: int|
                0 <= i < players.len() && (#[trigger] players[i]).status == Status::Active;
            if i < m {
                assert(b[i].status == Status::Active);
            }
        }
        assert(players[m] == players.last());
    }
}

// ---- The end of betting ----

/// Betting is over exactly where fewer than two players are live; or where two
/// can act, once all who can have acted and matched the bet; or where fewer can,
/// once nobody who can owes anything.
pub proof fn law_betting_is_over_exactly_when(t: Table)
    ensures
        t.betting_done() <==> {
            ||| !two_are_live(t.players)
            ||| two_are_able(t.players) && forall|i: int|
                0 <= i < t.players.len() && (#[trigger] t.players[i]).status == Status::Active
                    ==> t.players[i].acted && t.players[i].street_committed == t.bet
            ||| !two_are_able(t.players) && forall|i: int|
                0 <= i < t.players.len() && (#[trigger] t.players[i]).status == Status::Active
                    ==> t.players[i].street_committed >= t.bet
        },
{
    lemma_counts(t.players);
}

/// The hand is over exactly where fewer than two players are live, or the betting
/// on the river is over, or the showdown has come.
pub proof fn law_hand_is_over_exactly_when(t: Table)
    ensures
        t.hand_done() <==> {
            ||| !two_are_live(t.players)
            ||| t.street == Street::River && t.betting_done()
            ||| t.street == Street::Showdown
        },
{
    lemma_counts(t.players);
}

/// On every street, the river too: while two players are live and one who can act
/// has put in less than the bet, neither the betting nor the hand is over.
pub proof fn law_nobody_is_cut_off(t: Table, i: int, j: int, k: int)
    requires
        0 <= i < j < t.players.len(),
        t.players[i].status != Status::Folded,
        t.players[j].status != Status::Folded,
        0 <= k < t.players.len(),
        t.players[k].status == Status::Active,
        t.players[k].street_committed < t.bet,
        t.street != Street::Showdown,
    ensures
        !t.betting_done(),
        !t.hand_done(),
{
    lemma_counts(t.players);
    assert(t.players[i].status != Status::Folded && t.players[j].status != Status::Folded);
    assert(t.players[k].status == Status::Active);
    assert(table::is_active(t.players[k]));
}

/// While two players can act and one of them has not acted, neither the betting
/// nor the hand is over: everyone who can act is asked.
pub proof fn law_everyone_is_asked(t: Table, i: int, j: int, k: int)
    requires
        0 <= i < j < t.players.len(),
        t.players[i].status == Status::Active,
        t.players[j].status == Status::Active,
        0 <= k < t.players.len(),
        t.players[k].status == Status::Active,
        !t.players[k].acted,
        t.street != Street::Showdown,
    ensures
        !t.betting_done(),
        !t.hand_done(),
{
    lemma_counts(t.players);
    assert(t.players[i].status == Status::Active && t.players[j].status == Status::Active);
    assert(two_are_live(t.players));
    assert(table::is_active(t.players[k]));
}

/// A player who is left alone has won: betting and hand are over on any street.
pub proof fn law_last_player_ends_the_hand(t: Table, i: int)
    requires
        0 <= i < t.players.len(),
        forall|j: int|
            0 <= j < t.players.len() && j != i ==> (#[trigger] t.players[j]).status
                == Status::Folded,
    ensures
        t.betting_done(),
        t.hand_done(),
{
    lemma_counts(t.players);
}

/// Before the river a hand in which two players are live is not over.
pub proof fn law_hands_go_to_the_river(t: Table, i: int, j: int)
    requires
        0 <= i < j < t.players.len(),
        t.players[i].status != Status::Folded,
        t.players[j].status != Status::Folded,
        t.street == Street::Preflop || t.street == Street::Flop || t.street == Street::Turn,
    ensures
        !t.hand_done(),
{
    lemma_counts(t.players);
    assert(t.players[i].status != Status::Folded && t.players[j].status != Status::Folded);
}

// ---- The start of a hand ----

/// What a seat has put in once the blinds are posted: the small blind is posted
/// heads-up by the button and else by the seat after it, the big blind by the
/// seat after that one, each as far as the stack goes.
pub open spec fn posted(stacks: Seq<u32>, button: int, sb: u32, bb: u32, i: int) -> int {
    let n = stacks.len() as int;
    let small = if n == 2 {
        button
    } else {
        on_from(button, 1, n)
    };
    if i == small {
        least(sb as int, stacks[i] as int)
    } else if i == on_from(small, 1, n) {
        least(bb as int, stacks[i] as int)
    } else {
        0
    }
}

/// The seat posts a blind: one of the two seats after the button, which heads-up
/// are both seats.
pub open spec fn posts(button: int, n: int, i: int) -> bool {
    i == on_from(button, 1, n) || i == on_from(button, 2, n)
}

/// The seat of the big blind: heads-up the one that is not the button, else the
/// second after the button.
pub open spec fn big_blind(button: int, n: int) -> int {
    if n == 2 {
        on_from(button, 1, n)
    } else {
        on_from(on_from(button, 1, n), 1, n)
    }
}

/// A hand starts with the blinds in and nothing else: every player has the stack
/// less what was posted, no cards and nothing done; the bet is the most that was
/// posted, the least raise a big blind, and the first player after the big blind
/// who can act is to act.
#[verifier::rlimit(40)]
pub proof fn law_hands_start_with_the_blinds(
    stacks: Seq<u32>,
    button: int,
    sb: u32,
    bb: u32,
)
    requires
        stacks.len() >= 2,
        0 <= button < stacks.len(),
        sb <= bb,
        bb > 0,
    ensures
        ({
            let t = table::new_table(stacks, button, sb, bb);
            let n = stacks.len() as int;
            &&& t.players.len() == n
            &&& forall|i: int|
                #![trigger t.players[i]]
                0 <= i < n ==> {
                    let p = t.players[i];
                    let x = posted(stacks, button, sb, bb, i);
                    &&& p.committed == x
                    &&& p.street_committed == x
                    &&& p.stack == stacks[i] - x
                    &&& p.hole[0] == NO_CARD && p.hole[1] == NO_CARD
                    &&& !p.acted
                    &&& p.status == Status::AllIn <==> posts(button, n, i) && p.stack == 0
                    &&& p.status != Status::Folded
                    &&& p.street_committed <= t.bet
                }
            &&& exists|i: int| 0 <= i < n && (#[trigger] t.players[i]).street_committed == t.bet
            &&& t.board.len() == 0
            &&& t.street == Street::Preflop
            &&& t.button == button
            &&& t.last_raise == bb
            &&& t.bb == bb
            &&& (exists|i: int| 0 <= i < n && (#[trigger] t.players[i]).status == Status::Active)
                ==> is_next_able(t.players, big_blind(button, n), t.to_act)
            &&& (forall|i: int| 0 <= i < n ==> (#[trigger] t.players[i]).status != Status::Active)
                ==> t.to_act == on_from(big_blind(button, n), 1, n)
        }),
{
    let t = table::new_table(stacks, button, sb, bb);
    let n = stacks.len() as int;
    lemma_on_from(button, 1, n);
    let s = table::small_blind_seat(button, n);
    lemma_on_from(s, 1, n);
    let b = table::big_blind_seat(button, n);
    assert(b == big_blind(button, n));
    lemma_next_able(t.players, b);
    assert(s != b);
    assert(t.players[s].street_committed == posted(stacks, button, sb, bb, s));
    assert(t.players[b].street_committed == posted(stacks, button, sb, bb, b));
    assert(t.players[s].street_committed == t.bet || t.players[b].street_committed == t.bet);
}

// ---- What may be done ----

/// Another player has chips behind to call a raise with.
pub open spec fn someone_can_call(t: Table) -> bool {
    exists|i: int|
        0 <= i < t.players.len() && i != t.to_act && (#[trigger] t.players[i]).status
            == Status::Active && t.players[i].stack > 0
}

/// The player to act may check where the bet is matched and else fold or call,
/// for what is missing or all-in; and raise, unless they have acted, or have too
/// few chips to get past the bet, or nobody has chips to call: from a raise as
/// large as the last one, or all-in for less, up to all-in.
#[verifier::rlimit(40)]
pub proof fn law_what_may_be_done(t: Table)
    requires
        0 <= t.to_act < t.players.len(),
        t.players[t.to_act].street_committed + t.players[t.to_act].stack <= u32::MAX,
    ensures
        ({
            let p = t.players[t.to_act];
            let may = t.legal();
            let all_in = p.street_committed + p.stack;
            &&& may.check <==> p.street_committed >= t.bet
            &&& may.fold <==> p.street_committed < t.bet
            &&& may.call is Some <==> p.street_committed < t.bet
            &&& may.call matches Some(x) ==> x == least(t.bet - p.street_committed, p.stack as int)
            &&& may.raise is Some <==> all_in > t.bet && !p.acted && someone_can_call(t)
            &&& may.raise matches Some((lo, hi)) ==> hi == all_in && lo == least(
                t.bet + t.last_raise,
                all_in,
            )
            &&& t.allows(Action::Check) <==> p.street_committed >= t.bet
            &&& t.allows(Action::Fold) <==> p.street_committed < t.bet
            &&& t.allows(Action::Call) <==> p.street_committed < t.bet
            &&& forall|to: u32| #[trigger]
                t.allows(Action::RaiseTo(to)) <==> {
                    &&& all_in > t.bet
                    &&& !p.acted
                    &&& someone_can_call(t)
                    &&& to <= all_in
                    &&& to >= t.bet + t.last_raise || to == all_in
                }
        }),
{
}

// ---- What an action does ----

/// What an action brings in: nothing for a check or a fold, for a call what is
/// missing or all that is left, for a raise what is missing to its total.
pub open spec fn brings(t: Table, action: Action) -> int {
    let p = t.players[t.to_act];
    match action {
        Action::Fold => 0,
        Action::Check => 0,
        Action::Call => least(t.bet - p.street_committed, p.stack as int),
        Action::RaiseTo(to) => to - p.street_committed,
    }
}

/// An action moves the actor's chips in, and nothing else: no other player's
/// chips, cards or standing change, nor the board, the street or the button. Who
/// folds is folded, who has no chips left is all-in, and the actor has acted.
#[verifier::rlimit(40)]
pub proof fn law_actions_move_only_the_actors_chips(t: Table, action: Action)
    requires
        0 <= t.to_act < t.players.len(),
        t.allows(action),
        t.players[t.to_act].street_committed + t.players[t.to_act].stack <= u32::MAX,
        t.players[t.to_act].committed + brings(t, action) <= u32::MAX,
        brings(t, action) >= 0,
    ensures
        ({
            let u = t.after_action(action);
            let p = t.players[t.to_act];
            let q = u.players[t.to_act];
            let x = brings(t, action);
            &&& u.players.len() == t.players.len()
            &&& u.board == t.board && u.street == t.street && u.button == t.button && u.bb == t.bb
            &&& q.acted
            &&& q.hole == p.hole
            &&& q.stack == p.stack - x
            &&& q.committed == p.committed + x
            &&& q.street_committed == p.street_committed + x
            &&& action is Fold ==> q.status == Status::Folded
            &&& action is Check ==> q.status == p.status
            &&& action is Call || action is RaiseTo ==> q.status == if q.stack == 0 {
                Status::AllIn
            } else {
                p.status
            }
            &&& forall|j: int|
                #![trigger u.players[j]]
                0 <= j < t.players.len() && j != t.to_act ==> {
                    &&& u.players[j].stack == t.players[j].stack
                    &&& u.players[j].committed == t.players[j].committed
                    &&& u.players[j].street_committed == t.players[j].street_committed
                    &&& u.players[j].status == t.players[j].status
                    &&& u.players[j].hole == t.players[j].hole
                }
        }),
{
}

/// A call matches the bet, or is all-in for less.
pub proof fn law_calls_match_or_are_all_in(t: Table)
    requires
        0 <= t.to_act < t.players.len(),
        t.allows(Action::Call),
        t.players[t.to_act].street_committed + t.players[t.to_act].stack <= u32::MAX,
    ensures
        ({
            let u = t.after_action(Action::Call);
            let q = u.players[t.to_act];
            &&& u.bet == t.bet
            &&& q.street_committed == t.bet || (q.street_committed < t.bet && q.stack == 0)
            &&& q.stack == 0 ==> q.status == Status::AllIn
        }),
{
}

/// A raise sets the bet to its total. One by at least the last raise is the new
/// least raise, and all others who can act may raise again; an all-in for less
/// leaves the least raise and everybody's right to raise alone. Other actions
/// leave the bet, the least raise and the others' rights as they are.
#[verifier::rlimit(40)]
pub proof fn law_only_full_raises_reopen(t: Table, action: Action)
    requires
        0 <= t.to_act < t.players.len(),
        t.allows(action),
        t.players[t.to_act].street_committed + t.players[t.to_act].stack <= u32::MAX,
    ensures
        ({
            let u = t.after_action(action);
            let full = action matches Action::RaiseTo(to) && to >= t.bet + t.last_raise;
            &&& action matches Action::RaiseTo(to) ==> u.bet == to
            &&& !(action is RaiseTo) ==> u.bet == t.bet
            &&& action matches Action::RaiseTo(to) ==> full ==> u.last_raise == to - t.bet
            &&& !full ==> u.last_raise == t.last_raise
            &&& forall|j: int|
                #![trigger u.players[j]]
                0 <= j < t.players.len() && j != t.to_act ==> u.players[j].acted == (
                t.players[j].acted && !(full && t.players[j].status == Status::Active))
        }),
{
}

/// After an action the next player round the table who can act is to act, unless
/// the betting is over.
pub proof fn law_turns_go_round(t: Table, action: Action)
    requires
        0 <= t.to_act < t.players.len(),
        t.allows(action),
    ensures
        ({
            let u = t.after_action(action);
            &&& !u.betting_done() ==> is_next_able(u.players, t.to_act, u.to_act)
            &&& u.betting_done() ==> u.to_act == t.to_act
        }),
{
    let v = t.acted(action);
    let u = t.after_action(action);
    assert(u.betting_done() == v.betting_done());
    lemma_next_able(v.players, t.to_act);
    lemma_counts(v.players);
}

// ---- The next street ----

/// The next street clears what was bet on the last: the bet is nothing, the least
/// bet a big blind, nobody has acted; the cards come after those on the board;
/// chips, cards and standing of the players stay; and the first player after the
/// button who can act opens.
#[verifier::rlimit(40)]
pub proof fn law_streets_start_afresh(t: Table, cards: Seq<u8>)
    requires
        t.players.len() >= 1,
        0 <= t.button,
    ensures
        ({
            let u = t.after_street(cards);
            let n = t.players.len() as int;
            let button = t.button % n;
            &&& u.players.len() == n
            &&& u.bet == 0
            &&& u.last_raise == t.bb
            &&& u.bb == t.bb
            &&& u.button == t.button
            &&& u.board.len() == t.board.len() + cards.len()
            &&& forall|k: int|
                0 <= k < t.board.len() ==> #[trigger] u.board[k] == t.board[k]
            &&& forall|k: int|
                0 <= k < cards.len() ==> u.board[t.board.len() + k] == #[trigger] cards[k]
            &&& t.street == Street::Preflop ==> u.street == Street::Flop
            &&& t.street == Street::Flop ==> u.street == Street::Turn
            &&& t.street == Street::Turn ==> u.street == Street::River
            &&& forall|i: int|
                #![trigger u.players[i]]
                0 <= i < n ==> {
                    &&& u.players[i].street_committed == 0
                    &&& !u.players[i].acted
                    &&& u.players[i].stack == t.players[i].stack
                    &&& u.players[i].committed == t.players[i].committed
                    &&& u.players[i].status == t.players[i].status
                    &&& u.players[i].hole == t.players[i].hole
                }
            &&& (exists|i: int| 0 <= i < n && (#[trigger] t.players[i]).status == Status::Active)
                ==> is_next_able(t.players, button, u.to_act)
            &&& (forall|i: int| 0 <= i < n ==> (#[trigger] t.players[i]).status != Status::Active)
                ==> u.to_act == on_from(button, 1, n)
        }),
{
    let u = t.after_street(cards);
    let n = t.players.len() as int;
    let button = t.button % n;
    vstd::arithmetic::div_mod::lemma_mod_bound(t.button, n);
    vstd::arithmetic::div_mod::lemma_add_mod_noop_right(1, t.button, n);
    assert(table::seat_after(t.button, 1, n) == table::seat_after(button, 1, n));
    lemma_next_able(u.players, button);
    assert forall|i: int| 0 <= i < n implies (#[trigger] u.players[i]).status
        == t.players[i].status by {}
    if exists|i: int| 0 <= i < n && (#[trigger] t.players[i]).status == Status::Active {
        let i = choose|i: int| 0 <= i < n && (#[trigger] t.players[i]).status == Status::Active;
        assert(u.players[i].status == Status::Active);
        let d = choose|d: int| #[trigger] is_next_able_at(u.players, button, u.to_act, d);
        assert forall|e: int| 1 <= e < d implies t.players[#[trigger] on_from(
            button,
            e,
            n,
        )].status != Status::Active by {
            assert(u.players[on_from(button, e, n)].status != Status::Active);
        }
        assert(is_next_able_at(t.players, button, u.to_act, d));
    }
}

/// The flop brings three cards, the turn and the river one each.
pub proof fn law_streets_bring_three_cards_and_then_one(t: Table)
    ensures
        t.street == Street::Preflop ==> t.cards_to_come() == 3,
        t.street == Street::Flop || t.street == Street::Turn ==> t.cards_to_come() == 1,
{
}

/// The least opening bet on a new street is a big blind, or all-in for less,
/// whatever was raised before; and nothing is owed.
#[verifier::rlimit(40)]
pub proof fn law_opening_bets_start_at_the_big_blind(t: Table, cards: Seq<u8>, i: int, j: int)
    requires
        0 <= t.button,
        0 <= i < t.players.len(),
        0 <= j < t.players.len(),
        i != j,
        t.players[i].status == Status::Active,
        t.players[i].stack > 0,
        t.players[j].status == Status::Active,
        t.players[j].stack > 0,
    ensures
        ({
            let u = t.after_street(cards);
            let p = u.players[u.to_act];
            &&& u.legal().check && !u.legal().fold && u.legal().call is None
            &&& p.stack >= t.bb && t.bb > 0 ==> u.legal().raise == Some((t.bb, p.stack))
            &&& 0 < p.stack < t.bb ==> u.legal().raise == Some((p.stack, p.stack))
        }),
{
    law_streets_start_afresh(t, cards);
    let u = t.after_street(cards);
    assert(t.players[i].status == Status::Active);
    let n = t.players.len() as int;
    let button = t.button % n;
    vstd::arithmetic::div_mod::lemma_mod_bound(t.button, n);
    let d = choose|d: int| #[trigger] is_next_able_at(t.players, button, u.to_act, d);
    lemma_on_from(button, d, n);
    assert(u.players[i].stack > 0 && u.players[j].stack > 0);
    assert(table::is_active(u.players[i]) && table::is_active(u.players[j]));
}

// ---- The pot and who is in it ----

/// The pot is what all players have put in.
pub proof fn law_pot_is_what_was_put_in(players: Seq<Player>)
    ensures
        table::pot_of(players) == settle::sum(players.map_values(|p: Player| p.committed as int)),
    decreases players.len(),
{
    let f = |p: Player| p.committed as int;
    if players.len() > 0 {
        law_pot_is_what_was_put_in(players.drop_last());
        assert(players.map_values(f).drop_last() =~= players.drop_last().map_values(f));
    }
}

/// The live seats are those that have not folded, each once, in order.
pub proof fn law_live_seats_have_not_folded(players: Seq<Player>)
    requires
        players.len() <= usize::MAX,
    ensures
        forall|k: int, m: int|
            0 <= k < m < table::live_seats(players).len() ==> #[trigger] table::live_seats(
                players,
            )[k] < #[trigger] table::live_seats(players)[m],
        forall|seat: usize| #[trigger]
            table::live_seats(players).contains(seat) <==> seat < players.len()
                && players[seat as int].status != Status::Folded,
    decreases players.len(),
{
    table::lemma_live_seats(players);
    let e = table::live_seats(players);
    if players.len() > 0 {
        let f = table::live_seats(players.drop_last());
        law_live_seats_have_not_folded(players.drop_last());
        assert forall|k: int, m: int| 0 <= k < m < e.len() implies #[trigger] e[k]
            < #[trigger] e[m] by {
            if k < f.len() {
                assert(f.contains(f[k]));
            }
        }
    }
    assert forall|seat: usize| #[trigger] e.contains(seat) implies seat < players.len()
        && players[seat as int].status != Status::Folded by {
        let k = e.index_of(seat);
        assert(e[k] == seat);
    }
}

} // verus!
