//! What holds of a hand from the first blind to the last bet.

use vstd::prelude::*;

use crate::game::{Action, Player, Status, Street};
use crate::pots;
use crate::settle;
use crate::table;
use crate::table::Table;

verus! {

/// How many board cards lie on a street.
pub open spec fn board_size(street: Street) -> int {
    match street {
        Street::Preflop => 0,
        Street::Flop => 3,
        Street::Turn => 4,
        Street::River => 5,
        Street::Showdown => 5,
    }
}

/// A player's chips are in order: what is in on this street is part of what is
/// in and no more than the bet, the chips fit a machine word, and who is all-in
/// has none behind.
pub open spec fn in_order(p: Player, bet: u32) -> bool {
    &&& p.street_committed <= p.committed
    &&& p.street_committed <= bet
    &&& p.committed + p.stack <= u32::MAX
    &&& p.status == Status::AllIn ==> p.stack == 0
}

/// The state of a hand in play.
pub open spec fn valid(t: Table) -> bool {
    &&& t.players.len() >= 2
    &&& 0 <= t.button < t.players.len()
    &&& 0 <= t.to_act < t.players.len()
    &&& t.bb > 0
    &&& t.last_raise > 0
    &&& t.board.len() == board_size(t.street)
    &&& t.street != Street::Showdown
    &&& forall|i: int| 0 <= i < t.players.len() ==> in_order(#[trigger] t.players[i], t.bet)
    &&& !t.betting_done() ==> table::is_active(t.actor())
}

/// The chips of all players, in and behind.
pub open spec fn chips_of(players: Seq<Player>) -> int {
    table::pot_of(players) + table::stacks_of(players) as int
}

/// Whether two players hold the same chips.
pub open spec fn same_chips(p: Player, q: Player) -> bool {
    p.committed + p.stack == q.committed + q.stack
}

pub open spec fn same_status(p: Player, q: Player) -> bool {
    p.status == q.status
}

/// The first seat that can act from a place on, and how far it is.
pub proof fn lemma_next_active(players: Seq<Player>, start: int, k: int) -> (d: int)
    requires
        0 <= start < players.len(),
        0 <= k <= players.len(),
    ensures
        k <= d <= players.len(),
        0 <= table::next_active(players, start, k) < players.len(),
        d < players.len() ==> table::next_active(players, start, k) == table::seat_after(
            start,
            d,
            players.len() as int,
        ) && table::is_active(players[table::next_active(players, start, k)]),
        d == players.len() ==> table::next_active(players, start, k) == start,
        forall|e: int|
            k <= e < d ==> !table::is_active(
                players[#[trigger] table::seat_after(start, e, players.len() as int)],
            ),
    decreases players.len() - k,
{
    let n = players.len() as int;
    if k >= n {
        k
    } else {
        vstd::arithmetic::div_mod::lemma_mod_bound(start + k, n);
        if table::is_active(players[table::seat_after(start, k, n)]) {
            k
        } else {
            lemma_next_active(players, start, k + 1)
        }
    }
}

/// Where somebody can act, the turn goes to somebody who can.
proof fn lemma_turn_goes_to_active(players: Seq<Player>, start: int)
    requires
        0 <= start < players.len(),
        table::active_count(players) > 0,
    ensures
        0 <= table::next_active(players, start, 0) < players.len(),
        table::is_active(players[table::next_active(players, start, 0)]),
{
    let n = players.len() as int;
    let d = lemma_next_active(players, start, 0);
    if d == n {
        let i = lemma_active_seat(players);
        pots::lemma_round(start, i, n);
        assert(!table::is_active(players[table::seat_after(start, pots::distance(start, i, n), n)]));
    }
}

proof fn lemma_active_seat(players: Seq<Player>) -> (i: int)
    requires
        table::active_count(players) > 0,
    ensures
        0 <= i < players.len(),
        table::is_active(players[i]),
    decreases players.len(),
{
    if table::is_active(players.last()) {
        players.len() - 1
    } else {
        lemma_active_seat(players.drop_last())
    }
}

proof fn lemma_same_counts(a: Seq<Player>, b: Seq<Player>)
    requires
        a.len() == b.len(),
        forall|i: int| 0 <= i < a.len() ==> same_status(#[trigger] a[i], b[i]),
    ensures
        table::live_count(a) == table::live_count(b),
        table::active_count(a) == table::active_count(b),
    decreases a.len(),
{
    if a.len() > 0 {
        assert(same_status(a[a.len() - 1], b[a.len() - 1]));
        assert forall|i: int| 0 <= i < a.drop_last().len() implies same_status(
            #[trigger] a.drop_last()[i],
            b.drop_last()[i],
        ) by {
            assert(same_status(a[i], b[i]));
        }
        lemma_same_counts(a.drop_last(), b.drop_last());
    }
}

proof fn lemma_same_chips(a: Seq<Player>, b: Seq<Player>)
    requires
        a.len() == b.len(),
        forall|i: int| 0 <= i < a.len() ==> same_chips(#[trigger] a[i], b[i]),
    ensures
        chips_of(a) == chips_of(b),
    decreases a.len(),
{
    if a.len() > 0 {
        assert(same_chips(a[a.len() - 1], b[a.len() - 1]));
        assert forall|i: int| 0 <= i < a.drop_last().len() implies same_chips(
            #[trigger] a.drop_last()[i],
            b.drop_last()[i],
        ) by {
            assert(same_chips(a[i], b[i]));
        }
        lemma_same_chips(a.drop_last(), b.drop_last());
    }
}

/// The blinds sit apart, heads-up and otherwise.
proof fn lemma_blind_seats(button: int, n: int)
    requires
        n >= 2,
        0 <= button < n,
    ensures
        0 <= table::small_blind_seat(button, n) < n,
        0 <= table::big_blind_seat(button, n) < n,
        table::small_blind_seat(button, n) != table::big_blind_seat(button, n),
        n == 2 ==> table::big_blind_seat(button, n) == 1 - button,
        n == 2 ==> table::seat_after(table::big_blind_seat(button, n), 1, n) == button,
{
    lemma_next_seat(button, n);
    let s = table::small_blind_seat(button, n);
    lemma_next_seat(s, n);
    lemma_next_seat(table::big_blind_seat(button, n), n);
}

proof fn lemma_next_seat(seat: int, n: int)
    requires
        n >= 2,
        0 <= seat < n,
    ensures
        table::seat_after(seat, 1, n) == if seat + 1 < n {
            seat + 1
        } else {
            0
        },
{
    if seat + 1 < n {
        vstd::arithmetic::div_mod::lemma_small_mod((seat + 1) as nat, n as nat);
    } else {
        vstd::arithmetic::div_mod::lemma_mod_self_0(n);
    }
}

/// Every hand starts valid, with nobody marked as having acted and every
/// player's chips the stack that they sat down with.
pub proof fn law_hands_start_valid(stacks: Seq<u32>, button: int, sb: u32, bb: u32)
    requires
        stacks.len() >= 2,
        0 <= button < stacks.len(),
        sb <= bb,
        bb > 0,
    ensures
        valid(table::new_table(stacks, button, sb, bb)),
        forall|i: int|
            0 <= i < stacks.len() ==> !(#[trigger] table::new_table(
                stacks,
                button,
                sb,
                bb,
            ).players[i]).acted,
        forall|i: int|
            0 <= i < stacks.len() ==> (#[trigger] table::new_table(
                stacks,
                button,
                sb,
                bb,
            ).players[i]).committed + table::new_table(stacks, button, sb, bb).players[i].stack
                == stacks[i],
        chips_of(table::new_table(stacks, button, sb, bb).players) == settle::sum(
            stacks.map_values(|x: u32| x as int),
        ),
{
    let t = table::new_table(stacks, button, sb, bb);
    let n = stacks.len() as int;
    lemma_blind_seats(button, n);
    let b = table::big_blind_seat(button, n);
    lemma_next_seat(b, n);
    if table::active_count(t.players) > 0 {
        lemma_turn_goes_to_active(t.players, table::seat_after(b, 1, n));
    }
    let d = lemma_next_active(t.players, table::seat_after(b, 1, n), 0);
    lemma_chips_of_stacks(t.players, stacks);
}

proof fn lemma_chips_of_stacks(players: Seq<Player>, stacks: Seq<u32>)
    requires
        players.len() == stacks.len(),
        forall|i: int|
            0 <= i < stacks.len() ==> (#[trigger] players[i]).committed + players[i].stack
                == stacks[i],
    ensures
        chips_of(players) == settle::sum(stacks.map_values(|x: u32| x as int)),
    decreases stacks.len(),
{
    let f = |x: u32| x as int;
    if stacks.len() > 0 {
        assert(players[players.len() - 1].committed + players[players.len() - 1].stack
            == stacks[stacks.len() - 1]);
        assert forall|i: int| 0 <= i < stacks.drop_last().len() implies (
        #[trigger] players.drop_last()[i]).committed + players.drop_last()[i].stack
            == stacks.drop_last()[i] by {
            assert(players.drop_last()[i] == players[i]);
        }
        lemma_chips_of_stacks(players.drop_last(), stacks.drop_last());
        assert(stacks.map_values(f).drop_last() =~= stacks.drop_last().map_values(f));
    }
}

/// The player to act can act and always has something to do: check where
/// nothing is owed, else call or fold.
pub proof fn law_player_to_act_has_a_legal_action(t: Table)
    requires
        valid(t),
        !t.betting_done(),
    ensures
        table::is_active(t.actor()),
        t.owed() == 0 ==> t.allows(Action::Check),
        t.owed() > 0 ==> t.allows(Action::Call) && t.allows(Action::Fold),
{
}

/// A legal action can be paid for.
pub proof fn law_legal_actions_can_be_paid(t: Table, action: Action)
    requires
        valid(t),
        t.allows(action),
    ensures
        0 <= t.cost(action) <= t.actor().stack,
        t.actor().street_committed + t.actor().stack <= u32::MAX,
        t.actor().committed + t.cost(action) <= u32::MAX,
{
    assert(in_order(t.players[t.to_act], t.bet));
}

/// Legal actions keep a hand valid, and no chips are made or lost: each player
/// has as many as before.
pub proof fn law_actions_keep_a_hand_valid(t: Table, action: Action)
    requires
        valid(t),
        !t.betting_done(),
        t.allows(action),
    ensures
        valid(t.after_action(action)),
        forall|i: int|
            0 <= i < t.players.len() ==> same_chips(
                #[trigger] t.after_action(action).players[i],
                t.players[i],
            ),
        chips_of(t.after_action(action).players) == chips_of(t.players),
{
    law_legal_actions_can_be_paid(t, action);
    let u = t.acted(action);
    let n = t.players.len() as int;
    assert forall|i: int| 0 <= i < n implies in_order(#[trigger] u.players[i], u.bet) && same_chips(
        u.players[i],
        t.players[i],
    ) by {
        assert(in_order(t.players[i], t.bet));
    }
    lemma_next_seat(t.to_act, n);
    if !u.betting_done() {
        lemma_turn_goes_to_active(u.players, table::seat_after(t.to_act, 1, n));
        let v = t.after_action(action);
        assert(v.betting_done() == u.betting_done());
    }
    lemma_same_chips(u.players, t.players);
}

/// A new street keeps a hand valid and moves no chips.
pub proof fn law_streets_keep_a_hand_valid(t: Table, cards: Seq<u8>)
    requires
        valid(t),
        t.betting_done(),
        !t.hand_done(),
        cards.len() == t.cards_to_come(),
    ensures
        valid(t.after_street(cards)),
        forall|i: int|
            0 <= i < t.players.len() ==> same_chips(
                #[trigger] t.after_street(cards).players[i],
                t.players[i],
            ),
        chips_of(t.after_street(cards).players) == chips_of(t.players),
        table::pot_of(t.after_street(cards).players) == table::pot_of(t.players),
{
    let u = t.after_street(cards);
    let n = t.players.len() as int;
    assert forall|i: int| 0 <= i < n implies in_order(#[trigger] u.players[i], u.bet) && same_chips(
        u.players[i],
        t.players[i],
    ) by {
        assert(in_order(t.players[i], t.bet));
    }
    lemma_next_seat(t.button, n);
    let d = lemma_next_active(u.players, table::seat_after(t.button, 1, n), 0);
    if !u.betting_done() {
        lemma_turn_goes_to_active(u.players, table::seat_after(t.button, 1, n));
    }
    lemma_same_chips(u.players, t.players);
    lemma_same_pot(u.players, t.players);
}

/// A hand that is over with more than one player left has a full board to show
/// down on.
pub proof fn law_finished_hands_can_be_shown_down(t: Table)
    requires
        valid(t),
        t.hand_done(),
        table::live_count(t.players) > 1,
    ensures
        t.street == Street::River,
        t.board.len() == 5,
{
}

proof fn lemma_same_pot(a: Seq<Player>, b: Seq<Player>)
    requires
        a.len() == b.len(),
        forall|i: int| 0 <= i < a.len() ==> (#[trigger] a[i]).committed == b[i].committed,
    ensures
        table::pot_of(a) == table::pot_of(b),
    decreases a.len(),
{
    if a.len() > 0 {
        assert(a[a.len() - 1].committed == b[a.len() - 1].committed);
        assert forall|i: int| 0 <= i < a.drop_last().len() implies (#[trigger] a.drop_last()[i]).committed
            == b.drop_last()[i].committed by {
            assert(a.drop_last()[i] == a[i]);
        }
        lemma_same_pot(a.drop_last(), b.drop_last());
    }
}

/// Dealing hole cards keeps a hand valid and moves no chips.
pub proof fn law_hole_cards_keep_a_hand_valid(t: Table, seat: int, hole: [u8; 2])
    requires
        valid(t),
        0 <= seat < t.players.len(),
    ensures
        valid(Table { players: t.players.update(seat, Player { hole, ..t.players[seat] }), ..t }),
        chips_of(t.players.update(seat, Player { hole, ..t.players[seat] })) == chips_of(t.players),
{
    let players = t.players.update(seat, Player { hole, ..t.players[seat] });
    let u = Table { players, ..t };
    assert forall|i: int| 0 <= i < players.len() implies in_order(#[trigger] players[i], t.bet)
        && same_status(players[i], t.players[i]) && same_chips(players[i], t.players[i]) by {
        assert(in_order(t.players[i], t.bet));
    }
    lemma_same_counts(players, t.players);
    lemma_same_chips(players, t.players);
    if !u.betting_done() {
        if t.betting_done() {
            assert forall|i: int| 0 <= i < players.len() && table::is_active(#[trigger] players[i]) implies
                players[i].acted == t.players[i].acted && players[i].street_committed
                == t.players[i].street_committed && table::is_active(t.players[i]) by {}
        }
    }
}

/// Heads-up the button posts the small blind and, where both can act, acts first
/// before the flop and last on every later street.
pub proof fn law_heads_up_button_acts_first_then_last(
    stacks: Seq<u32>,
    button: int,
    sb: u32,
    bb: u32,
    t: Table,
    cards: Seq<u8>,
)
    requires
        stacks.len() == 2,
        0 <= button < 2,
        sb <= bb,
        bb > 0,
        t.players.len() == 2,
        t.button == button,
        table::is_active(t.players[1 - button]),
    ensures
        table::new_table(stacks, button, sb, bb).players[button] == table::paid(
            table::fresh_player(stacks[button]),
            sb as int,
        ),
        table::new_table(stacks, button, sb, bb).players[1 - button] == table::paid(
            table::fresh_player(stacks[1 - button]),
            bb as int,
        ),
        stacks[button] > sb ==> table::new_table(stacks, button, sb, bb).to_act == button,
        t.after_street(cards).to_act == 1 - button,
{
    lemma_blind_seats(button, 2);
    lemma_next_seat(button, 2);
    let u = table::new_table(stacks, button, sb, bb);
    let d = lemma_next_active(u.players, button, 0);
    vstd::arithmetic::div_mod::lemma_small_mod(button as nat, 2);
    let v = t.after_street(cards);
    let e = lemma_next_active(v.players, 1 - button, 0);
    vstd::arithmetic::div_mod::lemma_small_mod((1 - button) as nat, 2);
    if d > 0 {
        assert(!table::is_active(u.players[table::seat_after(button, 0, 2)]));
    }
    if e > 0 {
        assert(!table::is_active(v.players[table::seat_after(1 - button, 0, 2)]));
    }
}

/// The turn passes to the first seat after the one that acted that can act: no
/// seat in between can.
pub proof fn law_turn_passes_to_the_next_seat(t: Table, action: Action) -> (d: int)
    requires
        valid(t),
        !t.betting_done(),
        t.allows(action),
        !t.after_action(action).betting_done(),
    ensures
        1 <= d <= t.players.len(),
        t.after_action(action).to_act == table::seat_after(t.to_act, d, t.players.len() as int),
        table::is_active(t.after_action(action).actor()),
        forall|e: int|
            1 <= e < d ==> !table::is_active(
                t.after_action(action).players[#[trigger] table::seat_after(
                    t.to_act,
                    e,
                    t.players.len() as int,
                )],
            ),
{
    let u = t.acted(action);
    let v = t.after_action(action);
    let n = t.players.len() as int;
    let start = table::seat_after(t.to_act, 1, n);
    lemma_next_seat(t.to_act, n);
    if u.betting_done() {
        assert(v == u);
    }
    let c = lemma_next_active(u.players, start, 0);
    lemma_turn_goes_to_active(u.players, start);
    assert forall|e: int| 0 <= e < n implies #[trigger] table::seat_after(start, e, n)
        == table::seat_after(t.to_act, e + 1, n) by {
        vstd::arithmetic::div_mod::lemma_add_mod_noop_right(e, t.to_act + 1, n);
    }
    if c == n {
        let i = lemma_active_seat(u.players);
        pots::lemma_round(start, i, n);
        assert(!table::is_active(u.players[table::seat_after(start, pots::distance(start, i, n), n)]));
    }
    assert forall|e: int| 1 <= e < c + 1 implies !table::is_active(
        v.players[#[trigger] table::seat_after(t.to_act, e, n)],
    ) by {
        assert(table::seat_after(start, e - 1, n) == table::seat_after(t.to_act, e, n));
    }
    c + 1
}

/// Only the player who acts is marked as having acted, so the blinds keep their
/// option; and betting goes on while two can act and one of them has not acted
/// or not matched the bet.
pub proof fn law_everyone_gets_to_act(t: Table, action: Action, i: int)
    requires
        0 <= t.to_act < t.players.len(),
        0 <= i < t.players.len(),
    ensures
        t.after_action(action).players[t.to_act].acted,
        i != t.to_act && !t.players[i].acted ==> !t.after_action(action).players[i].acted,
        table::is_active(t.players[i]) && table::active_count(t.players) >= 2 && (!t.players[i].acted
            || t.players[i].street_committed != t.bet) ==> !t.betting_done(),
{
    if table::active_count(t.players) >= 2 {
        lemma_active_are_live(t.players);
    }
}

proof fn lemma_active_are_live(players: Seq<Player>)
    ensures
        table::active_count(players) <= table::live_count(players),
    decreases players.len(),
{
    if players.len() > 0 {
        lemma_active_are_live(players.drop_last());
    }
}

/// A raise is to a total, not by an amount: it brings what the player has in on
/// this street, and the bet, to just that.
pub proof fn law_raises_are_to_a_total(t: Table, to: u32)
    requires
        valid(t),
        t.allows(Action::RaiseTo(to)),
    ensures
        t.after_action(Action::RaiseTo(to)).bet == to,
        t.after_action(Action::RaiseTo(to)).players[t.to_act].street_committed == to,
{
    law_legal_actions_can_be_paid(t, Action::RaiseTo(to));
}

/// A player who has not acted, such as the big blind when the others have only
/// called, may check where nothing is owed, and raise where there are chips left
/// and somebody to call.
pub proof fn law_option_to_raise(t: Table)
    requires
        valid(t),
        !t.actor().acted,
        t.actor().stack > t.owed(),
        t.others_can_act(),
    ensures
        t.legal().raise is Some,
        t.owed() == 0 ==> t.legal().check,
{
    assert(in_order(t.players[t.to_act], t.bet));
}

/// A raise is to at least the bet plus the last full raise, or all-in for less.
pub proof fn law_raises_are_full_or_all_in(t: Table, to: u32)
    requires
        valid(t),
        t.allows(Action::RaiseTo(to)),
    ensures
        to > t.bet,
        t.is_full_raise(to) || t.acted(Action::RaiseTo(to)).players[t.to_act].status
            == Status::AllIn,
{
    assert(in_order(t.players[t.to_act], t.bet));
}

/// The raises that are legal are a band from the least full raise to all-in; for a
/// stack that cannot make a full raise the two are equal: the all-in.
pub proof fn law_raises_are_a_band(t: Table)
    requires
        valid(t),
        t.legal().raise is Some,
    ensures
        ({
            let (lo, hi) = t.legal().raise->0;
            let all_in = t.actor().street_committed + t.actor().stack;
            &&& t.bet < lo <= hi == all_in
            &&& all_in >= t.bet + t.last_raise ==> lo == t.bet + t.last_raise
            &&& all_in < t.bet + t.last_raise ==> lo == all_in
        }),
{
    assert(in_order(t.players[t.to_act], t.bet));
}

/// Whoever has acted may not raise until a full raise is made: an all-in for less
/// leaves everyone else's right to raise as it was.
pub proof fn law_short_all_in_does_not_reopen(t: Table, to: u32, i: int)
    requires
        0 <= i < t.players.len(),
        i != t.to_act,
        !t.is_full_raise(to),
    ensures
        t.after_action(Action::RaiseTo(to)).players[i] == t.players[i],
        t.after_action(Action::RaiseTo(to)).bet == to,
        t.after_action(Action::RaiseTo(to)).last_raise == t.last_raise,
        forall|u: Table| u.actor().acted ==> (#[trigger] u.legal()).raise is None,
{
}

/// A full raise gives everyone else who can act the right to raise again, and
/// the next raise must be at least as large.
pub proof fn law_full_raise_reopens(t: Table, to: u32, i: int)
    requires
        valid(t),
        !t.betting_done(),
        t.allows(Action::RaiseTo(to)),
        t.is_full_raise(to),
        0 <= i < t.players.len(),
        i != t.to_act,
        table::is_active(t.players[i]),
    ensures
        ({
            let u = t.after_action(Action::RaiseTo(to));
            let v = Table { to_act: i, ..u };
            &&& !u.players[i].acted
            &&& v.others_can_act() && v.actor().street_committed + v.actor().stack > to + (to - t.bet)
                ==> v.legal().raise == Some(
                ((to + (to - t.bet)) as u32, (v.actor().street_committed + v.actor().stack) as u32),
            )
        }),
{
    assert(in_order(t.players[i], t.bet));
}

/// Nobody can raise when no opponent has chips behind.
pub proof fn law_no_raise_into_all_ins(t: Table)
    requires
        forall|i: int|
            0 <= i < t.players.len() && i != t.to_act ==> !table::is_active(#[trigger] t.players[i])
                || t.players[i].stack == 0,
    ensures
        t.legal().raise is None,
{
}

/// Once at most one player can act and owes nothing, every later street is
/// complete as it comes.
pub proof fn law_dead_streets_need_no_action(t: Table, cards: Seq<u8>)
    requires
        t.betting_done(),
        table::active_count(t.players) <= 1,
    ensures
        t.after_street(cards).betting_done(),
        table::active_count(t.after_street(cards).players) <= 1,
{
    let u = t.after_street(cards);
    assert forall|i: int| 0 <= i < t.players.len() implies same_status(
        #[trigger] u.players[i],
        t.players[i],
    ) by {}
    lemma_same_counts(u.players, t.players);
}

/// What a player put in on earlier streets.
pub open spec fn earlier(p: Player) -> int {
    p.committed - p.street_committed
}

/// Seat `j` has not folded, has matched the bet and has put in as much on
/// earlier streets as anyone.
pub open spec fn backs(t: Table, j: int) -> bool {
    &&& 0 <= j < t.players.len()
    &&& table::is_live(t.players[j])
    &&& t.players[j].street_committed == t.bet
    &&& forall|i: int|
        0 <= i < t.players.len() ==> earlier(#[trigger] t.players[i]) <= earlier(t.players[j])
}

/// Someone backs the bet, and all who can act have put in the same on earlier
/// streets.
pub open spec fn backed(t: Table) -> bool {
    exists|j: int| #[trigger]
        backs(t, j) && forall|i: int|
            0 <= i < t.players.len() && table::is_active(#[trigger] t.players[i]) ==> earlier(
                t.players[i],
            ) == earlier(t.players[j])
}

/// A hand is backed from the start: the blind that posted more backs the bet.
pub proof fn law_hands_start_backed(stacks: Seq<u32>, button: int, sb: u32, bb: u32)
    requires
        stacks.len() >= 2,
        0 <= button < stacks.len(),
        sb <= bb,
        bb > 0,
    ensures
        backed(table::new_table(stacks, button, sb, bb)),
{
    let n = stacks.len() as int;
    lemma_blind_seats(button, n);
    let t = table::new_table(stacks, button, sb, bb);
    let small = table::small_blind_seat(button, n);
    let big = table::big_blind_seat(button, n);
    if t.players[small].street_committed < t.players[big].street_committed {
        assert(backs(t, big));
    } else {
        assert(backs(t, small));
    }
}

/// Legal actions keep a hand backed.
pub proof fn law_actions_keep_a_hand_backed(t: Table, action: Action)
    requires
        valid(t),
        !t.betting_done(),
        t.allows(action),
        backed(t),
    ensures
        backed(t.after_action(action)),
{
    let j = choose|j: int| #[trigger]
        backs(t, j) && forall|i: int|
            0 <= i < t.players.len() && table::is_active(#[trigger] t.players[i]) ==> earlier(
                t.players[i],
            ) == earlier(t.players[j]);
    law_legal_actions_can_be_paid(t, action);
    let u = t.after_action(action);
    let k = if action is RaiseTo {
        t.to_act
    } else {
        j
    };
    assert forall|i: int| 0 <= i < t.players.len() implies earlier(#[trigger] u.players[i])
        == earlier(t.players[i]) && (table::is_active(u.players[i]) ==> table::is_active(
        t.players[i],
    )) by {
        assert(in_order(t.players[i], t.bet));
    }
    assert(table::is_active(t.players[t.to_act]));
    assert(backs(u, k));
}

/// New streets keep a hand backed.
pub proof fn law_streets_keep_a_hand_backed(t: Table, cards: Seq<u8>)
    requires
        valid(t),
        t.betting_done(),
        !t.hand_done(),
        backed(t),
    ensures
        backed(t.after_street(cards)),
{
    let j = choose|j: int| #[trigger]
        backs(t, j) && forall|i: int|
            0 <= i < t.players.len() && table::is_active(#[trigger] t.players[i]) ==> earlier(
                t.players[i],
            ) == earlier(t.players[j]);
    let u = t.after_street(cards);
    assert forall|i: int| 0 <= i < t.players.len() implies earlier(#[trigger] u.players[i])
        == t.players[i].committed && t.players[i].committed <= t.players[j].committed by {
        assert(in_order(t.players[i], t.bet));
        assert(earlier(t.players[i]) <= earlier(t.players[j]));
    }
    assert forall|i: int| 0 <= i < u.players.len() && table::is_active(#[trigger] u.players[i]) implies
        earlier(u.players[i]) == earlier(u.players[j]) by {
        assert(table::is_active(t.players[i]));
        assert(in_order(t.players[i], t.bet));
        if table::active_count(t.players) == 0 {
            lemma_no_active(t.players, i);
        }
    }
    assert(backs(u, j));
}

proof fn lemma_no_active(players: Seq<Player>, i: int)
    requires
        0 <= i < players.len(),
        table::is_active(players[i]),
    ensures
        table::active_count(players) > 0,
    decreases players.len(),
{
    if i < players.len() - 1 {
        lemma_no_active(players.drop_last(), i);
    }
}

proof fn lemma_no_pot(players: Seq<Player>)
    requires
        forall|i: int| 0 <= i < players.len() ==> (#[trigger] players[i]).committed == 0,
    ensures
        table::pot_of(players) == 0,
    decreases players.len(),
{
    if players.len() > 0 {
        assert(players[players.len() - 1].committed == 0);
        assert forall|i: int| 0 <= i < players.drop_last().len() implies (
        #[trigger] players.drop_last()[i]).committed == 0 by {
            assert(players.drop_last()[i] == players[i]);
        }
        lemma_no_pot(players.drop_last());
    }
}

/// In a backed hand the payouts sum to the pot, and with what is left behind
/// they are all the chips there are.
pub proof fn law_backed_hands_pay_out_the_pot(t: Table)
    requires
        valid(t),
        backed(t),
        t.players.len() <= usize::MAX,
    ensures
        settle::sum(settle::payouts(t)) == table::pot_of(t.players),
        settle::sum(settle::payouts(t)) + table::stacks_of(t.players) == chips_of(t.players),
{
    let j = choose|j: int| #[trigger]
        backs(t, j) && forall|i: int|
            0 <= i < t.players.len() && table::is_active(#[trigger] t.players[i]) ==> earlier(
                t.players[i],
            ) == earlier(t.players[j]);
    assert forall|i: int| 0 <= i < t.players.len() implies (#[trigger] t.players[i]).committed
        <= t.players[j].committed by {
        assert(in_order(t.players[i], t.bet));
        assert(earlier(t.players[i]) <= earlier(t.players[j]));
    }
    if t.players[j].committed > 0 {
        assert(settle::is_contested(t.players));
    } else {
        lemma_no_pot(t.players);
    }
    settle::law_payouts_sum_to_the_pot(t);
}

/// A step of a hand: the player to act acts, or the next board cards come.
pub enum Step {
    Act(Action),
    Board(Seq<u8>),
}

/// The step may be taken.
pub open spec fn may_step(t: Table, step: Step) -> bool {
    match step {
        Step::Act(action) => !t.betting_done() && t.allows(action),
        Step::Board(cards) => t.betting_done() && !t.hand_done() && cards.len()
            == t.cards_to_come(),
    }
}

pub open spec fn stepped(t: Table, step: Step) -> Table {
    match step {
        Step::Act(action) => t.after_action(action),
        Step::Board(cards) => t.after_street(cards),
    }
}

/// The hand after some steps.
pub open spec fn after_steps(t: Table, steps: Seq<Step>) -> Table
    decreases steps.len(),
{
    if steps.len() == 0 {
        t
    } else {
        stepped(after_steps(t, steps.drop_last()), steps.last())
    }
}

/// Each of the steps may be taken when it is.
pub open spec fn may_take(t: Table, steps: Seq<Step>) -> bool
    decreases steps.len(),
{
    steps.len() > 0 ==> may_take(t, steps.drop_last()) && may_step(
        after_steps(t, steps.drop_last()),
        steps.last(),
    )
}

/// However a hand is played, its state stays valid and no chips are made or lost:
/// at every point the payouts would sum to the pot, and with the stacks to all the
/// chips that were brought.
pub proof fn law_hands_conserve_chips(
    stacks: Seq<u32>,
    button: int,
    sb: u32,
    bb: u32,
    steps: Seq<Step>,
)
    requires
        2 <= stacks.len() <= usize::MAX,
        0 <= button < stacks.len(),
        sb <= bb,
        bb > 0,
        may_take(table::new_table(stacks, button, sb, bb), steps),
    ensures
        ({
            let t = after_steps(table::new_table(stacks, button, sb, bb), steps);
            let brought = settle::sum(stacks.map_values(|x: u32| x as int));
            &&& valid(t)
            &&& chips_of(t.players) == brought
            &&& backed(t)
            &&& settle::sum(settle::payouts(t)) == table::pot_of(t.players)
            &&& settle::sum(settle::payouts(t)) + table::stacks_of(t.players) == brought
        }),
{
    let start = table::new_table(stacks, button, sb, bb);
    lemma_hands_keep(stacks, button, sb, bb, steps);
    law_backed_hands_pay_out_the_pot(after_steps(start, steps));
}

proof fn lemma_hands_keep(stacks: Seq<u32>, button: int, sb: u32, bb: u32, steps: Seq<Step>)
    requires
        2 <= stacks.len() <= usize::MAX,
        0 <= button < stacks.len(),
        sb <= bb,
        bb > 0,
        may_take(table::new_table(stacks, button, sb, bb), steps),
    ensures
        ({
            let t = after_steps(table::new_table(stacks, button, sb, bb), steps);
            &&& t.players.len() == stacks.len()
            &&& valid(t)
            &&& chips_of(t.players) == settle::sum(stacks.map_values(|x: u32| x as int))
            &&& backed(t)
        }),
    decreases steps.len(),
{
    let start = table::new_table(stacks, button, sb, bb);
    if steps.len() == 0 {
        law_hands_start_valid(stacks, button, sb, bb);
        law_hands_start_backed(stacks, button, sb, bb);
    } else {
        let before = after_steps(start, steps.drop_last());
        lemma_hands_keep(stacks, button, sb, bb, steps.drop_last());
        match steps.last() {
            Step::Act(action) => {
                law_actions_keep_a_hand_valid(before, action);
                law_actions_keep_a_hand_backed(before, action);
            },
            Step::Board(cards) => {
                law_streets_keep_a_hand_valid(before, cards);
                law_streets_keep_a_hand_backed(before, cards);
            },
        }
    }
}

/// The player has acted and matched the bet.
pub open spec fn is_settled(t: Table, i: int) -> bool {
    t.players[i].acted && t.players[i].street_committed == t.bet
}

/// Those who can act and still have to, come first in the order of turn.
pub open spec fn in_turn_until(t: Table, k: int) -> bool {
    forall|d: int|
        0 <= d < t.players.len() && table::is_active(
            t.players[#[trigger] table::seat_after(t.to_act, d, t.players.len() as int)],
        ) ==> (d < k <==> !is_settled(t, table::seat_after(t.to_act, d, t.players.len() as int)))
}

pub open spec fn in_turn(t: Table) -> bool {
    exists|k: int| 0 <= k <= t.players.len() && #[trigger] in_turn_until(t, k)
}

/// Turns start in order, before the flop and on every later street: all who can
/// act have to.
pub proof fn law_turns_start_in_order(
    stacks: Seq<u32>,
    button: int,
    sb: u32,
    bb: u32,
    t: Table,
    cards: Seq<u8>,
)
    requires
        stacks.len() >= 2,
        0 <= button < stacks.len(),
        sb <= bb,
        bb > 0,
        valid(t),
    ensures
        in_turn(table::new_table(stacks, button, sb, bb)),
        in_turn(t.after_street(cards)),
{
    law_hands_start_valid(stacks, button, sb, bb);
    let u = table::new_table(stacks, button, sb, bb);
    let n = u.players.len() as int;
    assert forall|d: int| 0 <= d < n implies 0 <= #[trigger] table::seat_after(u.to_act, d, n) < n by {
        vstd::arithmetic::div_mod::lemma_mod_bound(u.to_act + d, n);
    }
    assert(in_turn_until(u, n));
    let v = t.after_street(cards);
    let m = v.players.len() as int;
    assert forall|d: int| 0 <= d < m implies 0 <= #[trigger] table::seat_after(v.to_act, d, m) < m by {
        vstd::arithmetic::div_mod::lemma_mod_bound(v.to_act + d, m);
    }
    assert(in_turn_until(v, m));
}

/// Turns stay in order.
pub proof fn law_actions_keep_turns_in_order(t: Table, action: Action)
    requires
        valid(t),
        in_turn(t),
        !t.betting_done(),
        t.allows(action),
        !t.after_action(action).betting_done(),
    ensures
        in_turn(t.after_action(action)),
{
    let n = t.players.len() as int;
    let k = choose|k: int| 0 <= k <= n && #[trigger] in_turn_until(t, k);
    let u = t.after_action(action);
    let s = t.to_act;
    let c = law_turn_passes_to_the_next_seat(t, action);
    law_legal_actions_can_be_paid(t, action);
    let full = action matches Action::RaiseTo(to) && t.is_full_raise(to);
    let more = if action is RaiseTo {
        if full {
            n - c
        } else {
            n
        }
    } else if k >= c {
        k - c
    } else {
        0
    };
    assert forall|d: int|
        0 <= d < n && table::is_active(u.players[#[trigger] table::seat_after(u.to_act, d, n)]) implies (d
        < more <==> !is_settled(u, table::seat_after(u.to_act, d, n))) by {
        let seat = table::seat_after(u.to_act, d, n);
        vstd::arithmetic::div_mod::lemma_add_mod_noop_right(d, s + c, n);
        assert(seat == table::seat_after(s, c + d, n));
        lemma_step_round(s, c + d, n);
        assert(in_order(t.players[seat], t.bet));
        assert(in_order(t.players[s], t.bet));
        if c + d < n {
            // A seat that has not been passed over.
            if seat == s {
                lemma_only_start_is_start(s, c + d, n);
            }
            assert(table::is_active(t.players[table::seat_after(s, c + d, n)]));
        } else {
            let e = c + d - n;
            assert(seat == table::seat_after(s, e, n));
            if e == 0 {
                vstd::arithmetic::div_mod::lemma_small_mod(s as nat, n as nat);
                assert(seat == s);
            } else {
                assert(!table::is_active(u.players[table::seat_after(s, e, n)]));
            }
        }
    }
    assert(in_turn_until(u, more));
}

proof fn lemma_step_round(s: int, k: int, n: int)
    requires
        0 <= s < n,
        0 <= k,
    ensures
        0 <= table::seat_after(s, k, n) < n,
        k >= n ==> table::seat_after(s, k, n) == table::seat_after(s, k - n, n),
{
    vstd::arithmetic::div_mod::lemma_mod_bound(s + k, n);
    if k >= n {
        vstd::arithmetic::div_mod::lemma_mod_sub_multiples_vanish(s + k, n);
    }
}

proof fn lemma_only_start_is_start(s: int, k: int, n: int)
    requires
        0 <= s < n,
        0 < k < n,
    ensures
        table::seat_after(s, k, n) != s,
{
    if s + k < n {
        vstd::arithmetic::div_mod::lemma_small_mod((s + k) as nat, n as nat);
    } else {
        vstd::arithmetic::div_mod::lemma_mod_sub_multiples_vanish(s + k, n);
        vstd::arithmetic::div_mod::lemma_small_mod((s + k - n) as nat, n as nat);
    }
}

/// Nobody is asked twice: the player to act has not acted since the last full
/// raise, or has not matched the bet.
pub proof fn law_player_to_act_has_something_to_decide(t: Table)
    requires
        valid(t),
        in_turn(t),
        !t.betting_done(),
    ensures
        !is_settled(t, t.to_act),
{
    let n = t.players.len() as int;
    let k = choose|k: int| 0 <= k <= n && #[trigger] in_turn_until(t, k);
    vstd::arithmetic::div_mod::lemma_small_mod(t.to_act as nat, n as nat);
    assert(table::seat_after(t.to_act, 0, n) == t.to_act);
    if is_settled(t, t.to_act) {
        assert(k == 0);
        assert forall|i: int| 0 <= i < n && table::is_active(#[trigger] t.players[i]) implies is_settled(
            t,
            i,
        ) by {
            pots::lemma_round(t.to_act, i, n);
            let d = pots::distance(t.to_act, i, n);
            assert(table::seat_after(t.to_act, d, n) == i);
        }
    }
}

/// How many of the players can act and have not settled.
pub open spec fn due_count(players: Seq<Player>, bet: u32) -> nat
    decreases players.len(),
{
    if players.len() == 0 {
        0
    } else {
        due_count(players.drop_last(), bet) + if table::is_active(players.last()) && !(
        players.last().acted && players.last().street_committed == bet) {
            1nat
        } else {
            0nat
        }
    }
}

/// Betting comes to an end: every action leaves fewer chips behind, or as many and
/// fewer players who can act, or as many of both and fewer who still have to.
pub proof fn law_betting_ends(t: Table, action: Action)
    requires
        valid(t),
        in_turn(t),
        !t.betting_done(),
        t.allows(action),
    ensures
        ({
            let u = t.after_action(action);
            let chips = table::stacks_of(t.players);
            let left = table::stacks_of(u.players);
            let active = table::active_count(t.players);
            let still = table::active_count(u.players);
            ||| left < chips
            ||| left == chips && still < active
            ||| left == chips && still == active && due_count(u.players, u.bet) < due_count(
                t.players,
                t.bet,
            )
        }),
{
    law_player_to_act_has_something_to_decide(t);
    law_legal_actions_can_be_paid(t, action);
    let u = t.acted(action);
    let s = t.to_act;
    assert(in_order(t.players[s], t.bet));
    assert(table::is_active(t.players[s]));
    if action is RaiseTo || (action is Call && t.cost(action) > 0) {
        lemma_stacks_drop(t.players, u.players, s);
    } else {
        assert(u.players =~= t.players.update(s, u.players[s]));
        lemma_one_changes(t.players, u.players[s], s, t.bet);
    }
}

proof fn lemma_stacks_drop(a: Seq<Player>, b: Seq<Player>, s: int)
    requires
        a.len() == b.len(),
        0 <= s < a.len(),
        b[s].stack < a[s].stack,
        forall|i: int| 0 <= i < a.len() && i != s ==> (#[trigger] a[i]).stack == b[i].stack,
    ensures
        table::stacks_of(b) < table::stacks_of(a),
    decreases a.len(),
{
    let n = a.len() - 1;
    if s == n {
        lemma_same_stacks(a.drop_last(), b.drop_last());
    } else {
        assert(a[n].stack == b[n].stack);
        lemma_stacks_drop(a.drop_last(), b.drop_last(), s);
    }
}

proof fn lemma_same_stacks(a: Seq<Player>, b: Seq<Player>)
    requires
        a.len() == b.len(),
        forall|i: int| 0 <= i < a.len() ==> (#[trigger] a[i]).stack == b[i].stack,
    ensures
        table::stacks_of(a) == table::stacks_of(b),
    decreases a.len(),
{
    if a.len() > 0 {
        assert(a[a.len() - 1].stack == b[a.len() - 1].stack);
        lemma_same_stacks(a.drop_last(), b.drop_last());
    }
}

/// One player who had to act no longer does, and nobody's chips move.
proof fn lemma_one_changes(players: Seq<Player>, p: Player, s: int, bet: u32)
    requires
        0 <= s < players.len(),
        table::is_active(players[s]),
        !(players[s].acted && players[s].street_committed == bet),
        p.stack == players[s].stack,
        !table::is_active(p) || (p.acted && p.street_committed == bet),
    ensures
        table::stacks_of(players.update(s, p)) == table::stacks_of(players),
        table::active_count(players.update(s, p)) + if table::is_active(p) {
            0int
        } else {
            1int
        } == table::active_count(players),
        due_count(players.update(s, p), bet) + 1 == due_count(players, bet),
    decreases players.len(),
{
    let n = players.len() - 1;
    if s == n {
        assert(players.update(s, p).drop_last() =~= players.drop_last());
    } else {
        assert(players.update(s, p).drop_last() =~= players.drop_last().update(s, p));
        lemma_one_changes(players.drop_last(), p, s, bet);
    }
}

} // verus!
