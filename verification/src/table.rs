//! The rules of the betting rounds, as a model.
//!
//! A `Table` is the mathematical state of a hand; the functions here say what
//! may be done in it and what follows. The engine in `game` is proved to do
//! exactly that.

use vstd::prelude::*;

use crate::game::{Action, Legal, Player, Status, Street};

verus! {

/// The state of a hand.
#[verifier::ext_equal]
pub struct Table {
    pub players: Seq<Player>,
    pub board: Seq<u8>,
    pub street: Street,
    pub button: int,
    pub to_act: int,
    pub bet: u32,
    pub last_raise: u32,
    pub bb: u32,
}

/// Not folded.
pub open spec fn is_live(p: Player) -> bool {
    p.status != Status::Folded
}

/// Still able to act.
pub open spec fn is_active(p: Player) -> bool {
    p.status == Status::Active
}

/// How many players have not folded.
pub open spec fn live_count(players: Seq<Player>) -> nat
    decreases players.len(),
{
    if players.len() == 0 {
        0
    } else {
        live_count(players.drop_last()) + if is_live(players.last()) {
            1nat
        } else {
            0nat
        }
    }
}

/// How many players can still act.
pub open spec fn active_count(players: Seq<Player>) -> nat
    decreases players.len(),
{
    if players.len() == 0 {
        0
    } else {
        active_count(players.drop_last()) + if is_active(players.last()) {
            1nat
        } else {
            0nat
        }
    }
}

/// The seats that have not folded, in order.
pub open spec fn live_seats(players: Seq<Player>) -> Seq<usize>
    decreases players.len(),
{
    if players.len() == 0 {
        seq![]
    } else if is_live(players.last()) {
        live_seats(players.drop_last()).push((players.len() - 1) as usize)
    } else {
        live_seats(players.drop_last())
    }
}

/// All chips that have been put in.
pub open spec fn pot_of(players: Seq<Player>) -> nat
    decreases players.len(),
{
    if players.len() == 0 {
        0
    } else {
        pot_of(players.drop_last()) + players.last().committed as nat
    }
}

/// All chips still behind.
pub open spec fn stacks_of(players: Seq<Player>) -> nat
    decreases players.len(),
{
    if players.len() == 0 {
        0
    } else {
        stacks_of(players.drop_last()) + players.last().stack as nat
    }
}

/// The seat `k` places after seat `start`, going round.
pub open spec fn seat_after(start: int, k: int, n: int) -> int {
    (start + k) % n
}

/// The first seat that can act, looking from `k` places after `start`; `start`
/// itself if there is none.
pub open spec fn next_active(players: Seq<Player>, start: int, k: int) -> int
    decreases players.len() - k,
{
    if k >= players.len() {
        start
    } else if is_active(players[seat_after(start, k, players.len() as int)]) {
        seat_after(start, k, players.len() as int)
    } else {
        next_active(players, start, k + 1)
    }
}

/// A player after paying `amount`, or all that is left.
pub open spec fn paid(p: Player, amount: int) -> Player {
    let x = if amount < p.stack {
        amount
    } else {
        p.stack as int
    };
    Player {
        stack: (p.stack - x) as u32,
        committed: (p.committed + x) as u32,
        street_committed: (p.street_committed + x) as u32,
        status: if x == p.stack {
            Status::AllIn
        } else {
            p.status
        },
        ..p
    }
}

/// A player at the start of a hand.
pub open spec fn fresh_player(stack: u32) -> Player {
    Player {
        stack,
        hole: [crate::card::NO_CARD, crate::card::NO_CARD],
        committed: 0,
        street_committed: 0,
        status: Status::Active,
        acted: false,
    }
}

/// The seats that post the small and the big blind: heads-up the button and
/// the other seat, else the two seats after the button.
pub open spec fn small_blind_seat(button: int, n: int) -> int {
    if n == 2 {
        button
    } else {
        seat_after(button, 1, n)
    }
}

pub open spec fn big_blind_seat(button: int, n: int) -> int {
    seat_after(small_blind_seat(button, n), 1, n)
}

/// The larger of two numbers of chips.
pub open spec fn larger(a: u32, b: u32) -> u32 {
    if a < b {
        b
    } else {
        a
    }
}

/// The start of a hand: the blinds are posted, as far as the stacks go, the bet is
/// the larger of what was posted, nobody has acted, and the seat after the big
/// blind opens.
pub open spec fn new_table(stacks: Seq<u32>, button: int, sb: u32, bb: u32) -> Table {
    let n = stacks.len() as int;
    let s = small_blind_seat(button, n);
    let b = big_blind_seat(button, n);
    let fresh = stacks.map_values(|x: u32| fresh_player(x));
    let one = fresh.update(s, paid(fresh[s], sb as int));
    let players = one.update(b, paid(one[b], bb as int));
    Table {
        players,
        board: seq![],
        street: Street::Preflop,
        button,
        to_act: next_active(players, seat_after(b, 1, n), 0),
        bet: larger(players[s].street_committed, players[b].street_committed),
        last_raise: bb,
        bb,
    }
}

impl Table {
    pub open spec fn actor(self) -> Player {
        self.players[self.to_act]
    }

    /// What the player to act owes.
    pub open spec fn owed(self) -> int {
        if self.bet > self.actor().street_committed {
            self.bet - self.actor().street_committed
        } else {
            0
        }
    }

    /// Someone besides the player to act can still act and has chips behind.
    pub open spec fn others_can_act(self) -> bool {
        exists|i: int|
            0 <= i < self.players.len() && i != self.to_act && is_active(#[trigger] self.players[i])
                && self.players[i].stack > 0
    }

    /// What the player to act may do.
    ///
    /// A raise needs chips to get past the bet, the right to raise (a player who
    /// has acted only regains it when someone makes a full raise), and somebody
    /// able to call it. It goes at least to the bet plus the last full raise,
    /// or all-in if the stack is too short for that.
    pub open spec fn legal(self) -> Legal {
        let p = self.actor();
        let max_to = p.street_committed + p.stack;
        Legal {
            fold: self.owed() > 0,
            check: self.owed() == 0,
            call: if self.owed() > 0 {
                Some(
                    if self.owed() < p.stack {
                        self.owed() as u32
                    } else {
                        p.stack
                    },
                )
            } else {
                None
            },
            raise: if max_to > self.bet && !p.acted && self.others_can_act() {
                Some(
                    (
                        if self.bet + self.last_raise < max_to {
                            (self.bet + self.last_raise) as u32
                        } else {
                            max_to as u32
                        },
                        max_to as u32,
                    ),
                )
            } else {
                None
            },
        }
    }

    /// The action is among those that the player to act may take.
    pub open spec fn allows(self, action: Action) -> bool {
        match action {
            Action::Fold => self.legal().fold,
            Action::Check => self.legal().check,
            Action::Call => self.legal().call is Some,
            Action::RaiseTo(to) => self.legal().raise matches Some((lo, hi)) && lo <= to <= hi,
        }
    }

    /// What the action costs.
    pub open spec fn cost(self, action: Action) -> int {
        match action {
            Action::Fold => 0,
            Action::Check => 0,
            Action::Call => self.legal().call->0 as int,
            Action::RaiseTo(to) => to - self.actor().street_committed,
        }
    }

    /// No decision is left on this street: one player is left, or nobody can
    /// act, or the one who can owes nothing, or all who can have acted and
    /// matched the bet.
    pub open spec fn betting_done(self) -> bool {
        if live_count(self.players) <= 1 || active_count(self.players) == 0 {
            true
        } else if active_count(self.players) == 1 {
            forall|i: int|
                0 <= i < self.players.len() && is_active(#[trigger] self.players[i])
                    ==> self.players[i].street_committed >= self.bet
        } else {
            forall|i: int|
                0 <= i < self.players.len() && is_active(#[trigger] self.players[i])
                    ==> self.players[i].acted && self.players[i].street_committed == self.bet
        }
    }

    /// The hand is over: everyone folded but one, or the river betting is
    /// complete.
    pub open spec fn hand_done(self) -> bool {
        ||| live_count(self.players) <= 1
        ||| self.street == Street::River && self.betting_done()
        ||| self.street == Street::Showdown
    }

    /// A raise of at least the last full raise.
    pub open spec fn is_full_raise(self, to: u32) -> bool {
        to - self.bet >= self.last_raise
    }

    /// The table once the player to act has acted, the same player still to act.
    pub open spec fn acted(self, action: Action) -> Table {
        let seat = self.to_act;
        let p = self.actor();
        let payer = paid(p, self.cost(action));
        let settled = match action {
            Action::Fold => Player { status: Status::Folded, acted: true, ..p },
            Action::Check => Player { acted: true, ..p },
            Action::Call => Player { acted: true, ..payer },
            Action::RaiseTo(to) => Player { acted: true, ..payer },
        };
        let raise = action matches Action::RaiseTo(to) && self.is_full_raise(to);
        Table {
            // Only a full-size raise gives the others the right to raise again.
            players: Seq::new(
                self.players.len(),
                |j: int|
                    if j == seat {
                        settled
                    } else if raise && is_active(self.players[j]) {
                        Player { acted: false, ..self.players[j] }
                    } else {
                        self.players[j]
                    },
            ),
            bet: if action is RaiseTo {
                action->RaiseTo_0
            } else {
                self.bet
            },
            last_raise: if raise {
                (action->RaiseTo_0 - self.bet) as u32
            } else {
                self.last_raise
            },
            ..self
        }
    }

    /// The table after an action: the turn passes on unless betting is done.
    pub open spec fn after_action(self, action: Action) -> Table {
        let t = self.acted(action);
        if t.betting_done() {
            t
        } else {
            Table {
                to_act: next_active(
                    t.players,
                    seat_after(self.to_act, 1, self.players.len() as int),
                    0,
                ),
                ..t
            }
        }
    }

    /// How many board cards the next street brings.
    pub open spec fn cards_to_come(self) -> int {
        if self.street == Street::Preflop {
            3
        } else {
            1
        }
    }

    /// The table on the next street: the bets are reset and the first seat after
    /// the button that can act opens.
    pub open spec fn after_street(self, cards: Seq<u8>) -> Table {
        let players = self.players.map_values(
            |p: Player| Player { street_committed: 0, acted: false, ..p },
        );
        Table {
            players,
            board: self.board + cards,
            street: match self.street {
                Street::Preflop => Street::Flop,
                Street::Flop => Street::Turn,
                Street::Turn => Street::River,
                Street::River => Street::Showdown,
                Street::Showdown => Street::Showdown,
            },
            to_act: next_active(
                players,
                seat_after(self.button, 1, self.players.len() as int),
                0,
            ),
            bet: 0,
            last_raise: self.bb,
            ..self
        }
    }
}

/// Part of the pot is no more than the pot.
pub proof fn lemma_pot_of_prefix(players: Seq<Player>, i: int)
    requires
        0 <= i <= players.len(),
    ensures
        pot_of(players.take(i)) <= pot_of(players),
    decreases players.len() - i,
{
    if i == players.len() {
        assert(players.take(i) =~= players);
    } else {
        lemma_pot_of_prefix(players, i + 1);
        assert(players.take(i + 1).drop_last() =~= players.take(i));
    }
}

/// The list of live seats is what it says.
pub proof fn lemma_live_seats(players: Seq<Player>)
    requires
        players.len() <= usize::MAX,
    ensures
        live_seats(players).len() == live_count(players),
        forall|k: int|
            0 <= k < live_seats(players).len() ==> (#[trigger] live_seats(players)[k]) < players.len()
                && is_live(players[live_seats(players)[k] as int]),
        forall|i: int|
            0 <= i < players.len() && is_live(#[trigger] players[i]) ==> live_seats(players).contains(
                i as usize,
            ),
    decreases players.len(),
{
    if players.len() > 0 {
        let before = players.drop_last();
        let e = live_seats(players);
        let f = live_seats(before);
        lemma_live_seats(before);
        assert forall|k: int| 0 <= k < e.len() implies (#[trigger] e[k]) < players.len() && is_live(
            players[e[k] as int],
        ) by {
            if k < f.len() {
                assert(e[k] == f[k]);
                assert(before[f[k] as int] == players[f[k] as int]);
            }
        }
        assert forall|i: int| 0 <= i < players.len() && is_live(#[trigger] players[i]) implies e.contains(
            i as usize,
        ) by {
            if i < before.len() {
                assert(is_live(before[i]));
                let k = f.index_of(i as usize);
                assert(e[k] == i as usize);
            } else {
                assert(e[f.len() as int] == i as usize);
            }
        }
    }
}

} // verus!
