//! No-limit hold'em betting engine.
//!
//! The engine owns pot arithmetic, legal-action generation, the min-raise and
//! reopening rules, side pots, and showdown payouts. It deliberately does not
//! deal: the caller supplies board cards. Keeping dealing outside means a
//! hand can be replayed exactly, which is what tests and any
//! variance-reduction work need.
//!
//! Chips are integers in the smallest unit you care about.

use vstd::prelude::*;

use crate::card::NO_CARD;
use crate::eval::eval;
use crate::pots;
use crate::pots::PotModel;
use crate::settle;
use crate::table;
use crate::table::Table;

verus! {

#[derive(Clone, Copy, PartialEq, Eq, Structural, Debug)]
pub enum Status {
    Active,
    Folded,
    AllIn,
}

#[derive(Clone, Copy, PartialEq, Eq, Structural, Debug)]
pub enum Street {
    Preflop,
    Flop,
    Turn,
    River,
    Showdown,
}

#[derive(Clone, Copy, PartialEq, Eq, Structural, Debug)]
pub enum Action {
    Fold,
    Check,
    Call,
    /// Raise the street commitment **to** this total, not **by** it.
    /// "Raise to" is the only unambiguous encoding once short all-ins and
    /// blinds are in play, so the whole engine speaks it.
    RaiseTo(u32),
}

/// What the player to act may legally do.
#[derive(Clone, Copy, Debug)]
pub struct Legal {
    pub fold: bool,
    pub check: bool,
    /// Chips required to call, already capped at the player's stack.
    pub call: Option<u32>,
    /// `(minimum raise-to, maximum raise-to)`, inclusive. When a short stack
    /// cannot make a full raise the two are equal: the all-in.
    pub raise: Option<(u32, u32)>,
}

#[derive(Clone, Debug)]
pub struct Player {
    pub stack: u32,
    pub hole: [u8; 2],
    /// Total put in across the whole hand: the basis for side pots.
    pub committed: u32,
    /// Put in on the current street: the basis for what is owed.
    pub street_committed: u32,
    pub status: Status,
    /// Has acted since the last full raise. Cleared for everyone when the
    /// action reopens.
    pub acted: bool,
}

#[derive(Clone, Debug, PartialEq, Eq)]
pub struct Pot {
    pub amount: u32,
    pub eligible: Vec<usize>,
}

impl View for Pot {
    type V = PotModel;

    open spec fn view(&self) -> PotModel {
        PotModel { amount: self.amount as int, eligible: self.eligible@ }
    }
}

#[derive(Clone, Debug)]
pub struct Game {
    pub players: Vec<Player>,
    pub board: Vec<u8>,
    pub street: Street,
    pub button: usize,
    pub to_act: usize,
    /// Highest street commitment anyone has made this street.
    pub bet: u32,
    /// Size of the last full raise increment; the min-raise is `bet + this`.
    pub last_raise: u32,
    pub bb: u32,
}

impl View for Game {
    type V = Table;

    open spec fn view(&self) -> Table {
        Table {
            players: self.players@,
            board: self.board@,
            street: self.street,
            button: self.button as int,
            to_act: self.to_act as int,
            bet: self.bet,
            last_raise: self.last_raise,
            bb: self.bb,
        }
    }
}

/// The seat `k` places after `start`, going round a table of `n`.
fn seat_after(start: usize, k: usize, n: usize) -> (seat: usize)
    requires
        start < n,
        k <= n,
    ensures
        seat == table::seat_after(start as int, k as int, n as int),
        seat == if start + k < n {
            start + k
        } else {
            start + k - n
        },
        seat < n,
{
    if k < n - start {
        proof {
            vstd::arithmetic::div_mod::lemma_small_mod((start + k) as nat, n as nat);
        }
        start + k
    } else {
        proof {
            vstd::arithmetic::div_mod::lemma_mod_sub_multiples_vanish(start + k, n as int);
            vstd::arithmetic::div_mod::lemma_small_mod((start + k - n) as nat, n as nat);
        }
        k - (n - start)
    }
}

impl Game {
    /// Start a hand and post the blinds.
    ///
    /// Heads-up, the button posts the small blind and acts first preflop but
    /// last on every later street. That inversion is a real rule, not an
    /// off-by-one.
    pub fn new(stacks: &[u32], button: usize, sb: u32, bb: u32) -> (g: Game)
        requires
            stacks.len() >= 2,
            button < stacks.len(),
            sb <= bb,
            bb > 0,
        ensures
            g@ == table::new_table(stacks@, button as int, sb, bb),
    {
        let n: usize = stacks.len();
        let mut players: Vec<Player> = Vec::new();
        for i in 0..n
            invariant
                n == stacks.len(),
                players.len() == i,
                forall|j: int| 0 <= j < i ==> #[trigger] players[j] == table::fresh_player(stacks[j]),
        {
            let p = Player {
                stack: stacks[i],
                hole: [NO_CARD, NO_CARD],
                committed: 0,
                street_committed: 0,
                status: Status::Active,
                acted: false,
            };
            players.push(p);
        }
        let ghost fresh = stacks@.map_values(|x: u32| table::fresh_player(x));
        assert(players@ =~= fresh);
        let sb_pos: usize = if n == 2 {
            button
        } else {
            seat_after(button, 1, n)
        };
        let bb_pos: usize = seat_after(sb_pos, 1, n);
        let mut g = Game {
            players,
            board: Vec::with_capacity(5),
            street: Street::Preflop,
            button,
            to_act: 0,
            bet: 0,
            last_raise: bb,
            bb,
        };
        g.post(sb_pos, sb);
        g.post(bb_pos, bb);
        // A short stack posts what it has, so the bet is what was posted and
        // not what was asked for.
        let small: u32 = g.players[sb_pos].street_committed;
        let big: u32 = g.players[bb_pos].street_committed;
        g.bet = if small < big {
            big
        } else {
            small
        };
        // The blinds are forced, not voluntary: the big blind still has the
        // option to raise, so nobody is marked as having acted.
        g.to_act = g.next_active_from(seat_after(bb_pos, 1, n));
        g
    }

    pub fn set_hole(&mut self, seat: usize, cards: [u8; 2])
        requires
            seat < old(self).players.len(),
        ensures
            final(self)@ == (Table {
                players: old(self)@.players.update(
                    seat as int,
                    Player { hole: cards, ..old(self)@.players[seat as int] },
                ),
                ..old(self)@
            }),
    {
        self.players[seat].hole = cards;
    }

    fn post(&mut self, seat: usize, amount: u32)
        requires
            seat < old(self).players.len(),
            old(self).players[seat as int].committed + amount <= u32::MAX,
            old(self).players[seat as int].street_committed + amount <= u32::MAX,
        ensures
            final(self)@ == (Table {
                players: old(self)@.players.update(
                    seat as int,
                    table::paid(old(self)@.players[seat as int], amount as int),
                ),
                ..old(self)@
            }),
    {
        self.pay(seat, amount);
    }

    fn pay(&mut self, seat: usize, amount: u32)
        requires
            seat < old(self).players.len(),
            old(self).players[seat as int].committed + amount <= u32::MAX,
            old(self).players[seat as int].street_committed + amount <= u32::MAX,
        ensures
            final(self)@ == (Table {
                players: old(self)@.players.update(
                    seat as int,
                    table::paid(old(self)@.players[seat as int], amount as int),
                ),
                ..old(self)@
            }),
    {
        let p = &mut self.players[seat];
        let paid: u32 = if amount < p.stack {
            amount
        } else {
            p.stack
        };
        p.stack = p.stack - paid;
        p.committed = p.committed + paid;
        p.street_committed = p.street_committed + paid;
        if p.stack == 0 {
            p.status = Status::AllIn;
        }
    }

    fn next_active_from(&self, start: usize) -> (seat: usize)
        requires
            start < self.players.len(),
        ensures
            seat == table::next_active(self@.players, start as int, 0),
            seat < self.players.len(),
    {
        let n: usize = self.players.len();
        for k in 0..n
            invariant
                n == self.players.len(),
                start < n,
                table::next_active(self@.players, start as int, 0) == table::next_active(
                    self@.players,
                    start as int,
                    k as int,
                ),
        {
            let i: usize = seat_after(start, k, n);
            if self.players[i].status == Status::Active {
                return i;
            }
        }
        start
    }

    pub fn pot(&self) -> (chips: u32)
        requires
            table::pot_of(self@.players) <= u32::MAX,
        ensures
            chips == table::pot_of(self@.players),
    {
        let mut sum: u32 = 0;
        for i in 0..self.players.len()
            invariant
                sum == table::pot_of(self@.players.take(i as int)),
                table::pot_of(self@.players) <= u32::MAX,
        {
            proof {
                table::lemma_pot_of_prefix(self@.players, i + 1);
                assert(self@.players.take(i + 1).drop_last() =~= self@.players.take(i as int));
            }
            sum = sum + self.players[i].committed;
        }
        assert(self@.players.take(self@.players.len() as int) =~= self@.players);
        sum
    }

    pub fn live_seats(&self) -> (seats: Vec<usize>)
        ensures
            seats@ == table::live_seats(self@.players),
    {
        let mut seats: Vec<usize> = Vec::new();
        for i in 0..self.players.len()
            invariant
                seats@ == table::live_seats(self@.players.take(i as int)),
        {
            proof {
                assert(self@.players.take(i + 1).drop_last() =~= self@.players.take(i as int));
            }
            if self.players[i].status != Status::Folded {
                seats.push(i);
            }
        }
        assert(self@.players.take(self@.players.len() as int) =~= self@.players);
        seats
    }

    /// Non-folded seats, counted without building the `Vec` that `live_seats`
    /// returns.
    fn live_count(&self) -> (n: usize)
        ensures
            n == table::live_count(self@.players),
    {
        let mut n: usize = 0;
        for i in 0..self.players.len()
            invariant
                n == table::live_count(self@.players.take(i as int)),
                n <= i,
        {
            proof {
                assert(self@.players.take(i + 1).drop_last() =~= self@.players.take(i as int));
            }
            if self.players[i].status != Status::Folded {
                n += 1;
            }
        }
        assert(self@.players.take(self@.players.len() as int) =~= self@.players);
        n
    }

    /// True when a player other than the one to act still has chips behind.
    ///
    /// A raise needs someone able to call it. With every opponent already
    /// all-in the extra chips can only return to the raiser as an uncalled bet
    /// at showdown, so the action is not legal at a table and it hangs a dead
    /// subtree off the solver's game tree.
    fn others_can_act(&self) -> (b: bool)
        ensures
            b == self@.others_can_act(),
    {
        for i in 0..self.players.len()
            invariant
                forall|j: int|
                    0 <= j < i && j != self@.to_act ==> !table::is_active(#[trigger] self@.players[j])
                        || self@.players[j].stack == 0,
        {
            if i != self.to_act && self.players[i].status == Status::Active && self.players[i].stack
                > 0 {
                assert(table::is_active(self@.players[i as int]));
                return true;
            }
        }
        false
    }

    pub fn legal(&self) -> (legal: Legal)
        requires
            self.to_act < self.players.len(),
            self@.actor().street_committed + self@.actor().stack <= u32::MAX,
        ensures
            legal == self@.legal(),
    {
        let p = &self.players[self.to_act];
        let owed: u32 = self.bet.saturating_sub(p.street_committed);
        let max_to: u32 = p.street_committed + p.stack;

        // Three conditions gate a raise. You need chips to get past the current
        // bet; you need the right to raise at all, since a player who has
        // already acted only regains it when someone makes a full raise, which
        // is what clears `acted`: facing a short all-in you may call or fold,
        // never re-raise; and somebody else must still have chips to call with.
        // `others_can_act` is last so it is only evaluated when the cheap tests
        // have already passed.
        let raise = if max_to > self.bet && !p.acted && self.others_can_act() {
            let min_to: u32 = if self.last_raise < max_to - self.bet {
                self.bet + self.last_raise
            } else {
                max_to
            };
            Some((min_to, max_to))
        } else {
            None
        };
        Legal {
            // Folding when you could check for free is legal at a table but
            // never correct, and keeping it out removes a whole class of
            // dominated branches from the tree.
            fold: owed > 0,
            check: owed == 0,
            call: if owed > 0 {
                Some(
                    if owed < p.stack {
                        owed
                    } else {
                        p.stack
                    },
                )
            } else {
                None
            },
            raise,
        }
    }

    pub fn betting_done(&self) -> (done: bool)
        ensures
            done == self@.betting_done(),
    {
        if self.live_count() <= 1 {
            return true;
        }
        // One pass over the seats, no allocation.
        let mut n_active: usize = 0;
        let mut all_matched = true;
        let mut all_covered = true;
        for i in 0..self.players.len()
            invariant
                n_active == table::active_count(self@.players.take(i as int)),
                n_active <= i,
                all_matched == forall|j: int|
                    0 <= j < i && table::is_active(#[trigger] self@.players[j])
                        ==> self@.players[j].acted && self@.players[j].street_committed == self.bet,
                all_covered == forall|j: int|
                    0 <= j < i && table::is_active(#[trigger] self@.players[j])
                        ==> self@.players[j].street_committed >= self.bet,
        {
            proof {
                assert(self@.players.take(i + 1).drop_last() =~= self@.players.take(i as int));
                assert(self@.players[i as int] == self.players[i as int]);
            }
            let p = &self.players[i];
            if p.status == Status::Active {
                n_active += 1;
                if !p.acted || p.street_committed != self.bet {
                    all_matched = false;
                }
                if p.street_committed < self.bet {
                    all_covered = false;
                }
            }
        }
        assert(self@.players.take(self@.players.len() as int) =~= self@.players);
        if n_active == 0 {
            // Everyone is all-in; nothing left to decide.
            true
        } else if n_active == 1 {
            // One player still has chips and nobody else can act, so the street
            // ends the moment they owe nothing. This deliberately does *not*
            // require `acted`: every new street clears that flag, and demanding
            // it here would hand the last live player a betting round on each
            // remaining street with no opponent able to call.
            all_covered
        } else {
            all_matched
        }
    }

    /// True when the hand is over: everyone folded but one, or the river
    /// betting is complete.
    pub fn hand_done(&self) -> (done: bool)
        ensures
            done == self@.hand_done(),
    {
        self.live_count() <= 1 || (self.street == Street::River && self.betting_done())
            || self.street == Street::Showdown
    }

    pub fn apply(&mut self, action: Action)
        requires
            !old(self)@.betting_done(),
            old(self).to_act < old(self).players.len(),
            old(self)@.actor().street_committed + old(self)@.actor().stack <= u32::MAX,
            old(self)@.allows(action),
            0 <= old(self)@.cost(action),
            old(self)@.actor().committed + old(self)@.cost(action) <= u32::MAX,
        ensures
            final(self)@ == old(self)@.after_action(action),
    {
        let ghost was = self@;
        let seat: usize = self.to_act;
        let legal = self.legal();
        match action {
            Action::Fold => {
                self.players[seat].status = Status::Folded;
            },
            Action::Check => {},
            Action::Call => {
                if let Some(amount) = legal.call {
                    self.pay(seat, amount);
                }
            },
            Action::RaiseTo(to) => {
                let add: u32 = to - self.players[seat].street_committed;
                self.pay(seat, add);
                let increment: u32 = to - self.bet;
                // Only a full-size raise reopens the action. An all-in for
                // less than a full raise increases the bet but does *not* give
                // players who already acted the right to raise again. Getting
                // this wrong silently inflates the game tree and produces
                // strategies that are not legal at a real table.
                if increment >= self.last_raise {
                    self.last_raise = increment;
                    self.reopen(seat);
                }
                self.bet = to;
            },
        }
        self.players[seat].acted = true;
        assert(self@.players =~= was.acted(action).players);
        assert(self@ == was.acted(action));
        if !self.betting_done() {
            self.to_act = self.next_active_from(seat_after(seat, 1, self.players.len()));
        }
    }

    /// Give every other player who can still act the right to raise again.
    fn reopen(&mut self, seat: usize)
        ensures
            final(self)@ == (Table {
                players: Seq::new(
                    old(self)@.players.len(),
                    |j: int|
                        if j != seat && table::is_active(old(self)@.players[j]) {
                            Player { acted: false, ..old(self)@.players[j] }
                        } else {
                            old(self)@.players[j]
                        },
                ),
                ..old(self)@
            }),
    {
        let n: usize = self.players.len();
        for j in 0..n
            invariant
                n == self.players.len(),
                n == old(self).players.len(),
                self@ == (Table { players: self@.players, ..old(self)@ }),
                forall|i: int|
                    0 <= i < n ==> #[trigger] self@.players[i] == if i < j && i != seat
                        && table::is_active(old(self)@.players[i]) {
                        Player { acted: false, ..old(self)@.players[i] }
                    } else {
                        old(self)@.players[i]
                    },
        {
            if j != seat && self.players[j].status == Status::Active {
                self.players[j].acted = false;
            }
        }
        assert(self@.players =~= Seq::new(
            old(self)@.players.len(),
            |j: int|
                if j != seat && table::is_active(old(self)@.players[j]) {
                    Player { acted: false, ..old(self)@.players[j] }
                } else {
                    old(self)@.players[j]
                },
        ));
    }

    /// Advance to the next street with the supplied board cards (3, then 1,
    /// then 1).
    pub fn next_street(&mut self, cards: &[u8])
        requires
            old(self)@.betting_done(),
            !old(self)@.hand_done(),
            cards.len() == old(self)@.cards_to_come(),
        ensures
            final(self)@ == old(self)@.after_street(cards@),
    {
        self.board.extend_from_slice(cards);
        self.street = match self.street {
            Street::Preflop => Street::Flop,
            Street::Flop => Street::Turn,
            Street::Turn => Street::River,
            _ => Street::Showdown,
        };
        self.bet = 0;
        self.last_raise = self.bb;
        let n: usize = self.players.len();
        let ghost was = old(self)@.players;
        for i in 0..n
            invariant
                n == self.players.len(),
                n == was.len(),
                self@.board == old(self)@.board + cards@,
                self@.street == old(self)@.after_street(cards@).street,
                self.bet == 0,
                self.last_raise == old(self).bb,
                self.bb == old(self).bb,
                self.button == old(self).button,
                forall|j: int|
                    0 <= j < n ==> #[trigger] self@.players[j] == if j < i {
                        Player { street_committed: 0, acted: false, ..was[j] }
                    } else {
                        was[j]
                    },
        {
            self.players[i].street_committed = 0;
            self.players[i].acted = false;
        }
        assert(self@.players =~= old(self)@.after_street(cards@).players);
        assert(n > 0) by {
            assert(table::live_count(was) > 1);
        }
        // Postflop the first live seat left of the button acts first, which is
        // why heads-up the button now acts last.
        self.to_act = self.next_active_from(self.left_of_button());
    }

    /// The first seat after the button.
    fn left_of_button(&self) -> (seat: usize)
        requires
            self.players.len() > 0,
        ensures
            seat == table::seat_after(self.button as int, 1, self.players.len() as int),
            seat < self.players.len(),
    {
        let n: usize = self.players.len();
        proof {
            vstd::arithmetic::div_mod::lemma_add_mod_noop(self.button as int, 1, n as int);
            if n == 1 {
                vstd::arithmetic::div_mod::lemma_add_mod_noop_right(self.button as int % 1, 1, 1);
            } else {
                vstd::arithmetic::div_mod::lemma_small_mod(1, n as nat);
            }
        }
        seat_after(self.button % n, 1, n)
    }

    /// The least that a player who has not folded has put in, of those who put
    /// in more than `from`.
    fn next_level(&self, from: u32) -> (level: Option<u32>)
        ensures
            level matches Some(l) ==> pots::next_level(self@.players, from as int) == Some(l as int)
                && l > from,
            level is None ==> pots::next_level(self@.players, from as int) is None,
    {
        let mut level: Option<u32> = None;
        for i in 0..self.players.len()
            invariant
                level matches Some(l) ==> pots::next_level(
                    self@.players.take(i as int),
                    from as int,
                ) == Some(l as int) && l > from,
                level is None ==> pots::next_level(self@.players.take(i as int), from as int) is None,
        {
            proof {
                assert(self@.players.take(i + 1).drop_last() =~= self@.players.take(i as int));
            }
            let p = &self.players[i];
            if p.status != Status::Folded && p.committed > from {
                match level {
                    Some(l) => {
                        if p.committed < l {
                            level = Some(p.committed);
                        }
                    },
                    None => {
                        level = Some(p.committed);
                    },
                }
            }
        }
        assert(self@.players.take(self@.players.len() as int) =~= self@.players);
        level
    }

    /// What all players have put in above `from` and up to `to`.
    fn layer_sum(&self, from: u32, to: u32) -> (amount: u32)
        requires
            from <= to,
            pots::layer_sum(self@.players, from as int, to as int) <= u32::MAX,
        ensures
            amount == pots::layer_sum(self@.players, from as int, to as int),
    {
        let mut amount: u32 = 0;
        for i in 0..self.players.len()
            invariant
                from <= to,
                pots::layer_sum(self@.players, from as int, to as int) <= u32::MAX,
                amount == pots::layer_sum(self@.players.take(i as int), from as int, to as int),
        {
            proof {
                assert(self@.players.take(i + 1).drop_last() =~= self@.players.take(i as int));
                pots::lemma_layer_prefix(self@.players, from as int, to as int, i + 1);
            }
            let c: u32 = self.players[i].committed;
            let capped: u32 = if c < to {
                c
            } else {
                to
            };
            amount = amount + capped.saturating_sub(from);
        }
        assert(self@.players.take(self@.players.len() as int) =~= self@.players);
        amount
    }

    /// The seats that have not folded and have put in at least `level`.
    fn eligible_at(&self, level: u32) -> (seats: Vec<usize>)
        ensures
            seats@ == pots::eligible_at(self@.players, level as int),
    {
        let mut seats: Vec<usize> = Vec::new();
        for i in 0..self.players.len()
            invariant
                seats@ == pots::eligible_at(self@.players.take(i as int), level as int),
        {
            proof {
                assert(self@.players.take(i + 1).drop_last() =~= self@.players.take(i as int));
            }
            if self.players[i].status != Status::Folded && self.players[i].committed >= level {
                seats.push(i);
            }
        }
        assert(self@.players.take(self@.players.len() as int) =~= self@.players);
        seats
    }

    /// Split the pot into a main pot and any side pots, lowest first.
    ///
    /// Chips from folded players are dead money and belong to the lowest pots
    /// they reached, so they are counted here even though those seats are not
    /// eligible to win.
    pub fn side_pots(&self) -> (split: Vec<Pot>)
        requires
            forall|k: int|
                0 <= k < pots::pots_of(self@.players).len() ==> (#[trigger] pots::pots_of(
                    self@.players,
                )[k]).amount <= u32::MAX,
        ensures
            split@.map_values(|p: Pot| p@) == pots::pots_of(self@.players),
    {
        let mut split: Vec<Pot> = Vec::new();
        let mut prev: u32 = 0;
        let mut next: Option<u32> = self.next_level(0);
        let ghost all = pots::pots_of(self@.players);
        assert(all =~= split@.map_values(|p: Pot| p@) + pots::pots_above(self@.players, 0));
        loop
            invariant
                all == pots::pots_of(self@.players),
                forall|k: int| 0 <= k < all.len() ==> (#[trigger] all[k]).amount <= u32::MAX,
                all == split@.map_values(|p: Pot| p@) + pots::pots_above(self@.players, prev as int),
                next matches Some(l) ==> pots::next_level(self@.players, prev as int) == Some(
                    l as int,
                ) && l > prev,
                next is None ==> pots::next_level(self@.players, prev as int) is None,
            decreases u32::MAX - prev,
        {
            match next {
                Some(level) => {
                    let ghost above = pots::pots_above(self@.players, prev as int);
                    let ghost done = split@.map_values(|p: Pot| p@);
                    next = self.next_level(level);
                    // The last pot takes all that is above it, so that no dead
                    // money is left out.
                    let top: u32 = if next.is_none() {
                        u32::MAX
                    } else {
                        level
                    };
                    proof {
                        assert(above[0] == pots::pot_at(
                            self@.players,
                            prev as int,
                            level as int,
                        ));
                        assert(all[done.len() as int] == above[0]);
                    }
                    let amount: u32 = self.layer_sum(prev, top);
                    let eligible = self.eligible_at(level);
                    split.push(Pot { amount, eligible });
                    proof {
                        assert(split@.map_values(|p: Pot| p@) =~= done.push(above[0]));
                        assert(all =~= split@.map_values(|p: Pot| p@) + pots::pots_above(
                            self@.players,
                            level as int,
                        ));
                    }
                    prev = level;
                },
                None => {
                    assert(pots::pots_above(self@.players, prev as int) =~= seq![]);
                    assert(split@.map_values(|p: Pot| p@) =~= all);
                    return split;
                },
            }
        }
    }

    /// What each seat shows down.
    fn strengths(&self) -> (strength: Vec<u32>)
        requires
            self.board.len() == 5,
            forall|i: int|
                0 <= i < self.players.len() && table::is_live(#[trigger] self.players[i])
                    ==> shows_cards(self.board@, self.players[i]),
        ensures
            strength@.map_values(|x: u32| x as int) == pots::strengths(self@),
    {
        let mut strength: Vec<u32> = Vec::new();
        for i in 0..self.players.len()
            invariant
                self.board.len() == 5,
                forall|i: int|
                    0 <= i < self.players.len() && table::is_live(#[trigger] self.players[i])
                        ==> shows_cards(self.board@, self.players[i]),
                strength.len() == i,
                forall|j: int| 0 <= j < i ==> #[trigger] strength[j] == pots::strengths(self@)[j],
        {
            let p = &self.players[i];
            if p.status != Status::Folded {
                let seven: [u8; 7] = [
                    self.board[0],
                    self.board[1],
                    self.board[2],
                    self.board[3],
                    self.board[4],
                    p.hole[0],
                    p.hole[1],
                ];
                proof {
                    assert(seven@ =~= pots::seven(self.board@, *p));
                    assert(shows_cards(self.board@, self.players[i as int]));
                }
                strength.push(eval(&seven));
            } else {
                strength.push(0);
            }
        }
        assert(strength@.map_values(|x: u32| x as int) =~= pots::strengths(self@));
        strength
    }

    /// Chips returned to each seat. Indexed by seat; sums to the pot.
    ///
    /// Each pot goes in even shares to the best hands that can win it. Odd chips
    /// go one by one to the first winners left of the button.
    pub fn payouts(&self) -> (out: Vec<u32>)
        requires
            self.players.len() <= u32::MAX,
            table::live_count(self@.players) != 1 ==> {
                &&& self.board.len() == 5
                &&& forall|i: int|
                    0 <= i < self.players.len() && table::is_live(#[trigger] self.players[i])
                        ==> shows_cards(self.board@, self.players[i])
                &&& forall|k: int|
                    0 <= k < pots::pots_of(self@.players).len() ==> (#[trigger] pots::pots_of(
                        self@.players,
                    )[k]).amount <= u32::MAX
            },
            forall|i: int| 0 <= i < self.players.len() ==> #[trigger] pots::payout(self@, i) <= u32::MAX,
        ensures
            out.len() == self.players.len(),
            forall|i: int| 0 <= i < out.len() ==> #[trigger] out[i] == pots::payout(self@, i),
            settle::can_be_won(self@.players) ==> settle::sum(out@.map_values(|x: u32| x as int))
                == table::pot_of(self@.players),
    {
        let n: usize = self.players.len();
        let mut out: Vec<u32> = vec![0; n];
        let live = self.live_seats();
        proof {
            table::lemma_live_seats(self@.players);
        }
        if live.len() == 1 {
            let seat: usize = live[0];
            proof {
                assert forall|i: int| 0 <= i < n && i != seat implies !table::is_live(
                    #[trigger] self@.players[i],
                ) by {
                    if table::is_live(self@.players[i]) {
                        let k = live@.index_of(i as usize);
                        assert(k == 0);
                    }
                }
                assert(pots::payout(self@, seat as int) <= u32::MAX);
            }
            out[seat] = self.pot();
            proof {
                self.lemma_paid_out(out@);
            }
            return out;
        }
        let strength = self.strengths();
        let split = self.side_pots();
        let ghost all = pots::pots_of(self@.players);
        let ghost str = pots::strengths(self@);
        let ghost first = table::seat_after(self.button as int, 1, n as int);
        proof {
            pots::lemma_pots_above(self@.players, 0);
            assert forall|i: int| 0 <= i < n implies #[trigger] pots::shares_of(all, str, first, i)
                <= u32::MAX by {
                assert(pots::payout(self@, i) <= u32::MAX);
            }
        }
        for k in 0..split.len()
            invariant
                n == self.players.len(),
                n <= u32::MAX,
                n == out.len(),
                str.len() == n,
                strength@.map_values(|x: u32| x as int) == str,
                first == table::seat_after(self.button as int, 1, n as int),
                all == split@.map_values(|p: Pot| p@),
                forall|k: int|
                    0 <= k < all.len() ==> {
                        let pot = #[trigger] all[k];
                        &&& pot.amount > 0
                        &&& pot.eligible.len() > 0
                        &&& forall|j: int|
                            0 <= j < pot.eligible.len() ==> (#[trigger] pot.eligible[j]) < n
                    },
                forall|i: int| 0 <= i < n ==> #[trigger] pots::shares_of(all, str, first, i) <= u32::MAX,
                forall|i: int|
                    0 <= i < n ==> #[trigger] out[i] == pots::shares_of(all.take(k as int), str, first, i),
        {
            proof {
                assert(all[k as int] == split[k as int]@);
                assert(all[k as int].eligible[0] < n);
            }
            let left: usize = self.left_of_button();
            proof {
                assert forall|j: int| 0 <= j < all.len() implies (#[trigger] all[j]).amount >= 0
                    && pots::wins_before(all[j].eligible, str, first, n as int) > 0 by {
                    pots::lemma_winners(all[j].eligible, str, first);
                }
                assert(all.take(k + 1).drop_last() =~= all.take(k as int));
                assert(all.take(k + 1).last() == all[k as int]);
                assert forall|i: int| 0 <= i < n implies #[trigger] out[i] + pots::share_of(
                    all[k as int],
                    str,
                    first,
                    i,
                ) <= u32::MAX by {
                    pots::lemma_shares_prefix(all, str, first, i, k + 1);
                    assert(pots::shares_of(all, str, first, i) <= u32::MAX);
                }
            }
            award(&split[k], &strength, left, &mut out);
        }
        proof {
            assert(all.take(all.len() as int) =~= all);
            assert forall|i: int| 0 <= i < n implies #[trigger] out[i] == pots::payout(self@, i) by {
                assert(out[i] == pots::shares_of(all, str, first, i));
            }
            self.lemma_paid_out(out@);
        }
        out
    }

    /// What is paid out is the pot.
    proof fn lemma_paid_out(&self, out: Seq<u32>)
        requires
            out.len() == self.players.len(),
            forall|i: int| 0 <= i < out.len() ==> #[trigger] out[i] == pots::payout(self@, i),
        ensures
            settle::can_be_won(self@.players) ==> settle::sum(out.map_values(|x: u32| x as int))
                == table::pot_of(self@.players),
    {
        if settle::can_be_won(self@.players) {
            assert(out.map_values(|x: u32| x as int) =~= settle::payouts(self@));
            settle::law_payouts_sum_to_the_pot(self@);
        }
    }
}

/// The player's seven cards are cards.
pub open spec fn shows_cards(board: Seq<u8>, p: Player) -> bool {
    forall|i: int| 0 <= i < pots::seven(board, p).len() ==> #[trigger] pots::seven(board, p)[i] < 52
}

/// Share one pot among its winners: evenly, and the odd chips one by one from
/// seat `first` on.
fn award(pot: &Pot, strength: &Vec<u32>, first: usize, out: &mut Vec<u32>)
    requires
        0 < strength.len() <= u32::MAX,
        strength.len() == old(out).len(),
        first < strength.len(),
        pot.eligible.len() > 0,
        forall|j: int| 0 <= j < pot.eligible.len() ==> #[trigger] pot.eligible[j] < strength.len(),
        forall|i: int|
            0 <= i < strength.len() ==> #[trigger] old(out)[i] + pots::share_of(
                pot@,
                strength@.map_values(|x: u32| x as int),
                first as int,
                i,
            ) <= u32::MAX,
    ensures
        final(out).len() == old(out).len(),
        forall|i: int|
            0 <= i < strength.len() ==> #[trigger] final(out)[i] == old(out)[i] + pots::share_of(
                pot@,
                strength@.map_values(|x: u32| x as int),
                first as int,
                i,
            ),
{
    let n: usize = strength.len();
    let ghost str = strength@.map_values(|x: u32| x as int);
    let ghost eligible = pot.eligible@;
    let mut best: u32 = strength[pot.eligible[0]];
    let ghost mut at: int = 0;
    for j in 1..pot.eligible.len()
        invariant
            n == strength.len(),
            eligible == pot.eligible@,
            0 <= at < eligible.len(),
            forall|j: int| 0 <= j < eligible.len() ==> #[trigger] eligible[j] < n,
            best == strength[eligible[at] as int],
            forall|i: int| 0 <= i < j ==> strength[#[trigger] eligible[i] as int] <= best,
    {
        let s: u32 = strength[pot.eligible[j]];
        if s > best {
            best = s;
            proof {
                at = j as int;
            }
        }
    }
    let mut wins: Vec<bool> = vec![false; n];
    for j in 0..pot.eligible.len()
        invariant
            n == strength.len(),
            n == wins.len(),
            eligible == pot.eligible@,
            forall|j: int| 0 <= j < eligible.len() ==> #[trigger] eligible[j] < n,
            forall|i: int|
                0 <= i < n ==> (#[trigger] wins[i] <==> eligible.take(j as int).contains(i as usize)
                    && strength[i] == best),
    {
        let e: usize = pot.eligible[j];
        proof {
            assert(eligible.take(j + 1) =~= eligible.take(j as int).push(e));
            assert forall|x: usize| eligible.take(j + 1).contains(x) == (eligible.take(
                j as int,
            ).contains(x) || x == e) by {
                if eligible.take(j as int).contains(x) {
                    let i = eligible.take(j as int).index_of(x);
                    assert(eligible.take(j + 1)[i] == x);
                }
                assert(eligible.take(j + 1)[j as int] == e);
            }
        }
        if strength[e] == best {
            wins[e] = true;
        }
    }
    proof {
        assert(eligible.take(eligible.len() as int) =~= eligible);
        assert forall|i: int| 0 <= i < n implies (#[trigger] wins[i] <==> pots::is_winner(
            eligible,
            str,
            i,
        )) by {
            if pots::is_winner(eligible, str, i) {
                assert(str[eligible[at] as int] <= str[i]);
                let k = eligible.index_of(i as usize);
                assert(strength[eligible[k] as int] <= best);
            }
            if wins[i] {
                assert forall|j: int| 0 <= j < eligible.len() implies str[#[trigger] eligible[j] as int]
                    <= str[i] by {
                    assert(strength[eligible[j] as int] <= best);
                }
            }
        }
        pots::lemma_winners(eligible, str, first as int);
    }
    let mut winners: u32 = 0;
    for d in 0..n
        invariant
            n == strength.len(),
            n == wins.len(),
            n <= u32::MAX,
            n == str.len(),
            first < n,
            forall|i: int|
                0 <= i < n ==> (#[trigger] wins[i] <==> pots::is_winner(eligible, str, i)),
            winners == pots::wins_before(eligible, str, first as int, d as int),
            winners <= d,
    {
        if wins[seat_after(first, d, n)] {
            winners += 1;
        }
    }
    let share: u32 = pot.amount / winners;
    let mut odd: u32 = pot.amount % winners;
    let ghost was = out@;
    let ghost left_over = odd as int;
    for d in 0..n
        invariant
            n == strength.len(),
            n == wins.len(),
            n == str.len(),
            n == out.len(),
            n == was.len(),
            first < n,
            was == old(out)@,
            str == strength@.map_values(|x: u32| x as int),
            eligible == pot@.eligible,
            forall|i: int|
                0 <= i < n ==> (#[trigger] wins[i] <==> pots::is_winner(eligible, str, i)),
            winners == pots::wins_before(eligible, str, first as int, n as int),
            winners > 0,
            share == pot@.amount / winners as int,
            left_over == pot@.amount % winners as int,
            odd == if pots::wins_before(eligible, str, first as int, d as int) < left_over {
                left_over - pots::wins_before(eligible, str, first as int, d as int)
            } else {
                0
            },
            forall|i: int|
                0 <= i < n ==> #[trigger] was[i] + pots::share_of(pot@, str, first as int, i)
                    <= u32::MAX,
            forall|i: int|
                0 <= i < n ==> #[trigger] out[i] == was[i] + if pots::distance(
                    first as int,
                    i,
                    n as int,
                ) < d {
                    pots::share_of(pot@, str, first as int, i)
                } else {
                    0
                },
    {
        let seat: usize = seat_after(first, d, n);
        proof {
            pots::lemma_round_back(first as int, d as int, n as int);
            assert forall|i: int| 0 <= i < n && i != seat implies pots::distance(
                first as int,
                i,
                n as int,
            ) != d by {
                pots::lemma_round(first as int, i, n as int);
            }
            assert(was[seat as int] + pots::share_of(pot@, str, first as int, seat as int)
                <= u32::MAX);
            assert(out[seat as int] == was[seat as int]);
        }
        if wins[seat] {
            if odd > 0 {
                out[seat] = out[seat] + (share + 1);
                odd -= 1;
            } else {
                out[seat] = out[seat] + share;
            }
        }
    }
    proof {
        assert forall|i: int| 0 <= i < n implies #[trigger] out[i] == was[i] + pots::share_of(
            pot@,
            str,
            first as int,
            i,
        ) by {
            pots::lemma_round(first as int, i, n as int);
        }
    }
}

} // verus!
