//! What side pots and payouts add up to.

use vstd::prelude::*;

use crate::game::Player;
use crate::pots;
use crate::pots::PotModel;
use crate::table;
use crate::table::Table;

verus! {

/// The sum of a list.
pub open spec fn sum(s: Seq<int>) -> int
    decreases s.len(),
{
    if s.len() == 0 {
        0
    } else {
        sum(s.drop_last()) + s.last()
    }
}

/// What each seat is paid.
pub open spec fn payouts(t: Table) -> Seq<int> {
    Seq::new(t.players.len(), |i: int| pots::payout(t, i))
}

/// What each seat gets of a pot.
pub open spec fn shares(pot: PotModel, strength: Seq<int>, first: int) -> Seq<int> {
    Seq::new(strength.len(), |i: int| pots::share_of(pot, strength, first, i))
}

/// What lies in each pot.
pub open spec fn amounts(pots: Seq<PotModel>) -> Seq<int> {
    pots.map_values(|p: PotModel| p.amount)
}

/// The chips can be won: one player is left, or some player who has not folded has
/// chips in, or there are none.
pub open spec fn can_be_won(players: Seq<Player>) -> bool {
    ||| table::live_count(players) == 1
    ||| is_contested(players)
    ||| table::pot_of(players) == 0
}

/// Some player who has not folded has chips in.
pub open spec fn is_contested(players: Seq<Player>) -> bool {
    exists|j: int|
        0 <= j < players.len() && table::is_live(#[trigger] players[j]) && players[j].committed > 0
}

proof fn lemma_sum_append(a: Seq<int>, b: Seq<int>)
    ensures
        sum(a + b) == sum(a) + sum(b),
    decreases b.len(),
{
    if b.len() == 0 {
        assert(a + b =~= a);
    } else {
        assert((a + b).drop_last() =~= a + b.drop_last());
        lemma_sum_append(a, b.drop_last());
    }
}

pub proof fn lemma_sum_bounds(s: Seq<int>, i: int)
    requires
        0 <= i < s.len(),
        forall|j: int| 0 <= j < s.len() ==> #[trigger] s[j] >= 0,
    ensures
        0 <= s[i] <= sum(s),
    decreases s.len(),
{
    reveal_with_fuel(sum, 2);
    if i < s.len() - 1 {
        lemma_sum_bounds(s.drop_last(), i);
    } else if s.len() > 1 {
        lemma_sum_bounds(s.drop_last(), 0);
    }
}

/// Lists that add up entry by entry add up.
pub proof fn lemma_sum_pointwise(a: Seq<int>, b: Seq<int>, c: Seq<int>)
    requires
        a.len() == b.len(),
        a.len() == c.len(),
        forall|i: int| 0 <= i < a.len() ==> #[trigger] c[i] == a[i] + b[i],
    ensures
        sum(c) == sum(a) + sum(b),
    decreases a.len(),
{
    if a.len() > 0 {
        lemma_sum_pointwise(a.drop_last(), b.drop_last(), c.drop_last());
    }
}

pub proof fn lemma_sum_zeros(s: Seq<int>)
    requires
        forall|i: int| 0 <= i < s.len() ==> #[trigger] s[i] == 0,
    ensures
        sum(s) == 0,
    decreases s.len(),
{
    if s.len() > 0 {
        lemma_sum_zeros(s.drop_last());
    }
}

/// A list read round from some place has the same sum.
proof fn lemma_sum_round(s: Seq<int>, first: int)
    requires
        0 <= first < s.len(),
    ensures
        sum(s) == sum(Seq::new(s.len(), |d: int| s[table::seat_after(first, d, s.len() as int)])),
{
    let n = s.len() as int;
    let round = Seq::new(s.len(), |d: int| s[table::seat_after(first, d, n)]);
    let head = s.take(first);
    let tail = s.skip(first);
    assert(s =~= head + tail);
    assert forall|d: int| 0 <= d < n implies #[trigger] round[d] == (tail + head)[d] by {
        if first + d < n {
            vstd::arithmetic::div_mod::lemma_small_mod((first + d) as nat, n as nat);
        } else {
            vstd::arithmetic::div_mod::lemma_mod_sub_multiples_vanish(first + d, n);
            vstd::arithmetic::div_mod::lemma_small_mod((first + d - n) as nat, n as nat);
        }
    }
    assert(round =~= tail + head);
    lemma_sum_append(head, tail);
    lemma_sum_append(tail, head);
}

/// What the first `k` seats from `first` on get of a pot.
proof fn lemma_shares_round(pot: PotModel, strength: Seq<int>, first: int, k: int)
    requires
        0 <= first < strength.len(),
        0 <= k <= strength.len(),
        pots::wins_before(pot.eligible, strength, first, strength.len() as int) > 0,
    ensures
        ({
            let n = strength.len() as int;
            let winners = pots::wins_before(pot.eligible, strength, first, n);
            let w = pots::wins_before(pot.eligible, strength, first, k);
            sum(
                Seq::new(
                    k as nat,
                    |d: int| pots::share_of(pot, strength, first, table::seat_after(first, d, n)),
                ),
            ) == (pot.amount / winners) * w + if w < pot.amount % winners {
                w
            } else {
                pot.amount % winners
            }
        }),
    decreases k,
{
    let n = strength.len() as int;
    let winners = pots::wins_before(pot.eligible, strength, first, n);
    let each = pot.amount / winners;
    let odd = pot.amount % winners;
    let share = |d: int| pots::share_of(pot, strength, first, table::seat_after(first, d, n));
    if k == 0 {
        assert(each * 0 == 0);
    } else {
        lemma_shares_round(pot, strength, first, k - 1);
        assert(Seq::new(k as nat, share).drop_last() =~= Seq::new((k - 1) as nat, share));
        pots::lemma_round_back(first, k - 1, n);
        let w = pots::wins_before(pot.eligible, strength, first, k - 1);
        assert(each * (w + 1) == each * w + each) by (nonlinear_arith);
    }
}

/// A pot is shared out whole.
pub proof fn law_pot_is_shared_out(pot: PotModel, strength: Seq<int>, first: int)
    requires
        strength.len() <= usize::MAX,
        0 <= first < strength.len(),
        pot.eligible.len() > 0,
        forall|j: int| 0 <= j < pot.eligible.len() ==> #[trigger] pot.eligible[j] < strength.len(),
    ensures
        sum(shares(pot, strength, first)) == pot.amount,
{
    let n = strength.len() as int;
    pots::lemma_winners(pot.eligible, strength, first);
    let winners = pots::wins_before(pot.eligible, strength, first, n);
    lemma_shares_round(pot, strength, first, n);
    let s = shares(pot, strength, first);
    lemma_sum_round(s, first);
    let round = Seq::new(s.len(), |d: int| s[table::seat_after(first, d, s.len() as int)]);
    assert forall|d: int| 0 <= d < n implies #[trigger] round[d] == pots::share_of(
        pot,
        strength,
        first,
        table::seat_after(first, d, n),
    ) by {
        pots::lemma_round_back(first, d, n);
    }
    assert(round =~= Seq::new(
        n as nat,
        |d: int| pots::share_of(pot, strength, first, table::seat_after(first, d, n)),
    ));
    vstd::arithmetic::div_mod::lemma_fundamental_div_mod(pot.amount, winners);
    vstd::arithmetic::mul::lemma_mul_is_commutative(winners, pot.amount / winners);
}

/// Winners of a pot share it evenly: no two are more than one chip apart, and
/// of two it is the one that sits earlier from `first` on that gets the odd
/// chip. The others get nothing.
pub proof fn law_pot_is_split_evenly(
    pot: PotModel,
    strength: Seq<int>,
    first: int,
    i: int,
    j: int,
)
    requires
        0 <= first < strength.len(),
        0 <= i < strength.len(),
        0 <= j < strength.len(),
        pots::is_winner(pot.eligible, strength, i),
        pots::distance(first, i, strength.len() as int) <= pots::distance(
            first,
            j,
            strength.len() as int,
        ),
    ensures
        pots::is_winner(pot.eligible, strength, j) ==> pots::share_of(pot, strength, first, j)
            <= pots::share_of(pot, strength, first, i) <= pots::share_of(pot, strength, first, j) + 1,
        !pots::is_winner(pot.eligible, strength, j) ==> pots::share_of(pot, strength, first, j) == 0,
{
    let n = strength.len() as int;
    pots::lemma_round(first, i, n);
    pots::lemma_wins_before(
        pot.eligible,
        strength,
        first,
        pots::distance(first, i, n),
        pots::distance(first, j, n),
    );
}

proof fn lemma_amounts_prepend(pot: PotModel, rest: Seq<PotModel>)
    ensures
        sum(amounts(seq![pot] + rest)) == pot.amount + sum(amounts(rest)),
{
    reveal_with_fuel(sum, 2);
    assert(amounts(seq![pot] + rest) =~= seq![pot.amount] + amounts(rest));
    lemma_sum_append(seq![pot.amount], amounts(rest));
}

proof fn lemma_layers_join(players: Seq<Player>, from: int, mid: int, to: int)
    requires
        from <= mid <= to,
    ensures
        pots::layer_sum(players, from, mid) + pots::layer_sum(players, mid, to) == pots::layer_sum(
            players,
            from,
            to,
        ),
    decreases players.len(),
{
    if players.len() > 0 {
        lemma_layers_join(players.drop_last(), from, mid, to);
    }
}

proof fn lemma_all_layers(players: Seq<Player>)
    ensures
        pots::layer_sum(players, 0, u32::MAX as int) == table::pot_of(players),
    decreases players.len(),
{
    if players.len() > 0 {
        lemma_all_layers(players.drop_last());
    }
}

/// The pots above a level hold what was put in above it, if there are any.
proof fn lemma_pots_add_up(players: Seq<Player>, from: int)
    requires
        0 <= from <= u32::MAX,
    ensures
        sum(amounts(pots::pots_above(players, from))) == if pots::next_level(players, from) is Some {
            pots::layer_sum(players, from, u32::MAX as int)
        } else {
            0
        },
    decreases u32::MAX - from,
{
    pots::lemma_next_level(players, from);
    match pots::next_level(players, from) {
        Some(level) => {
            lemma_pots_add_up(players, level);
            lemma_layers_join(players, from, level, u32::MAX as int);
            lemma_amounts_prepend(
                pots::pot_at(players, from, level),
                pots::pots_above(players, level),
            );
        },
        None => {
            assert(amounts(pots::pots_above(players, from)) =~= seq![]);
        },
    }
}

/// The side pots split the pot: they hold all that was put in, dead money from
/// folded players too, wherever a player who has not folded has chips in.
pub proof fn law_side_pots_split_the_pot(players: Seq<Player>)
    requires
        is_contested(players),
    ensures
        sum(amounts(pots::pots_of(players))) == table::pot_of(players),
{
    pots::lemma_next_level(players, 0);
    lemma_pots_add_up(players, 0);
    lemma_all_layers(players);
}

/// Side pots never hold chips that nobody put in.
pub proof fn law_side_pots_hold_no_more_than_the_pot(players: Seq<Player>)
    ensures
        sum(amounts(pots::pots_of(players))) <= table::pot_of(players),
{
    lemma_pots_add_up(players, 0);
    lemma_all_layers(players);
}

/// Every pot holds chips and is for players who have not folded, and whoever can
/// win a pot can win every pot below it.
pub proof fn law_pots_are_for_live_seats(players: Seq<Player>, k: int, m: int)
    requires
        players.len() <= usize::MAX,
        0 <= k <= m < pots::pots_of(players).len(),
    ensures
        pots::pots_of(players)[k].amount > 0,
        pots::pots_of(players)[k].eligible.len() > 0,
        forall|j: int|
            0 <= j < pots::pots_of(players)[k].eligible.len() ==> {
                let seat = #[trigger] pots::pots_of(players)[k].eligible[j];
                seat < players.len() && table::is_live(players[seat as int])
            },
        forall|seat: usize| #[trigger]
            pots::pots_of(players)[m].eligible.contains(seat) ==> pots::pots_of(
                players,
            )[k].eligible.contains(seat),
{
    pots::lemma_pots_above(players, 0);
    lemma_eligible_nested(players, 0, k, m);
}

proof fn lemma_eligible_nested(players: Seq<Player>, from: int, k: int, m: int)
    requires
        players.len() <= usize::MAX,
        0 <= from,
        0 <= k <= m < pots::pots_above(players, from).len(),
    ensures
        forall|seat: usize| #[trigger]
            pots::pots_above(players, from)[m].eligible.contains(seat) ==> pots::pots_above(
                players,
                from,
            )[k].eligible.contains(seat),
        forall|seat: usize| #[trigger]
            pots::pots_above(players, from)[m].eligible.contains(seat) ==> seat < players.len()
                && table::is_live(players[seat as int]) && players[seat as int].committed > from,
    decreases u32::MAX - from,
{
    pots::lemma_next_level(players, from);
    let level = pots::next_level(players, from)->0;
    let all = pots::pots_above(players, from);
    let rest = pots::pots_above(players, level);
    pots::lemma_eligible_at(players, level);
    if m > 0 {
        assert(all[m] == rest[m - 1]);
        if k > 0 {
            assert(all[k] == rest[k - 1]);
            lemma_eligible_nested(players, level, k - 1, m - 1);
        } else {
            lemma_eligible_nested(players, level, m - 1, m - 1);
        }
    }
    assert forall|seat: usize| #[trigger] all[m].eligible.contains(seat) implies
        all[k].eligible.contains(seat) && seat < players.len() && table::is_live(
        players[seat as int],
    ) && players[seat as int].committed > from by {
        if m == 0 {
            let j = all[0].eligible.index_of(seat);
            assert(all[0].eligible[j] == seat);
        } else {
            assert(rest[m - 1].eligible.contains(seat));
        }
    }
}

/// Sharing out pots, seat by seat, gives out what they hold.
proof fn lemma_pots_are_shared_out(pots: Seq<PotModel>, strength: Seq<int>, first: int)
    requires
        strength.len() <= usize::MAX,
        0 <= first < strength.len(),
        forall|k: int|
            0 <= k < pots.len() ==> {
                let pot = #[trigger] pots[k];
                &&& pot.eligible.len() > 0
                &&& forall|j: int|
                    0 <= j < pot.eligible.len() ==> #[trigger] pot.eligible[j] < strength.len()
            },
    ensures
        sum(Seq::new(strength.len(), |i: int| pots::shares_of(pots, strength, first, i))) == sum(
            amounts(pots),
        ),
    decreases pots.len(),
{
    let all = Seq::new(strength.len(), |i: int| pots::shares_of(pots, strength, first, i));
    if pots.len() == 0 {
        lemma_sum_zeros(all);
    } else {
        let before = pots.drop_last();
        let earlier = Seq::new(strength.len(), |i: int| pots::shares_of(before, strength, first, i));
        assert(pots.last() == pots[pots.len() - 1]);
        assert forall|k: int| 0 <= k < before.len() implies {
            let pot = #[trigger] before[k];
            &&& pot.eligible.len() > 0
            &&& forall|j: int|
                0 <= j < pot.eligible.len() ==> #[trigger] pot.eligible[j] < strength.len()
        } by {
            assert(before[k] == pots[k]);
        }
        lemma_pots_are_shared_out(before, strength, first);
        law_pot_is_shared_out(pots.last(), strength, first);
        lemma_sum_pointwise(earlier, shares(pots.last(), strength, first), all);
        assert(amounts(pots).drop_last() =~= amounts(before));
    }
}

/// One seat is live and the others are not: it alone has an entry.
proof fn lemma_lone_payout(players: Seq<Player>, x: int)
    ensures
        table::live_count(players) == 0 ==> sum(
            Seq::new(
                players.len(),
                |i: int|
                    if table::is_live(players[i]) {
                        x
                    } else {
                        0
                    },
            ),
        ) == 0,
        table::live_count(players) == 1 ==> sum(
            Seq::new(
                players.len(),
                |i: int|
                    if table::is_live(players[i]) {
                        x
                    } else {
                        0
                    },
            ),
        ) == x,
    decreases players.len(),
{
    if players.len() > 0 {
        let before = players.drop_last();
        lemma_lone_payout(before, x);
        let f = |i: int|
            if table::is_live(players[i]) {
                x
            } else {
                0
            };
        let g = |i: int|
            if table::is_live(before[i]) {
                x
            } else {
                0
            };
        assert(Seq::new(players.len(), f).drop_last() =~= Seq::new(before.len(), g));
    }
}

/// What is paid out is what the pots hold, or the whole pot if one seat is left.
proof fn lemma_payouts_add_up(t: Table)
    requires
        t.players.len() <= usize::MAX,
    ensures
        table::live_count(t.players) == 1 ==> sum(payouts(t)) == table::pot_of(t.players),
        table::live_count(t.players) != 1 ==> sum(payouts(t)) == sum(
            amounts(pots::pots_of(t.players)),
        ),
{
    let n = t.players.len() as int;
    if table::live_count(t.players) == 1 {
        lemma_lone_payout(t.players, table::pot_of(t.players) as int);
        assert(payouts(t) =~= Seq::new(
            t.players.len(),
            |i: int|
                if table::is_live(t.players[i]) {
                    table::pot_of(t.players) as int
                } else {
                    0
                },
        ));
    } else if n == 0 {
        assert(pots::next_level(t.players, 0) is None);
        assert(amounts(pots::pots_of(t.players)) =~= seq![]);
    } else {
        let first = table::seat_after(t.button, 1, n);
        vstd::arithmetic::div_mod::lemma_mod_bound(t.button + 1, n);
        pots::lemma_pots_above(t.players, 0);
        lemma_pots_are_shared_out(pots::pots_of(t.players), pots::strengths(t), first);
        assert(payouts(t) =~= Seq::new(
            pots::strengths(t).len(),
            |i: int| pots::shares_of(pots::pots_of(t.players), pots::strengths(t), first, i),
        ));
    }
}

/// The payouts sum to the pot, wherever there is a player to win it: one is left,
/// or one who has not folded has chips in.
pub proof fn law_payouts_sum_to_the_pot(t: Table)
    requires
        t.players.len() <= usize::MAX,
        can_be_won(t.players),
    ensures
        sum(payouts(t)) == table::pot_of(t.players),
{
    lemma_payouts_add_up(t);
    if table::live_count(t.players) != 1 {
        if is_contested(t.players) {
            law_side_pots_split_the_pot(t.players);
        } else {
            lemma_not_contested(t.players);
        }
    }
}

/// Where no player who has not folded has chips in, there are no pots.
proof fn lemma_not_contested(players: Seq<Player>)
    requires
        !is_contested(players),
    ensures
        sum(amounts(pots::pots_of(players))) == 0,
{
    pots::lemma_next_level(players, 0);
    lemma_pots_add_up(players, 0);
}

proof fn lemma_shares_positive(pots: Seq<PotModel>, strength: Seq<int>, first: int, i: int)
    requires
        forall|k: int|
            0 <= k < pots.len() ==> (#[trigger] pots[k]).amount >= 0 && pots::wins_before(
                pots[k].eligible,
                strength,
                first,
                strength.len() as int,
            ) > 0,
    ensures
        pots::shares_of(pots, strength, first, i) >= 0,
{
    pots::lemma_shares_prefix(pots, strength, first, i, 0);
    assert(pots.take(0) =~= seq![]);
}

/// No chips are made: nobody is paid less than nothing, and all together never
/// more than the pot. So where the pot fits a machine word, every side pot and
/// every payout does.
pub proof fn law_payouts_never_exceed_the_pot(t: Table)
    requires
        t.players.len() <= usize::MAX,
    ensures
        sum(payouts(t)) <= table::pot_of(t.players),
        forall|i: int|
            0 <= i < t.players.len() ==> 0 <= #[trigger] pots::payout(t, i) <= table::pot_of(t.players),
        forall|k: int|
            0 <= k < pots::pots_of(t.players).len() ==> (#[trigger] pots::pots_of(
                t.players,
            )[k]).amount <= table::pot_of(t.players),
{
    let all = pots::pots_of(t.players);
    let n = t.players.len() as int;
    lemma_payouts_add_up(t);
    law_side_pots_hold_no_more_than_the_pot(t.players);
    pots::lemma_pots_above(t.players, 0);
    assert forall|k: int| 0 <= k < all.len() implies (#[trigger] all[k]).amount <= table::pot_of(
        t.players,
    ) by {
        assert forall|j: int| 0 <= j < amounts(all).len() implies #[trigger] amounts(all)[j] >= 0 by {
            assert(amounts(all)[j] == all[j].amount);
        }
        lemma_sum_bounds(amounts(all), k);
    }
    if n > 0 {
        let first = table::seat_after(t.button, 1, n);
        vstd::arithmetic::div_mod::lemma_mod_bound(t.button + 1, n);
        assert forall|j: int| 0 <= j < all.len() implies (#[trigger] all[j]).amount >= 0
            && pots::wins_before(all[j].eligible, pots::strengths(t), first, n) > 0 by {
            pots::lemma_winners(all[j].eligible, pots::strengths(t), first);
        }
        assert forall|i: int| 0 <= i < n implies #[trigger] payouts(t)[i] >= 0 by {
            if table::live_count(t.players) != 1 {
                lemma_shares_positive(all, pots::strengths(t), first, i);
            }
        }
        assert forall|i: int| 0 <= i < n implies 0 <= #[trigger] pots::payout(t, i)
            <= table::pot_of(t.players) by {
            lemma_sum_bounds(payouts(t), i);
        }
    }
}

proof fn lemma_shares_prepend(
    pot: PotModel,
    rest: Seq<PotModel>,
    strength: Seq<int>,
    first: int,
    i: int,
)
    ensures
        pots::shares_of(seq![pot] + rest, strength, first, i) == pots::share_of(
            pot,
            strength,
            first,
            i,
        ) + pots::shares_of(rest, strength, first, i),
    decreases rest.len(),
{
    reveal_with_fuel(pots::shares_of, 2);
    if rest.len() == 0 {
        assert(seq![pot] + rest =~= seq![pot]);
        assert(seq![pot].drop_last() =~= seq![]);
    } else {
        assert((seq![pot] + rest).drop_last() =~= seq![pot] + rest.drop_last());
        lemma_shares_prepend(pot, rest.drop_last(), strength, first, i);
    }
}

/// What a seat gets of the pots above a level, against what it has put in.
proof fn lemma_winnings(players: Seq<Player>, strength: Seq<int>, first: int, from: int, i: int)
    requires
        players.len() <= usize::MAX,
        strength.len() == players.len(),
        0 <= first < players.len(),
        0 <= i < players.len(),
        0 <= from <= u32::MAX,
    ensures
        !table::is_live(players[i]) || players[i].committed <= from ==> pots::shares_of(
            pots::pots_above(players, from),
            strength,
            first,
            i,
        ) == 0,
        table::is_live(players[i]) && players[i].committed > from ==> pots::shares_of(
            pots::pots_above(players, from),
            strength,
            first,
            i,
        ) <= pots::layer_sum(players, from, pots::reach(players, players[i].committed as int)),
    decreases u32::MAX - from,
{
    pots::lemma_next_level(players, from);
    if let Some(level) = pots::next_level(players, from) {
        let rest = pots::pots_above(players, level);
        let pot = pots::pot_at(players, from, level);
        lemma_winnings(players, strength, first, level, i);
        lemma_shares_prepend(pot, rest, strength, first, i);
        pots::lemma_eligible_at(players, level);
        pots::lemma_pots_above(players, from);
        assert(pots::pots_above(players, from)[0] == pot);
        if table::is_live(players[i]) && players[i].committed > from {
            pots::lemma_next_level(players, level);
            if level < players[i].committed {
                lemma_layers_join(
                    players,
                    from,
                    level,
                    pots::reach(players, players[i].committed as int),
                );
            }
            law_pot_is_shared_out(pot, strength, first);
            pots::lemma_winners(pot.eligible, strength, first);
            assert forall|j: int| 0 <= j < strength.len() implies #[trigger] shares(
                pot,
                strength,
                first,
            )[j] >= 0 by {
                pots::lemma_share_positive(pot, strength, first, j);
            }
            lemma_sum_bounds(shares(pot, strength, first), i);
        } else if pot.eligible.contains(i as usize) {
            let j = pot.eligible.index_of(i as usize);
            assert(pot.eligible[j] == i);
        }
    }
}

/// A player who folded is paid nothing, and one who shows down against a player
/// who is in for more gets from each player at most as much as they have put in
/// themselves.
pub proof fn law_nobody_wins_more_than_they_matched(t: Table, i: int, j: int)
    requires
        t.players.len() <= usize::MAX,
        0 <= i < t.players.len(),
        0 <= j < t.players.len(),
    ensures
        !table::is_live(t.players[i]) ==> pots::payout(t, i) == 0,
        table::live_count(t.players) != 1 && table::is_live(t.players[i]) && table::is_live(
            t.players[j],
        ) && t.players[i].committed < t.players[j].committed ==> pots::payout(t, i)
            <= pots::layer_sum(t.players, 0, t.players[i].committed as int),
{
    let n = t.players.len() as int;
    vstd::arithmetic::div_mod::lemma_mod_bound(t.button + 1, n);
    lemma_winnings(t.players, pots::strengths(t), table::seat_after(t.button, 1, n), 0, i);
    pots::lemma_next_level(t.players, t.players[i].committed as int);
    if t.players[i].committed == 0 {
        pots::lemma_layer_prefix(t.players, 0, 0, n);
        assert(t.players.take(n) =~= t.players);
    }
}

/// The best hand takes every pot that it is in for: a seat that alone shows down
/// the best hand and has put in as much as anyone still in is paid the whole pot.
pub proof fn law_best_hand_takes_the_pot(t: Table, i: int)
    requires
        t.players.len() <= usize::MAX,
        0 <= i < t.players.len(),
        table::is_live(t.players[i]),
        t.players[i].committed > 0,
        forall|j: int|
            0 <= j < t.players.len() && table::is_live(#[trigger] t.players[j])
                ==> t.players[j].committed <= t.players[i].committed,
        forall|j: int|
            0 <= j < t.players.len() && j != i && table::is_live(#[trigger] t.players[j])
                ==> pots::strengths(t)[j] < pots::strengths(t)[i],
    ensures
        pots::payout(t, i) == table::pot_of(t.players),
{
    let n = t.players.len() as int;
    if table::live_count(t.players) != 1 {
        let first = table::seat_after(t.button, 1, n);
        vstd::arithmetic::div_mod::lemma_mod_bound(t.button + 1, n);
        lemma_best_takes(t.players, pots::strengths(t), first, 0, i);
        assert(is_contested(t.players));
        law_side_pots_split_the_pot(t.players);
    }
}

proof fn lemma_best_takes(players: Seq<Player>, strength: Seq<int>, first: int, from: int, i: int)
    requires
        players.len() <= usize::MAX,
        strength.len() == players.len(),
        0 <= first < players.len(),
        0 <= i < players.len(),
        0 <= from <= u32::MAX,
        table::is_live(players[i]),
        forall|j: int|
            0 <= j < players.len() && table::is_live(#[trigger] players[j]) ==> players[j].committed
                <= players[i].committed,
        forall|j: int|
            0 <= j < players.len() && j != i && table::is_live(#[trigger] players[j])
                ==> strength[j] < strength[i],
    ensures
        pots::shares_of(pots::pots_above(players, from), strength, first, i) == sum(
            amounts(pots::pots_above(players, from)),
        ),
    decreases u32::MAX - from,
{
    pots::lemma_next_level(players, from);
    match pots::next_level(players, from) {
        Some(level) => {
            let rest = pots::pots_above(players, level);
            let pot = pots::pot_at(players, from, level);
            lemma_best_takes(players, strength, first, level, i);
            lemma_shares_prepend(pot, rest, strength, first, i);
            lemma_amounts_prepend(pot, rest);
            pots::lemma_eligible_at(players, level);
            pots::lemma_pots_above(players, from);
            assert(pots::pots_above(players, from)[0] == pot);
            law_pot_is_shared_out(pot, strength, first);
            assert(pot.eligible.contains(i as usize));
            assert forall|j: int| 0 <= j < players.len() && j != i implies #[trigger] shares(
                pot,
                strength,
                first,
            )[j] == 0 by {
                if pots::is_winner(pot.eligible, strength, j) {
                    let k = pot.eligible.index_of(i as usize);
                    assert(strength[pot.eligible[k] as int] <= strength[j]);
                    let m = pot.eligible.index_of(j as usize);
                    assert(pot.eligible[m] == j as usize);
                    assert(table::is_live(players[j]));
                }
            }
            lemma_sum_single(shares(pot, strength, first), i);
        },
        None => {
            assert(amounts(pots::pots_above(players, from)) =~= seq![]);
        },
    }
}

pub proof fn lemma_sum_single(s: Seq<int>, i: int)
    requires
        0 <= i < s.len(),
        forall|j: int| 0 <= j < s.len() && j != i ==> #[trigger] s[j] == 0,
    ensures
        sum(s) == s[i],
    decreases s.len(),
{
    if i == s.len() - 1 {
        lemma_sum_zeros(s.drop_last());
    } else {
        lemma_sum_single(s.drop_last(), i);
    }
}

/// An uncalled bet comes back: a player who shows down and has put in more than
/// anyone else is paid at least what is over.
pub proof fn law_uncalled_bet_comes_back(t: Table, i: int, called: int)
    requires
        t.players.len() <= usize::MAX,
        0 <= i < t.players.len(),
        table::is_live(t.players[i]),
        0 <= called < t.players[i].committed,
        forall|j: int|
            0 <= j < t.players.len() && j != i ==> (#[trigger] t.players[j]).committed <= called,
    ensures
        pots::payout(t, i) >= t.players[i].committed - called,
{
    let n = t.players.len() as int;
    if table::live_count(t.players) == 1 {
        table::lemma_pot_of_prefix(t.players, i);
        table::lemma_pot_of_prefix(t.players, i + 1);
        assert(t.players.take(i + 1).drop_last() =~= t.players.take(i));
    } else {
        vstd::arithmetic::div_mod::lemma_mod_bound(t.button + 1, n);
        lemma_uncalled(
            t.players,
            pots::strengths(t),
            table::seat_after(t.button, 1, n),
            0,
            i,
            called,
        );
    }
}

proof fn lemma_uncalled(
    players: Seq<Player>,
    strength: Seq<int>,
    first: int,
    from: int,
    i: int,
    called: int,
)
    requires
        players.len() <= usize::MAX,
        strength.len() == players.len(),
        0 <= first < players.len(),
        0 <= i < players.len(),
        0 <= from < players[i].committed,
        table::is_live(players[i]),
        0 <= called < players[i].committed,
        forall|j: int|
            0 <= j < players.len() && j != i ==> (#[trigger] players[j]).committed <= called,
    ensures
        pots::shares_of(pots::pots_above(players, from), strength, first, i)
            >= players[i].committed - if from > called {
            from
        } else {
            called
        },
    decreases u32::MAX - from,
{
    pots::lemma_next_level(players, from);
    let level = pots::next_level(players, from)->0;
    let rest = pots::pots_above(players, level);
    let pot = pots::pot_at(players, from, level);
    lemma_shares_prepend(pot, rest, strength, first, i);
    pots::lemma_pots_above(players, from);
    assert(pots::pots_above(players, from)[0] == pot);
    pots::lemma_eligible_at(players, level);
    pots::lemma_winners(pot.eligible, strength, first);
    pots::lemma_share_positive(pot, strength, first, i);
    if level < players[i].committed {
        lemma_uncalled(players, strength, first, level, i, called);
    } else {
        assert forall|j: int| 0 <= j < players.len() && j != i implies #[trigger] shares(
            pot,
            strength,
            first,
        )[j] == 0 by {
            if pot.eligible.contains(j as usize) {
                let k = pot.eligible.index_of(j as usize);
                assert(pot.eligible[k] == j as usize);
            }
        }
        law_pot_is_shared_out(pot, strength, first);
        lemma_sum_single(shares(pot, strength, first), i);
        pots::lemma_layer_prefix(players, from, pots::reach(players, level), i);
        pots::lemma_layer_prefix(players, from, pots::reach(players, level), i + 1);
        assert(players.take(i + 1).drop_last() =~= players.take(i));
        lemma_winnings(players, strength, first, level, i);
    }
}

} // verus!
