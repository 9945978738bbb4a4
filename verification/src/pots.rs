//! Side pots and showdown payouts, as a model.

use vstd::prelude::*;

use crate::eval;
use crate::game::Player;
use crate::table;
use crate::table::Table;

verus! {

/// A pot: its chips and the seats that can win it.
#[verifier::ext_equal]
pub struct PotModel {
    pub amount: int,
    pub eligible: Seq<usize>,
}

/// The part of `chips` that lies above `from` and up to `to`.
pub open spec fn layer(chips: int, from: int, to: int) -> int {
    if chips <= from {
        0
    } else if chips <= to {
        chips - from
    } else {
        to - from
    }
}

/// What all players, folded or not, have put in between two levels.
pub open spec fn layer_sum(players: Seq<Player>, from: int, to: int) -> int
    decreases players.len(),
{
    if players.len() == 0 {
        0
    } else {
        layer_sum(players.drop_last(), from, to) + layer(players.last().committed as int, from, to)
    }
}

/// The seats that have not folded and have put in at least `level`, in order.
pub open spec fn eligible_at(players: Seq<Player>, level: int) -> Seq<usize>
    decreases players.len(),
{
    if players.len() == 0 {
        seq![]
    } else if table::is_live(players.last()) && players.last().committed >= level {
        eligible_at(players.drop_last(), level).push((players.len() - 1) as usize)
    } else {
        eligible_at(players.drop_last(), level)
    }
}

/// The least that a player who has not folded has put in, of those who put in
/// more than `from`.
pub open spec fn next_level(players: Seq<Player>, from: int) -> Option<int>
    decreases players.len(),
{
    if players.len() == 0 {
        None
    } else {
        let p = players.last();
        let rest = next_level(players.drop_last(), from);
        if table::is_live(p) && p.committed > from && (rest is None || p.committed < rest->0) {
            Some(p.committed as int)
        } else {
            rest
        }
    }
}

/// How far up the pot of a level reaches: to the level, or without end if no
/// player who has not folded is in for more. So the last pot takes what a folded
/// player has put in beyond it.
pub open spec fn reach(players: Seq<Player>, level: int) -> int {
    if next_level(players, level) is None {
        u32::MAX as int
    } else {
        level
    }
}

/// The pot from a level up to the next.
pub open spec fn pot_at(players: Seq<Player>, from: int, level: int) -> PotModel {
    PotModel {
        amount: layer_sum(players, from, reach(players, level)),
        eligible: eligible_at(players, level),
    }
}

/// The pots above a level, lowest first: one for each level that a player who
/// has not folded is in for.
pub open spec fn pots_above(players: Seq<Player>, from: int) -> Seq<PotModel>
    decreases u32::MAX - from,
{
    match next_level(players, from) {
        Some(level) => {
            proof {
                lemma_next_level(players, from);
            }
            seq![pot_at(players, from, level)] + pots_above(players, level)
        },
        None => seq![],
    }
}

/// The main pot and the side pots.
pub open spec fn pots_of(players: Seq<Player>) -> Seq<PotModel> {
    pots_above(players, 0)
}

/// The seven cards that a player shows down.
pub open spec fn seven(board: Seq<u8>, p: Player) -> Seq<u8> {
    board + seq![p.hole[0], p.hole[1]]
}

/// What each seat shows down; a folded hand counts for nothing.
pub open spec fn strengths(t: Table) -> Seq<int> {
    Seq::new(
        t.players.len(),
        |i: int|
            if table::is_live(t.players[i]) {
                eval::hand_score(seven(t.board, t.players[i]))
            } else {
                0
            },
    )
}

/// Seat `i` can win the pot, and no seat that can has a stronger hand.
pub open spec fn is_winner(eligible: Seq<usize>, strength: Seq<int>, i: int) -> bool {
    &&& eligible.contains(i as usize)
    &&& forall|j: int| 0 <= j < eligible.len() ==> strength[#[trigger] eligible[j] as int] <= strength[i]
}

/// How many of the first `k` seats from `first` on, going round, win.
pub open spec fn wins_before(
    eligible: Seq<usize>,
    strength: Seq<int>,
    first: int,
    k: int,
) -> int
    decreases k,
{
    if k <= 0 {
        0
    } else {
        wins_before(eligible, strength, first, k - 1) + if is_winner(
            eligible,
            strength,
            table::seat_after(first, k - 1, strength.len() as int),
        ) {
            1int
        } else {
            0int
        }
    }
}

/// How far seat `i` is from seat `first`, going round.
pub open spec fn distance(first: int, i: int, n: int) -> int {
    if i >= first {
        i - first
    } else {
        i + n - first
    }
}

/// What seat `i` gets of a pot: an even share among the winners, and of the
/// chips left over one each for the first winners from `first` on.
pub open spec fn share_of(pot: PotModel, strength: Seq<int>, first: int, i: int) -> int {
    let n = strength.len() as int;
    let winners = wins_before(pot.eligible, strength, first, n);
    if is_winner(pot.eligible, strength, i) {
        pot.amount / winners + if wins_before(
            pot.eligible,
            strength,
            first,
            distance(first, i, n),
        ) < pot.amount % winners {
            1int
        } else {
            0int
        }
    } else {
        0
    }
}

/// What seat `i` gets of some pots.
pub open spec fn shares_of(pots: Seq<PotModel>, strength: Seq<int>, first: int, i: int) -> int
    decreases pots.len(),
{
    if pots.len() == 0 {
        0
    } else {
        shares_of(pots.drop_last(), strength, first, i) + share_of(
            pots.last(),
            strength,
            first,
            i,
        )
    }
}

/// What seat `i` is paid: the whole pot if it is the only one left, its shares
/// of the pots otherwise. Odd chips start left of the button.
pub open spec fn payout(t: Table, i: int) -> int {
    if table::live_count(t.players) == 1 {
        if table::is_live(t.players[i]) {
            table::pot_of(t.players) as int
        } else {
            0
        }
    } else {
        shares_of(
            pots_of(t.players),
            strengths(t),
            table::seat_after(t.button, 1, t.players.len() as int),
            i,
        )
    }
}

pub proof fn lemma_next_level(players: Seq<Player>, from: int)
    ensures
        next_level(players, from) matches Some(level) ==> from < level <= u32::MAX && exists|i: int|
            0 <= i < players.len() && table::is_live(#[trigger] players[i]) && players[i].committed
                == level,
        forall|i: int|
            0 <= i < players.len() && table::is_live(#[trigger] players[i]) && players[i].committed
                > from ==> next_level(players, from) is Some && next_level(players, from)->0
                <= players[i].committed,
    decreases players.len(),
{
    if players.len() > 0 {
        let before = players.drop_last();
        lemma_next_level(before, from);
        assert forall|i: int|
            0 <= i < players.len() && table::is_live(#[trigger] players[i]) && players[i].committed
                > from implies next_level(players, from) is Some && next_level(players, from)->0
            <= players[i].committed by {
            if i < before.len() {
                assert(table::is_live(before[i]));
            }
        }
        if let Some(level) = next_level(players, from) {
            if next_level(before, from) == Some(level) {
                let i = choose|i: int|
                    0 <= i < before.len() && table::is_live(#[trigger] before[i])
                        && before[i].committed == level;
                assert(players[i] == before[i]);
            } else {
                assert(table::is_live(players[players.len() - 1]));
            }
        }
    }
}

/// Which seats are eligible.
pub proof fn lemma_eligible_at(players: Seq<Player>, level: int)
    requires
        players.len() <= usize::MAX,
    ensures
        forall|i: int|
            0 <= i < eligible_at(players, level).len() ==> {
                let seat = #[trigger] eligible_at(players, level)[i];
                seat < players.len() && table::is_live(players[seat as int])
                    && players[seat as int].committed >= level
            },
        forall|i: int|
            0 <= i < players.len() && table::is_live(#[trigger] players[i]) && players[i].committed
                >= level ==> eligible_at(players, level).contains(i as usize),
    decreases players.len(),
{
    if players.len() > 0 {
        let before = players.drop_last();
        let e = eligible_at(players, level);
        let f = eligible_at(before, level);
        lemma_eligible_at(before, level);
        assert forall|i: int| 0 <= i < e.len() implies {
            let seat = #[trigger] e[i];
            seat < players.len() && table::is_live(players[seat as int])
                && players[seat as int].committed >= level
        } by {
            if i < f.len() {
                assert(e[i] == f[i]);
                assert(before[f[i] as int] == players[f[i] as int]);
            }
        }
        assert forall|i: int|
            0 <= i < players.len() && table::is_live(#[trigger] players[i]) && players[i].committed
                >= level implies e.contains(i as usize) by {
            if i < before.len() {
                assert(table::is_live(before[i]));
                let k = f.index_of(i as usize);
                assert(e[k] == i as usize);
            } else {
                assert(e[f.len() as int] == i as usize);
            }
        }
    }
}

/// One of the seats that can win does.
pub proof fn lemma_someone_wins(eligible: Seq<usize>, strength: Seq<int>) -> (i: int)
    requires
        eligible.len() > 0,
        strength.len() <= usize::MAX,
        forall|j: int| 0 <= j < eligible.len() ==> #[trigger] eligible[j] < strength.len(),
    ensures
        0 <= i < strength.len(),
        is_winner(eligible, strength, i),
    decreases eligible.len(),
{
    let last = eligible.last();
    assert(last == eligible[eligible.len() - 1]);
    if eligible.len() == 1 {
        assert(eligible.contains(last));
        last as int
    } else {
        let before = eligible.drop_last();
        assert forall|j: int| 0 <= j < before.len() implies #[trigger] before[j] < strength.len() by {
            assert(before[j] == eligible[j]);
        }
        let i = lemma_someone_wins(before, strength);
        let best = if strength[last as int] > strength[i] {
            last as int
        } else {
            i
        };
        assert(eligible.contains(best as usize)) by {
            if best == i {
                let k = before.index_of(i as usize);
                assert(eligible[k] == i as usize);
            }
        }
        assert forall|j: int| 0 <= j < eligible.len() implies strength[#[trigger] eligible[j] as int]
            <= strength[best] by {
            if j < before.len() {
                assert(before[j] == eligible[j]);
            }
        }
        best
    }
}

/// Going round counts every winner.
pub proof fn lemma_wins_before(
    eligible: Seq<usize>,
    strength: Seq<int>,
    first: int,
    k: int,
    m: int,
)
    requires
        0 <= k <= m,
    ensures
        0 <= wins_before(eligible, strength, first, k) <= wins_before(eligible, strength, first, m),
        wins_before(eligible, strength, first, m) <= m,
    decreases m,
{
    if m > 0 {
        if k < m {
            lemma_wins_before(eligible, strength, first, k, m - 1);
        } else {
            lemma_wins_before(eligible, strength, first, m - 1, m - 1);
        }
    }
}

/// The seat at a distance is at that distance.
pub proof fn lemma_round(first: int, i: int, n: int)
    requires
        0 <= first < n,
        0 <= i < n,
    ensures
        0 <= distance(first, i, n) < n,
        table::seat_after(first, distance(first, i, n), n) == i,
{
    if i >= first {
        vstd::arithmetic::div_mod::lemma_small_mod(i as nat, n as nat);
    } else {
        vstd::arithmetic::div_mod::lemma_mod_sub_multiples_vanish(i + n, n);
        vstd::arithmetic::div_mod::lemma_small_mod(i as nat, n as nat);
    }
}

/// Where anyone can win, there are winners to share among.
pub proof fn lemma_winners(eligible: Seq<usize>, strength: Seq<int>, first: int)
    requires
        eligible.len() > 0,
        strength.len() <= usize::MAX,
        forall|j: int| 0 <= j < eligible.len() ==> #[trigger] eligible[j] < strength.len(),
        0 <= first < strength.len(),
    ensures
        wins_before(eligible, strength, first, strength.len() as int) > 0,
{
    let n = strength.len() as int;
    let i = lemma_someone_wins(eligible, strength);
    lemma_round(first, i, n);
    let d = distance(first, i, n);
    assert(wins_before(eligible, strength, first, d + 1) >= 1) by {
        lemma_wins_before(eligible, strength, first, d, d);
    }
    lemma_wins_before(eligible, strength, first, d + 1, n);
}

/// Part of a layer is no more than the layer.
pub proof fn lemma_layer_prefix(players: Seq<Player>, from: int, to: int, i: int)
    requires
        0 <= i <= players.len(),
        from <= to,
    ensures
        0 <= layer_sum(players.take(i), from, to) <= layer_sum(players, from, to),
    decreases players.len() - i,
{
    if i == players.len() {
        assert(players.take(i) =~= players);
        lemma_layer_sum_positive(players, from, to);
    } else {
        lemma_layer_prefix(players, from, to, i + 1);
        assert(players.take(i + 1).drop_last() =~= players.take(i));
        lemma_layer_sum_positive(players.take(i), from, to);
    }
}

proof fn lemma_layer_sum_positive(players: Seq<Player>, from: int, to: int)
    requires
        from <= to,
    ensures
        0 <= layer_sum(players, from, to),
    decreases players.len(),
{
    if players.len() > 0 {
        lemma_layer_sum_positive(players.drop_last(), from, to);
    }
}

/// Going round from `first`, distances and seats answer each other.
pub proof fn lemma_round_back(first: int, d: int, n: int)
    requires
        0 <= first < n,
        0 <= d < n,
    ensures
        0 <= table::seat_after(first, d, n) < n,
        distance(first, table::seat_after(first, d, n), n) == d,
{
    if first + d < n {
        vstd::arithmetic::div_mod::lemma_small_mod((first + d) as nat, n as nat);
    } else {
        vstd::arithmetic::div_mod::lemma_mod_sub_multiples_vanish(first + d, n);
        vstd::arithmetic::div_mod::lemma_small_mod((first + d - n) as nat, n as nat);
    }
}

/// A share is never negative.
pub proof fn lemma_share_positive(pot: PotModel, strength: Seq<int>, first: int, i: int)
    requires
        pot.amount >= 0,
        wins_before(pot.eligible, strength, first, strength.len() as int) > 0,
    ensures
        share_of(pot, strength, first, i) >= 0,
{
    vstd::arithmetic::div_mod::lemma_div_pos_is_pos(
        pot.amount,
        wins_before(pot.eligible, strength, first, strength.len() as int),
    );
}

/// The pots can be won: each has chips and a seat that has not folded.
pub proof fn lemma_pots_above(players: Seq<Player>, from: int)
    requires
        players.len() <= usize::MAX,
        0 <= from,
    ensures
        forall|k: int|
            0 <= k < pots_above(players, from).len() ==> {
                let pot = #[trigger] pots_above(players, from)[k];
                &&& pot.amount > 0
                &&& pot.eligible.len() > 0
                &&& forall|j: int|
                    0 <= j < pot.eligible.len() ==> (#[trigger] pot.eligible[j]) < players.len()
                        && table::is_live(players[pot.eligible[j] as int])
            },
    decreases u32::MAX - from,
{
    lemma_next_level(players, from);
    if let Some(level) = next_level(players, from) {
        lemma_pots_above(players, level);
        lemma_eligible_at(players, level);
        let i = choose|i: int|
            0 <= i < players.len() && table::is_live(#[trigger] players[i]) && players[i].committed
                == level;
        assert(eligible_at(players, level).contains(i as usize));
        lemma_layer_prefix(players, from, reach(players, level), i);
        lemma_layer_prefix(players, from, reach(players, level), i + 1);
        assert(players.take(i + 1).drop_last() =~= players.take(i));
        let all = pots_above(players, from);
        assert forall|k: int| 0 <= k < all.len() implies {
            let pot = #[trigger] all[k];
            &&& pot.amount > 0
            &&& pot.eligible.len() > 0
            &&& forall|j: int|
                0 <= j < pot.eligible.len() ==> (#[trigger] pot.eligible[j]) < players.len()
                    && table::is_live(players[pot.eligible[j] as int])
        } by {
            if k > 0 {
                assert(all[k] == pots_above(players, level)[k - 1]);
            }
        }
    }
}

/// The first few shares are no more than all.
pub proof fn lemma_shares_prefix(
    pots: Seq<PotModel>,
    strength: Seq<int>,
    first: int,
    i: int,
    k: int,
)
    requires
        0 <= k <= pots.len(),
        forall|j: int|
            0 <= j < pots.len() ==> (#[trigger] pots[j]).amount >= 0 && wins_before(
                pots[j].eligible,
                strength,
                first,
                strength.len() as int,
            ) > 0,
    ensures
        shares_of(pots.take(k), strength, first, i) <= shares_of(pots, strength, first, i),
    decreases pots.len() - k,
{
    if k == pots.len() {
        assert(pots.take(k) =~= pots);
    } else {
        lemma_shares_prefix(pots, strength, first, i, k + 1);
        assert(pots.take(k + 1).drop_last() =~= pots.take(k));
        assert(pots.take(k + 1).last() == pots[k]);
        lemma_share_positive(pots[k], strength, first, i);
    }
}

} // verus!
