//! Counting who wins: wins, ties and shares of the pot over many showdowns.

use vstd::prelude::*;

use crate::settle;

verus! {

/// A pot is counted in this many units: the least number that every count of
/// players up to `MAX_HANDS` divides, so that a tied pot is split exactly.
pub const POT_UNITS: u128 = 5_354_228_880;

/// The most hands that can be dealt beside a full board.
pub const MAX_HANDS: usize = 23;

/// What has been counted so far.
#[verifier::ext_equal]
pub struct Tally {
    pub trials: int,
    pub equity: Seq<int>,
    pub wins: Seq<int>,
    pub ties: Seq<int>,
}

/// No hand of the row is stronger than the one in place `i`.
pub open spec fn is_best(row: Seq<int>, i: int) -> bool {
    forall|j: int| 0 <= j < row.len() ==> #[trigger] row[j] <= row[i]
}

/// How many of the first `k` hands of the row are best.
pub open spec fn best_count(row: Seq<int>, k: int) -> int
    decreases k,
{
    if k <= 0 {
        0
    } else {
        best_count(row, k - 1) + if is_best(row, k - 1) {
            1int
        } else {
            0int
        }
    }
}

/// The hand in place `i` is the only best one.
pub open spec fn wins_outright(row: Seq<int>, i: int) -> bool {
    is_best(row, i) && best_count(row, row.len() as int) == 1
}

/// The hand in place `i` is one of several best ones.
pub open spec fn is_tied(row: Seq<int>, i: int) -> bool {
    is_best(row, i) && best_count(row, row.len() as int) != 1
}

/// What the hand in place `i` takes of the pot: the best hands share it evenly.
pub open spec fn taken(row: Seq<int>, i: int) -> int {
    if is_best(row, i) {
        POT_UNITS as int / best_count(row, row.len() as int)
    } else {
        0
    }
}

pub open spec fn one_if(b: bool) -> int {
    if b {
        1
    } else {
        0
    }
}

/// Nothing counted yet, for `n` players.
pub open spec fn empty_tally(n: nat) -> Tally {
    Tally {
        trials: 0,
        equity: Seq::new(n, |i: int| 0int),
        wins: Seq::new(n, |i: int| 0int),
        ties: Seq::new(n, |i: int| 0int),
    }
}

/// A showdown counted on top of others.
pub open spec fn counted(t: Tally, row: Seq<int>) -> Tally {
    Tally {
        trials: t.trials + 1,
        equity: Seq::new(t.equity.len(), |i: int| t.equity[i] + taken(row, i)),
        wins: Seq::new(t.wins.len(), |i: int| t.wins[i] + one_if(wins_outright(row, i))),
        ties: Seq::new(t.ties.len(), |i: int| t.ties[i] + one_if(is_tied(row, i))),
    }
}

/// The count over a list of showdowns, each a row of what the players show.
pub open spec fn tally_of(rows: Seq<Seq<int>>, n: nat) -> Tally
    decreases rows.len(),
{
    if rows.len() == 0 {
        empty_tally(n)
    } else {
        counted(tally_of(rows.drop_last(), n), rows.last())
    }
}

/// Nobody has won more than was played for.
pub open spec fn is_count(t: Tally) -> bool {
    &&& t.wins.len() == t.equity.len()
    &&& t.ties.len() == t.equity.len()
    &&& forall|i: int|
        0 <= i < t.equity.len() ==> 0 <= #[trigger] t.equity[i] <= t.trials * POT_UNITS && 0
            <= t.wins[i] && 0 <= t.ties[i] && t.wins[i] + t.ties[i] <= t.trials
}

/// Each row holds one hand for each of `n` players.
pub open spec fn are_rows(rows: Seq<Seq<int>>, n: nat) -> bool {
    forall|k: int| 0 <= k < rows.len() ==> (#[trigger] rows[k]).len() == n
}

/// A share of all pots: `won` of `of` units.
#[derive(Clone, Copy, PartialEq, Eq, Structural, Debug)]
pub struct Share {
    pub won: u128,
    pub of: u128,
}

/// Win, tie, and pot-share accounting for one equity calculation.
#[derive(Clone, Debug, PartialEq)]
pub struct Equity {
    /// Boards enumerated, or trials sampled.
    pub trials: u64,
    /// Pot share accumulated per player, in units of which a pot has
    /// `POT_UNITS`: all of them for an outright win, `1/k` of them when tied k
    /// ways. Divide by `trials` pots, or just call `share`.
    pub equity: Vec<u128>,
    /// Trials this player won outright.
    pub wins: Vec<u64>,
    /// Trials this player was among several tied for best.
    pub ties: Vec<u64>,
}

impl View for Equity {
    type V = Tally;

    open spec fn view(&self) -> Tally {
        Tally {
            trials: self.trials as int,
            equity: self.equity@.map_values(|x: u128| x as int),
            wins: self.wins@.map_values(|x: u64| x as int),
            ties: self.ties@.map_values(|x: u64| x as int),
        }
    }
}

impl Equity {
    pub(crate) fn new(players: usize) -> (eq: Equity)
        ensures
            eq@ == empty_tally(players as nat),
    {
        let eq = Equity {
            trials: 0,
            equity: vec![0; players],
            wins: vec![0; players],
            ties: vec![0; players],
        };
        assert(eq@ =~= empty_tally(players as nat));
        eq
    }

    pub fn players(&self) -> (n: usize)
        ensures
            n == self@.equity.len(),
    {
        self.equity.len()
    }

    /// Fraction of the pot player `i` takes on average.
    pub fn share(&self, i: usize) -> (share: Share)
        requires
            self.trials > 0 ==> i < self.equity.len(),
        ensures
            self.trials == 0 ==> share == (Share { won: 0, of: 1 }),
            self.trials > 0 ==> share.won == self@.equity[i as int] && share.of == self@.trials
                * POT_UNITS,
    {
        if self.trials == 0 {
            Share { won: 0, of: 1 }
        } else {
            Share { won: self.equity[i], of: self.trials as u128 * POT_UNITS }
        }
    }

    pub fn shares(&self) -> (shares: Vec<Share>)
        ensures
            shares.len() == self@.equity.len(),
            self.trials == 0 ==> forall|i: int|
                0 <= i < shares.len() ==> #[trigger] shares[i] == (Share { won: 0, of: 1 }),
            self.trials > 0 ==> forall|i: int|
                0 <= i < shares.len() ==> (#[trigger] shares[i]).won == self@.equity[i]
                    && shares[i].of == self@.trials * POT_UNITS,
    {
        let mut shares: Vec<Share> = Vec::new();
        for i in 0..self.equity.len()
            invariant
                shares.len() == i,
                self.trials == 0 ==> forall|j: int|
                    0 <= j < i ==> #[trigger] shares[j] == (Share { won: 0, of: 1 }),
                self.trials > 0 ==> forall|j: int|
                    0 <= j < i ==> (#[trigger] shares[j]).won == self@.equity[j] && shares[j].of
                        == self@.trials * POT_UNITS,
        {
            shares.push(self.share(i));
        }
        shares
    }

    /// Count one showdown.
    pub(crate) fn record(&mut self, strengths: &Vec<u32>)
        requires
            0 < strengths.len() <= MAX_HANDS,
            strengths.len() == old(self)@.equity.len(),
            is_count(old(self)@),
            old(self).trials < u64::MAX,
        ensures
            final(self)@ == counted(old(self)@, scores(strengths@)),
            is_count(final(self)@),
    {
        let n: usize = strengths.len();
        let ghost row = scores(strengths@);
        let ghost was = self@;
        let mut best: u32 = strengths[0];
        let ghost mut at: int = 0;
        for i in 1..n
            invariant
                n == strengths.len(),
                0 <= at < n,
                best == strengths[at],
                forall|j: int| 0 <= j < i ==> #[trigger] strengths[j] <= best,
        {
            if strengths[i] > best {
                best = strengths[i];
                proof {
                    at = i as int;
                }
            }
        }
        proof {
            assert forall|i: int| 0 <= i < n implies (is_best(row, i) <==> #[trigger] strengths[i]
                == best) by {
                if is_best(row, i) {
                    assert(row[at] <= row[i]);
                }
                if strengths[i] == best {
                    assert forall|j: int| 0 <= j < row.len() implies #[trigger] row[j] <= row[i] by {
                        assert(strengths[j] <= best);
                    }
                }
            }
        }
        let mut n_best: u64 = 0;
        for i in 0..n
            invariant
                n == strengths.len(),
                n <= MAX_HANDS,
                n_best <= i,
                forall|i: int|
                    0 <= i < n ==> (is_best(row, i) <==> #[trigger] strengths[i] == best),
                n_best == best_count(row, i as int),
        {
            if strengths[i] == best {
                n_best += 1;
            }
        }
        proof {
            lemma_best_count(row, at);
        }
        let split: u128 = POT_UNITS / n_best as u128;
        let ghost trials = self.trials;
        for i in 0..n
            invariant
                n == strengths.len(),
                n == self.equity.len(),
                n == self.wins.len(),
                n == self.ties.len(),
                row.len() == n,
                n_best == best_count(row, n as int),
                n_best > 0,
                split == POT_UNITS as int / n_best as int,
                split <= POT_UNITS,
                self.trials == trials,
                trials == was.trials,
                trials < u64::MAX,
                was.equity.len() == n,
                was.wins.len() == n,
                was.ties.len() == n,
                forall|i: int|
                    0 <= i < n ==> (is_best(row, i) <==> #[trigger] strengths[i] == best),
                forall|j: int|
                    0 <= j < n ==> 0 <= #[trigger] was.equity[j] <= was.trials * POT_UNITS && 0
                        <= was.wins[j] && 0 <= was.ties[j] && was.wins[j] + was.ties[j]
                        <= was.trials,
                forall|j: int|
                    0 <= j < n ==> #[trigger] self.equity[j] == was.equity[j] + if j < i {
                        taken(row, j)
                    } else {
                        0
                    },
                forall|j: int|
                    0 <= j < n ==> #[trigger] self.wins[j] == was.wins[j] + if j < i {
                        one_if(wins_outright(row, j))
                    } else {
                        0
                    },
                forall|j: int|
                    0 <= j < n ==> #[trigger] self.ties[j] == was.ties[j] + if j < i {
                        one_if(is_tied(row, j))
                    } else {
                        0
                    },
        {
            proof {
                assert(was.equity[i as int] <= was.trials * POT_UNITS);
                assert(self.equity[i as int] == was.equity[i as int]);
                assert(self.wins[i as int] == was.wins[i as int]);
                assert(self.ties[i as int] == was.ties[i as int]);
            }
            if strengths[i] == best {
                if n_best == 1 {
                    self.wins[i] = self.wins[i] + 1;
                } else {
                    self.ties[i] = self.ties[i] + 1;
                }
                self.equity[i] = self.equity[i] + split;
            }
        }
        self.trials = self.trials + 1;
        proof {
            assert(self@ =~= counted(was, row));
            lemma_counted(was, row);
        }
    }
}

/// What a list of hand scores says.
pub open spec fn scores(strengths: Seq<u32>) -> Seq<int> {
    strengths.map_values(|x: u32| x as int)
}

/// Some hand is best, so the pot is never split among none, and never among more
/// than there are.
pub proof fn lemma_best_count(row: Seq<int>, at: int)
    requires
        0 <= at < row.len(),
        is_best(row, at),
    ensures
        1 <= best_count(row, row.len() as int) <= row.len(),
{
    lemma_best_count_grows(row, at + 1, row.len() as int);
    lemma_best_count_grows(row, 0, at);
}

proof fn lemma_best_count_grows(row: Seq<int>, k: int, m: int)
    requires
        0 <= k <= m,
    ensures
        0 <= best_count(row, k) <= best_count(row, m) <= best_count(row, k) + (m - k),
    decreases m,
{
    if k < m {
        lemma_best_count_grows(row, k, m - 1);
    } else if m > 0 {
        lemma_best_count_grows(row, k - 1, m - 1);
    }
}

/// A row of hands has a best one.
pub proof fn lemma_some_best(row: Seq<int>) -> (at: int)
    requires
        row.len() > 0,
    ensures
        0 <= at < row.len(),
        is_best(row, at),
        1 <= best_count(row, row.len() as int) <= row.len(),
{
    let at = lemma_max_before(row, row.len() as int);
    lemma_best_count(row, at);
    at
}

proof fn lemma_max_before(row: Seq<int>, k: int) -> (at: int)
    requires
        0 < k <= row.len(),
    ensures
        0 <= at < k,
        forall|j: int| 0 <= j < k ==> #[trigger] row[j] <= row[at],
    decreases k,
{
    if k == 1 {
        0
    } else {
        let at = lemma_max_before(row, k - 1);
        if row[k - 1] > row[at] {
            k - 1
        } else {
            at
        }
    }
}

/// One more showdown keeps a count in order.
pub proof fn lemma_counted(t: Tally, row: Seq<int>)
    requires
        is_count(t),
        row.len() == t.equity.len(),
        row.len() > 0,
    ensures
        is_count(counted(t, row)),
{
    let at = lemma_some_best(row);
    let m = best_count(row, row.len() as int);
    assert(0 <= POT_UNITS as int / m <= POT_UNITS) by {
        vstd::arithmetic::div_mod::lemma_div_pos_is_pos(POT_UNITS as int, m);
        vstd::arithmetic::div_mod::lemma_div_is_ordered_by_denominator(POT_UNITS as int, 1, m);
    }
    let u = counted(t, row);
    assert forall|i: int| 0 <= i < u.equity.len() implies 0 <= #[trigger] u.equity[i] <= u.trials
        * POT_UNITS && 0 <= u.wins[i] && 0 <= u.ties[i] && u.wins[i] + u.ties[i] <= u.trials by {
        assert(0 <= t.equity[i] <= t.trials * POT_UNITS);
    }
}

/// A count has counted every showdown, nobody has won and tied more of them than
/// there were, and nobody's share is below nothing or above all.
pub proof fn law_shares_are_fractions_of_the_pot(rows: Seq<Seq<int>>, n: nat)
    requires
        n > 0,
        are_rows(rows, n),
    ensures
        tally_of(rows, n).trials == rows.len(),
        tally_of(rows, n).equity.len() == n,
        is_count(tally_of(rows, n)),
    decreases rows.len(),
{
    if rows.len() > 0 {
        assert(rows.last() == rows[rows.len() - 1]);
        assert forall|k: int| 0 <= k < rows.drop_last().len() implies (
        #[trigger] rows.drop_last()[k]).len() == n by {
            assert(rows.drop_last()[k] == rows[k]);
        }
        law_shares_are_fractions_of_the_pot(rows.drop_last(), n);
        lemma_counted(tally_of(rows.drop_last(), n), rows.last());
    }
}

/// The shares sum to one: over any showdowns, what the players take adds up to
/// the pots.
pub proof fn law_shares_sum_to_one(rows: Seq<Seq<int>>, n: nat)
    requires
        0 < n <= MAX_HANDS,
        are_rows(rows, n),
    ensures
        settle::sum(tally_of(rows, n).equity) == tally_of(rows, n).trials * POT_UNITS,
    decreases rows.len(),
{
    let t = tally_of(rows, n);
    if rows.len() == 0 {
        settle::lemma_sum_zeros(t.equity);
    } else {
        let row = rows.last();
        assert(row == rows[rows.len() - 1]);
        assert forall|k: int| 0 <= k < rows.drop_last().len() implies (
        #[trigger] rows.drop_last()[k]).len() == n by {
            assert(rows.drop_last()[k] == rows[k]);
        }
        law_shares_sum_to_one(rows.drop_last(), n);
        law_shares_are_fractions_of_the_pot(rows.drop_last(), n);
        let before = tally_of(rows.drop_last(), n);
        let shares = Seq::new(n, |i: int| taken(row, i));
        settle::lemma_sum_pointwise(before.equity, shares, t.equity);
        law_pot_is_taken_whole(row);
        assert(shares =~= Seq::new(row.len(), |i: int| taken(row, i)));
    }
}

/// The best hands of a showdown take the pot whole.
pub proof fn law_pot_is_taken_whole(row: Seq<int>)
    requires
        0 < row.len() <= MAX_HANDS,
    ensures
        settle::sum(Seq::new(row.len(), |i: int| taken(row, i))) == POT_UNITS,
{
    let at = lemma_some_best(row);
    let m = best_count(row, row.len() as int);
    lemma_taken_before(row, row.len() as int);
    lemma_units_divide(m);
}

proof fn lemma_taken_before(row: Seq<int>, k: int)
    requires
        0 <= k,
    ensures
        settle::sum(Seq::new(k as nat, |i: int| taken(row, i))) == best_count(row, k) * (
        POT_UNITS as int / best_count(row, row.len() as int)),
    decreases k,
{
    let f = |i: int| taken(row, i);
    let each = POT_UNITS as int / best_count(row, row.len() as int);
    if k > 0 {
        lemma_taken_before(row, k - 1);
        assert(Seq::new(k as nat, f).drop_last() =~= Seq::new((k - 1) as nat, f));
        let b = best_count(row, k - 1);
        assert((b + 1) * each == b * each + each) by (nonlinear_arith);
    } else {
        assert(0 * each == 0);
    }
}

pub proof fn lemma_units_divide(m: int)
    requires
        1 <= m <= 23,
    ensures
        m * (POT_UNITS as int / m) == POT_UNITS,
{
    assert(POT_UNITS as int % m == 0) by {
        assert(5_354_228_880int % 1 == 0 && 5_354_228_880int % 2 == 0 && 5_354_228_880int % 3 == 0
            && 5_354_228_880int % 4 == 0 && 5_354_228_880int % 5 == 0 && 5_354_228_880int % 6 == 0
            && 5_354_228_880int % 7 == 0 && 5_354_228_880int % 8 == 0 && 5_354_228_880int % 9 == 0
            && 5_354_228_880int % 10 == 0 && 5_354_228_880int % 11 == 0 && 5_354_228_880int % 12
            == 0 && 5_354_228_880int % 13 == 0 && 5_354_228_880int % 14 == 0 && 5_354_228_880int
            % 15 == 0 && 5_354_228_880int % 16 == 0 && 5_354_228_880int % 17 == 0
            && 5_354_228_880int % 18 == 0 && 5_354_228_880int % 19 == 0 && 5_354_228_880int % 20
            == 0 && 5_354_228_880int % 21 == 0 && 5_354_228_880int % 22 == 0 && 5_354_228_880int
            % 23 == 0);
    }
    vstd::arithmetic::div_mod::lemma_fundamental_div_mod(POT_UNITS as int, m);
}

/// A player who shows the only best hand every time takes every pot, and the
/// others none: drawing dead is worth exactly nothing.
pub proof fn law_drawing_dead_is_worth_nothing(rows: Seq<Seq<int>>, n: nat, i: int)
    requires
        0 <= i < n,
        are_rows(rows, n),
        forall|k: int| 0 <= k < rows.len() ==> wins_outright(#[trigger] rows[k], i),
    ensures
        tally_of(rows, n).equity[i] == rows.len() * POT_UNITS,
        tally_of(rows, n).wins[i] == rows.len(),
        forall|j: int|
            0 <= j < n && j != i ==> #[trigger] tally_of(rows, n).equity[j] == 0
                && tally_of(rows, n).wins[j] == 0 && tally_of(rows, n).ties[j] == 0,
    decreases rows.len(),
{
    if rows.len() > 0 {
        let row = rows.last();
        let before = rows.drop_last();
        assert(row == rows[rows.len() - 1]);
        assert forall|k: int| 0 <= k < before.len() implies (#[trigger] before[k]).len() == n
            && wins_outright(before[k], i) by {
            assert(before[k] == rows[k]);
        }
        law_drawing_dead_is_worth_nothing(before, n, i);
        law_shares_are_fractions_of_the_pot(before, n);
        assert(POT_UNITS as int / 1 == POT_UNITS);
        assert forall|j: int| 0 <= j < n && j != i implies #[trigger] tally_of(rows, n).equity[j] == 0
            && tally_of(rows, n).wins[j] == 0 && tally_of(rows, n).ties[j] == 0 by {
            assert(tally_of(before, n).equity[j] == 0);
            if is_best(row, j) {
                lemma_two_best(row, i, j);
            }
        }
    }
}

proof fn lemma_two_best(row: Seq<int>, i: int, j: int)
    requires
        0 <= i < row.len(),
        0 <= j < row.len(),
        i != j,
        is_best(row, i),
        is_best(row, j),
    ensures
        best_count(row, row.len() as int) >= 2,
{
    let lo = if i < j {
        i
    } else {
        j
    };
    let hi = if i < j {
        j
    } else {
        i
    };
    lemma_best_count_grows(row, 0, lo);
    lemma_best_count_grows(row, lo + 1, hi);
    lemma_best_count_grows(row, hi + 1, row.len() as int);
}

/// Counts add up: over two lists of showdowns together, everything counted is the
/// sum of what each gives. So a range averages over its holdings.
pub proof fn law_counts_add_up(a: Seq<Seq<int>>, b: Seq<Seq<int>>, n: nat)
    requires
        n > 0,
        are_rows(a, n),
        are_rows(b, n),
    ensures
        tally_of(a + b, n).trials == tally_of(a, n).trials + tally_of(b, n).trials,
        forall|i: int|
            0 <= i < n ==> #[trigger] tally_of(a + b, n).equity[i] == tally_of(a, n).equity[i]
                + tally_of(b, n).equity[i],
        forall|i: int|
            0 <= i < n ==> #[trigger] tally_of(a + b, n).wins[i] == tally_of(a, n).wins[i]
                + tally_of(b, n).wins[i],
        forall|i: int|
            0 <= i < n ==> #[trigger] tally_of(a + b, n).ties[i] == tally_of(a, n).ties[i]
                + tally_of(b, n).ties[i],
    decreases b.len(),
{
    law_shares_are_fractions_of_the_pot(a, n);
    if b.len() == 0 {
        assert(a + b =~= a);
    } else {
        let c = b.drop_last();
        assert forall|k: int| 0 <= k < c.len() implies (#[trigger] c[k]).len() == n by {
            assert(c[k] == b[k]);
        }
        assert((a + b).drop_last() =~= a + c);
        assert((a + b).last() == b.last());
        law_counts_add_up(a, c, n);
        law_shares_are_fractions_of_the_pot(c, n);
        assert(are_rows(a + c, n)) by {
            assert forall|k: int| 0 <= k < (a + c).len() implies (#[trigger] (a + c)[k]).len() == n by {
                if k < a.len() {
                    assert((a + c)[k] == a[k]);
                } else {
                    assert((a + c)[k] == c[k - a.len()]);
                }
            }
        }
        law_shares_are_fractions_of_the_pot(a + c, n);
        let whole = tally_of(a + b, n);
        let most = tally_of(a + c, n);
        assert forall|i: int| 0 <= i < n implies #[trigger] whole.equity[i] == tally_of(
            a,
            n,
        ).equity[i] + tally_of(b, n).equity[i] by {
            assert(most.equity[i] == tally_of(a, n).equity[i] + tally_of(c, n).equity[i]);
        }
        assert forall|i: int| 0 <= i < n implies #[trigger] whole.wins[i] == tally_of(a, n).wins[i]
            + tally_of(b, n).wins[i] by {
            assert(most.wins[i] == tally_of(a, n).wins[i] + tally_of(c, n).wins[i]);
        }
        assert forall|i: int| 0 <= i < n implies #[trigger] whole.ties[i] == tally_of(a, n).ties[i]
            + tally_of(b, n).ties[i] by {
            assert(most.ties[i] == tally_of(a, n).ties[i] + tally_of(c, n).ties[i]);
        }
    }
}

/// A new order of `n` seats: each of them once.
pub open spec fn is_order(p: Seq<int>, n: int) -> bool {
    &&& p.len() == n
    &&& p.no_duplicates()
    &&& forall|i: int| 0 <= i < p.len() ==> 0 <= #[trigger] p[i] < n
}

/// What the seats hold in the new order.
pub open spec fn reordered<A>(row: Seq<A>, p: Seq<int>) -> Seq<A> {
    Seq::new(p.len(), |i: int| row[p[i]])
}

/// An order has every seat.
pub proof fn lemma_order_has_all(p: Seq<int>, n: int, m: int) -> (j: int)
    requires
        is_order(p, n),
        0 <= m < n,
    ensures
        0 <= j < n,
        p[j] == m,
{
    p.unique_seq_to_set();
    let all = vstd::set_lib::set_int_range(0, n);
    vstd::set_lib::lemma_int_range(0, n);
    assert(p.to_set().subset_of(all)) by {
        assert forall|x: int| p.to_set().contains(x) implies all.contains(x) by {
            let i = p.index_of(x);
            assert(p[i] == x);
        }
    }
    vstd::set_lib::lemma_subset_equality(p.to_set(), all);
    assert(all.contains(m));
    p.index_of(m)
}

proof fn lemma_sum_remove(s: Seq<int>, j: int)
    requires
        0 <= j < s.len(),
    ensures
        settle::sum(s) == settle::sum(s.remove(j)) + s[j],
    decreases s.len(),
{
    if j == s.len() - 1 {
        assert(s.remove(j) =~= s.drop_last());
    } else {
        lemma_sum_remove(s.drop_last(), j);
        assert(s.remove(j).drop_last() =~= s.drop_last().remove(j));
    }
}

/// A list in another order has the same sum.
proof fn lemma_sum_order(s: Seq<int>, p: Seq<int>)
    requires
        is_order(p, s.len() as int),
    ensures
        settle::sum(reordered(s, p)) == settle::sum(s),
    decreases s.len(),
{
    let n = s.len() as int;
    if n > 0 {
        let j = lemma_order_has_all(p, n, n - 1);
        let q = p.remove(j);
        assert forall|i: int| 0 <= i < q.len() implies 0 <= #[trigger] q[i] < n - 1 by {
            let i0 = if i < j {
                i
            } else {
                i + 1
            };
            assert(q[i] == p[i0]);
            assert(p[i0] != p[j]);
        }
        assert forall|a: int, b: int| 0 <= a < b < q.len() implies q[a] != q[b] by {
            let a0 = if a < j {
                a
            } else {
                a + 1
            };
            let b0 = if b < j {
                b
            } else {
                b + 1
            };
            assert(q[a] == p[a0] && q[b] == p[b0]);
        }
        lemma_sum_order(s.drop_last(), q);
        lemma_sum_remove(reordered(s, p), j);
        assert(reordered(s, p).remove(j) =~= reordered(s.drop_last(), q));
    } else {
        assert(reordered(s, p) =~= s);
    }
}

proof fn lemma_best_count_is_sum(row: Seq<int>, k: int)
    requires
        0 <= k,
    ensures
        best_count(row, k) == settle::sum(Seq::new(k as nat, |i: int| one_if(is_best(row, i)))),
    decreases k,
{
    let f = |i: int| one_if(is_best(row, i));
    if k > 0 {
        lemma_best_count_is_sum(row, k - 1);
        assert(Seq::new(k as nat, f).drop_last() =~= Seq::new((k - 1) as nat, f));
    }
}

/// In a new order the same hands are best.
proof fn lemma_best_reordered(row: Seq<int>, p: Seq<int>)
    requires
        is_order(p, row.len() as int),
    ensures
        forall|i: int|
            0 <= i < row.len() ==> (#[trigger] is_best(reordered(row, p), i) <==> is_best(
                row,
                p[i],
            )),
        best_count(reordered(row, p), row.len() as int) == best_count(row, row.len() as int),
{
    let n = row.len() as int;
    let other = reordered(row, p);
    assert forall|i: int| 0 <= i < n implies (#[trigger] is_best(other, i) <==> is_best(row, p[i])) by {
        if is_best(other, i) {
            assert forall|m: int| 0 <= m < row.len() implies #[trigger] row[m] <= row[p[i]] by {
                let j = lemma_order_has_all(p, n, m);
                assert(other[j] <= other[i]);
            }
        }
        if is_best(row, p[i]) {
            assert forall|j: int| 0 <= j < other.len() implies #[trigger] other[j] <= other[i] by {
                assert(row[p[j]] <= row[p[i]]);
            }
        }
    }
    let b = Seq::new(n as nat, |i: int| one_if(is_best(row, i)));
    let c = Seq::new(n as nat, |i: int| one_if(is_best(other, i)));
    assert forall|i: int| 0 <= i < n implies c[i] == reordered(b, p)[i] by {
        assert(is_best(other, i) <==> is_best(row, p[i]));
    }
    assert(c =~= reordered(b, p));
    lemma_sum_order(b, p);
    lemma_best_count_is_sum(row, n);
    lemma_best_count_is_sum(other, n);
}

/// With the seats in another order in every showdown, all that is counted for them
/// is in that order.
pub proof fn law_reordered_seats_reorder_counts(
    rows: Seq<Seq<int>>,
    others: Seq<Seq<int>>,
    p: Seq<int>,
    n: nat,
)
    requires
        n > 0,
        is_order(p, n as int),
        are_rows(rows, n),
        rows.len() == others.len(),
        forall|k: int| 0 <= k < rows.len() ==> #[trigger] others[k] == reordered(rows[k], p),
    ensures
        tally_of(others, n).trials == tally_of(rows, n).trials,
        tally_of(others, n).equity == reordered(tally_of(rows, n).equity, p),
        tally_of(others, n).wins == reordered(tally_of(rows, n).wins, p),
        tally_of(others, n).ties == reordered(tally_of(rows, n).ties, p),
    decreases rows.len(),
{
    let t = tally_of(rows, n);
    let u = tally_of(others, n);
    if rows.len() > 0 {
        let row = rows.last();
        let other = others.last();
        assert(row == rows[rows.len() - 1]);
        assert(other == others[others.len() - 1]);
        let a = rows.drop_last();
        let b = others.drop_last();
        assert forall|k: int| 0 <= k < a.len() implies (#[trigger] a[k]).len() == n by {
            assert(a[k] == rows[k]);
        }
        assert forall|k: int| 0 <= k < a.len() implies #[trigger] b[k] == reordered(a[k], p) by {
            assert(b[k] == others[k]);
        }
        law_reordered_seats_reorder_counts(a, b, p, n);
        law_shares_are_fractions_of_the_pot(a, n);
        lemma_best_reordered(row, p);
        assert forall|i: int| 0 <= i < n implies u.equity[i] == t.equity[p[i]] && u.wins[i]
            == t.wins[p[i]] && u.ties[i] == t.ties[p[i]] by {
            assert(is_best(other, i) <==> is_best(row, p[i]));
            assert(0 <= p[i] < n);
        }
    }
    assert(u.equity =~= reordered(t.equity, p));
    assert(u.wins =~= reordered(t.wins, p));
    assert(u.ties =~= reordered(t.ties, p));
}

/// A showdown `m` times over.
pub open spec fn repeated(row: Seq<int>, m: nat) -> Seq<Seq<int>> {
    Seq::new(m, |t: int| row)
}

/// The same showdown over and over counts for as many times as much.
pub proof fn law_repeated_showdowns_multiply(row: Seq<int>, m: nat, n: nat)
    requires
        n > 0,
        row.len() == n,
    ensures
        tally_of(repeated(row, m), n).trials == m,
        forall|i: int|
            0 <= i < n ==> #[trigger] tally_of(repeated(row, m), n).equity[i] == m * tally_of(
                seq![row],
                n,
            ).equity[i],
        forall|i: int|
            0 <= i < n ==> #[trigger] tally_of(repeated(row, m), n).wins[i] == m * tally_of(
                seq![row],
                n,
            ).wins[i],
        forall|i: int|
            0 <= i < n ==> #[trigger] tally_of(repeated(row, m), n).ties[i] == m * tally_of(
                seq![row],
                n,
            ).ties[i],
    decreases m,
{
    let all = repeated(row, m);
    reveal_with_fuel(tally_of, 2);
    assert(seq![row].drop_last() =~= seq![]);
    assert(are_rows(all, n));
    law_shares_are_fractions_of_the_pot(all, n);
    if m > 0 {
        let less = (m - 1) as nat;
        law_repeated_showdowns_multiply(row, less, n);
        assert(all.drop_last() =~= repeated(row, less));
        let t = tally_of(all, n);
        let u = tally_of(repeated(row, less), n);
        let one = tally_of(seq![row], n);
        assert forall|i: int| 0 <= i < n implies #[trigger] t.equity[i] == m * one.equity[i] by {
            assert(u.equity[i] == less * one.equity[i]);
            assert(m * one.equity[i] == less * one.equity[i] + one.equity[i]) by (nonlinear_arith)
                requires
                    less == m - 1,
            ;
        }
        assert forall|i: int| 0 <= i < n implies #[trigger] t.wins[i] == m * one.wins[i] by {
            assert(u.wins[i] == less * one.wins[i]);
            assert(m * one.wins[i] == less * one.wins[i] + one.wins[i]) by (nonlinear_arith)
                requires
                    less == m - 1,
            ;
        }
        assert forall|i: int| 0 <= i < n implies #[trigger] t.ties[i] == m * one.ties[i] by {
            assert(u.ties[i] == less * one.ties[i]);
            assert(m * one.ties[i] == less * one.ties[i] + one.ties[i]) by (nonlinear_arith)
                requires
                    less == m - 1,
            ;
        }
    } else {
        assert(forall|x: int| #[trigger] (m * x) == 0) by (nonlinear_arith)
            requires
                m == 0,
        ;
    }
}

} // verus!
