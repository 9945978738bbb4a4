//! What equities count, board by board and hand by hand.

use vstd::prelude::*;

use crate::combinations;
use crate::equity;
use crate::range;
use crate::rng;
use crate::runouts;
use crate::settle;
use crate::showdown;
use crate::shuffles;
use crate::strength;
use crate::tally;
use crate::tally::{MAX_HANDS, POT_UNITS};

verus! {

// ---- Counting ----

/// One where the hand in place `i` is better than all others.
pub open spec fn won(row: Seq<int>, i: int) -> int {
    if forall|j: int| 0 <= j < row.len() && j != i ==> #[trigger] row[j] < row[i] {
        1
    } else {
        0
    }
}

/// One where no hand is better than the one in place `i` and another is as good.
pub open spec fn tied(row: Seq<int>, i: int) -> int {
    if (forall|j: int| 0 <= j < row.len() ==> #[trigger] row[j] <= row[i]) && exists|j: int|
        0 <= j < row.len() && j != i && #[trigger] row[j] == row[i] {
        1
    } else {
        0
    }
}

/// How many hands are just as good as the one in place `i`, itself among them.
pub open spec fn as_good(row: Seq<int>, i: int) -> int {
    settle::sum(
        row.map_values(
            |x: int|
                if x == row[i] {
                    1int
                } else {
                    0int
                },
        ),
    )
}

/// What the hand in place `i` takes: where none is better, an even part of the pot.
pub open spec fn portion(row: Seq<int>, i: int) -> int {
    if forall|j: int| 0 <= j < row.len() ==> #[trigger] row[j] <= row[i] {
        POT_UNITS as int / as_good(row, i)
    } else {
        0
    }
}

proof fn lemma_as_good(row: Seq<int>, i: int, k: int)
    requires
        0 <= i < row.len(),
        0 <= k <= row.len(),
        tally::is_best(row, i),
    ensures
        tally::best_count(row, k) == settle::sum(
            row.take(k).map_values(
                |x: int|
                    if x == row[i] {
                        1int
                    } else {
                        0int
                    },
            ),
        ),
    decreases k,
{
    let f = |x: int|
        if x == row[i] {
            1int
        } else {
            0int
        };
    if k > 0 {
        lemma_as_good(row, i, k - 1);
        assert(row.take(k).map_values(f).drop_last() =~= row.take(k - 1).map_values(f));
        assert(row.take(k).map_values(f).last() == f(row[k - 1]));
        if row[k - 1] == row[i] {
            assert(tally::is_best(row, k - 1));
        }
        if tally::is_best(row, k - 1) {
            assert(row[i] <= row[k - 1]);
            assert(row[k - 1] <= row[i]);
        }
    }
}

proof fn lemma_some_others(s: Seq<int>, i: int)
    requires
        0 <= i < s.len(),
        s[i] == 1,
        forall|j: int| 0 <= j < s.len() ==> 0 <= #[trigger] s[j] <= 1,
    ensures
        settle::sum(s) >= 1,
        settle::sum(s) == 1 <==> forall|j: int| 0 <= j < s.len() && j != i ==> #[trigger] s[j] == 0,
{
    if forall|j: int| 0 <= j < s.len() && j != i ==> #[trigger] s[j] == 0 {
        settle::lemma_sum_single(s, i);
    } else {
        let j = choose|j: int| 0 <= j < s.len() && j != i && #[trigger] s[j] != 0;
        lemma_two_ones(s, i, j);
    }
    settle::lemma_sum_bounds(s, i);
}

proof fn lemma_two_ones(s: Seq<int>, i: int, j: int)
    requires
        0 <= i < s.len(),
        0 <= j < s.len(),
        i != j,
        s[i] == 1,
        s[j] == 1,
        forall|k: int| 0 <= k < s.len() ==> 0 <= #[trigger] s[k] <= 1,
    ensures
        settle::sum(s) >= 2,
{
    let t = s.update(j, 0);
    let u = Seq::new(
        s.len(),
        |k: int|
            if k == j {
                1int
            } else {
                0int
            },
    );
    settle::lemma_sum_pointwise(t, u, s);
    settle::lemma_sum_single(u, j);
    settle::lemma_sum_bounds(t, i);
}

/// One showdown counts as it should.
#[verifier::rlimit(40)]
proof fn lemma_one_row(row: Seq<int>, i: int)
    requires
        0 < row.len() <= MAX_HANDS,
        0 <= i < row.len(),
    ensures
        tally::one_if(tally::wins_outright(row, i)) == won(row, i),
        tally::one_if(tally::is_tied(row, i)) == tied(row, i),
        tally::taken(row, i) == portion(row, i),
        tally::is_best(row, i) ==> 1 <= as_good(row, i) <= 23 && as_good(row, i) * portion(row, i)
            == POT_UNITS,
{
    let f = |x: int|
        if x == row[i] {
            1int
        } else {
            0int
        };
    let s = row.map_values(f);
    let n = row.len() as int;
    if tally::is_best(row, i) {
        lemma_as_good(row, i, n);
        assert(row.take(n) =~= row);
        lemma_some_others(s, i);
        tally::lemma_best_count(row, i);
        tally::lemma_units_divide(as_good(row, i));
        if as_good(row, i) == 1 {
            assert forall|j: int| 0 <= j < n && j != i implies #[trigger] row[j] < row[i] by {
                assert(s[j] == 0);
                assert(row[j] <= row[i]);
            }
        } else {
            let j = choose|j: int| 0 <= j < s.len() && j != i && #[trigger] s[j] != 0;
            assert(row[j] == row[i]);
        }
    } else {
        let j = choose|j: int| 0 <= j < n && !(#[trigger] row[j] <= row[i]);
        assert(row[j] > row[i]);
        if won(row, i) == 1 {
            assert(row[j] < row[i]);
        }
    }
}

/// A count is the sum over its showdowns: who is better than all others wins, who
/// is best with others ties with them, and the best hands split the pot evenly.
#[verifier::rlimit(40)]
pub proof fn law_counts_are_of_wins_and_ties(rows: Seq<Seq<int>>, n: nat, i: int)
    requires
        0 < n <= MAX_HANDS,
        tally::are_rows(rows, n),
        0 <= i < n,
    ensures
        tally::tally_of(rows, n).trials == rows.len(),
        tally::tally_of(rows, n).wins.len() == n,
        tally::tally_of(rows, n).ties.len() == n,
        tally::tally_of(rows, n).equity.len() == n,
        tally::tally_of(rows, n).wins[i] == settle::sum(
            rows.map_values(|row: Seq<int>| won(row, i)),
        ),
        tally::tally_of(rows, n).ties[i] == settle::sum(
            rows.map_values(|row: Seq<int>| tied(row, i)),
        ),
        tally::tally_of(rows, n).equity[i] == settle::sum(
            rows.map_values(|row: Seq<int>| portion(row, i)),
        ),
        forall|k: int|
            0 <= k < rows.len() && #[trigger] portion(rows[k], i) != 0 ==> as_good(rows[k], i)
                * portion(rows[k], i) == POT_UNITS,
    decreases rows.len(),
{
    let f = |row: Seq<int>| won(row, i);
    let g = |row: Seq<int>| tied(row, i);
    let h = |row: Seq<int>| portion(row, i);
    assert forall|k: int|
        0 <= k < rows.len() && #[trigger] portion(rows[k], i) != 0 implies as_good(rows[k], i)
        * portion(rows[k], i) == POT_UNITS by {
        assert(rows[k].len() == n);
        lemma_one_row(rows[k], i);
    }
    if rows.len() > 0 {
        let before = rows.drop_last();
        assert(rows.last() == rows[rows.len() - 1]);
        assert forall|k: int| 0 <= k < before.len() implies (#[trigger] before[k]).len() == n by {
            assert(before[k] == rows[k]);
        }
        law_counts_are_of_wins_and_ties(before, n, i);
        lemma_one_row(rows.last(), i);
        assert(rows.map_values(f).drop_last() =~= before.map_values(f));
        assert(rows.map_values(g).drop_last() =~= before.map_values(g));
        assert(rows.map_values(h).drop_last() =~= before.map_values(h));
    }
}

// ---- Boards ----

/// A full board and a holding: seven cards.
pub open spec fn with_hole(full: Seq<u8>, h: (u8, u8)) -> Seq<u8> {
    seq![full[0], full[1], full[2], full[3], full[4], h.0, h.1]
}

/// The row holds, for every hand, the score of its best five of seven cards.
pub open spec fn shows_best(row: Seq<int>, hands: Seq<(u8, u8)>, full: Seq<u8>) -> bool {
    &&& row.len() == hands.len()
    &&& forall|i: int|
        0 <= i < hands.len() ==> showdown::is_best_five(
            with_hole(full, #[trigger] hands[i]),
            row[i],
        )
}

/// Somebody holds the card, or it is on the board, or dead.
pub open spec fn is_taken(hands: Seq<(u8, u8)>, board: Seq<u8>, dead: Seq<u8>, c: u8) -> bool {
    ||| exists|i: int|
        0 <= i < hands.len() && ((#[trigger] hands[i]).0 == c || hands[i].1 == c)
    ||| board.contains(c)
    ||| dead.contains(c)
}

/// The full board is the board and then different cards that nobody holds and
/// that are not dead.
pub open spec fn finishes(
    hands: Seq<(u8, u8)>,
    board: Seq<u8>,
    dead: Seq<u8>,
    full: Seq<u8>,
) -> bool {
    &&& full.len() == 5
    &&& board.len() <= 5
    &&& forall|k: int| 0 <= k < board.len() ==> #[trigger] full[k] == board[k]
    &&& forall|k: int|
        board.len() <= k < 5 ==> (#[trigger] full[k]) < 52 && !is_taken(hands, board, dead, full[k])
    &&& forall|k: int, m: int|
        board.len() <= k < m < 5 ==> #[trigger] full[k] != #[trigger] full[m]
}

/// The cards that come after the board are in rising order.
pub open spec fn rises_after(board: Seq<u8>, full: Seq<u8>) -> bool {
    forall|k: int, m: int|
        board.len() <= k < m < full.len() ==> #[trigger] full[k] < #[trigger] full[m]
}

proof fn lemma_known(hands: Seq<(u8, u8)>, board: Seq<u8>, dead: Seq<u8>, c: u8)
    ensures
        equity::known(hands, board, dead).contains(c) <==> is_taken(hands, board, dead, c),
{
    let held = equity::cards_of(hands);
    range::lemma_append_contains(held + board, dead, c);
    range::lemma_append_contains(held, board, c);
    equity::lemma_cards_of(hands);
    if held.contains(c) {
        let k = held.index_of(c);
        let i = k / 2;
        assert(hands[i].0 == held[2 * i] && hands[i].1 == held[2 * i + 1]);
        assert(k == 2 * i || k == 2 * i + 1);
    }
    if exists|i: int| 0 <= i < hands.len() && ((#[trigger] hands[i]).0 == c || hands[i].1 == c) {
        let i = choose|i: int|
            0 <= i < hands.len() && ((#[trigger] hands[i]).0 == c || hands[i].1 == c);
        assert(held[2 * i] == hands[i].0 && held[2 * i + 1] == hands[i].1);
    }
}

#[verifier::rlimit(40)]
proof fn lemma_seven(
    hands: Seq<(u8, u8)>,
    board: Seq<u8>,
    dead: Seq<u8>,
    full: Seq<u8>,
    i: int,
)
    requires
        equity::are_distinct(equity::known(hands, board, dead)),
        finishes(hands, board, dead, full),
        0 <= i < hands.len(),
    ensures
        strength::is_hand(with_hole(full, hands[i])),
{
    let all = equity::known(hands, board, dead);
    let held = equity::cards_of(hands);
    let cards = with_hole(full, hands[i]);
    let n = board.len() as int;
    equity::lemma_cards_of(hands);
    equity::lemma_hands_are_cards(hands, board, dead);
    assert(all[2 * i] == hands[i].0 && all[2 * i + 1] == hands[i].1);
    assert forall|k: int| 0 <= k < n implies #[trigger] full[k] == all[held.len() + k] by {}
    assert forall|k: int| 0 <= k < 5 implies (#[trigger] full[k]) < 52 && full[k] != hands[i].0
        && full[k] != hands[i].1 by {
        if k >= n {
            assert(!is_taken(hands, board, dead, full[k]));
        } else {
            assert(all[held.len() + k] < 52);
        }
    }
    assert forall|k: int, m: int| 0 <= k < m < 5 implies #[trigger] full[k] != #[trigger] full[m] by {
        if m < n {
            assert(all[held.len() + k] != all[held.len() + m]);
        } else if k < n {
            assert(board.contains(board[k]));
            assert(!is_taken(hands, board, dead, full[m]));
        }
    }
    assert forall|k: int| 0 <= k < 7 implies #[trigger] cards[k] == if k < 5 {
        full[k]
    } else if k == 5 {
        hands[i].0
    } else {
        hands[i].1
    } by {}
}

/// What is shown down with a full board is everyone's best five.
proof fn lemma_shows_best(hands: Seq<(u8, u8)>, board: Seq<u8>, dead: Seq<u8>, full: Seq<u8>)
    requires
        equity::are_distinct(equity::known(hands, board, dead)),
        finishes(hands, board, dead, full),
    ensures
        shows_best(equity::showdown(hands, full), hands, full),
{
    let row = equity::showdown(hands, full);
    assert forall|i: int| 0 <= i < hands.len() implies showdown::is_best_five(
        with_hole(full, #[trigger] hands[i]),
        row[i],
    ) by {
        lemma_seven(hands, board, dead, full, i);
        assert(full + seq![hands[i].0, hands[i].1] =~= with_hole(full, hands[i]));
        strength::law_score_is_that_of_the_best_five(with_hole(full, hands[i]));
    }
}

proof fn lemma_finishes(hands: Seq<(u8, u8)>, board: Seq<u8>, dead: Seq<u8>, cards: Seq<u8>)
    requires
        equity::are_distinct(equity::known(hands, board, dead)),
        board.len() <= 5,
        cards.len() == 5 - board.len(),
        equity::are_distinct(cards),
        forall|k: int|
            0 <= k < cards.len() ==> equity::unseen_cards(
                equity::known(hands, board, dead),
            ).contains(#[trigger] cards[k]),
    ensures
        finishes(hands, board, dead, board + cards),
{
    let full = board + cards;
    let all = equity::known(hands, board, dead);
    equity::law_unseen_cards(all);
    assert forall|k: int| board.len() <= k < 5 implies (#[trigger] full[k]) < 52 && !is_taken(
        hands,
        board,
        dead,
        full[k],
    ) by {
        assert(full[k] == cards[k - board.len()]);
        lemma_known(hands, board, dead, full[k]);
    }
}

// ---- Enumeration ----

/// An enumeration goes through every way to finish the board, each once, and
/// shows down everyone's best five on it.
#[verifier::rlimit(40)]
pub proof fn law_enumerations_show_every_board(
    hands: Seq<(u8, u8)>,
    board: Seq<u8>,
    dead: Seq<u8>,
) -> (boards: Seq<Seq<u8>>)
    requires
        equity::can_be_dealt(hands, board, dead),
    ensures
        boards.len() == equity::exact_showdowns(hands, board, dead).len(),
        boards.no_duplicates(),
        forall|full: Seq<u8>| #[trigger]
            boards.contains(full) <==> finishes(hands, board, dead, full) && rises_after(
                board,
                full,
            ),
        forall|k: int|
            0 <= k < boards.len() ==> shows_best(
                equity::exact_showdowns(hands, board, dead)[k],
                hands,
                #[trigger] boards[k],
            ),
{
    let all = equity::known(hands, board, dead);
    let cards = equity::unseen_cards(all);
    let k = 5 - board.len();
    let ways = runouts::runouts(cards, k);
    let rows = equity::exact_showdowns(hands, board, dead);
    let boards = ways.map_values(|d: Seq<u8>| board + d);
    runouts::law_unseen_cards_are_rising(all);
    runouts::law_every_runout_comes_up_once(cards, k);
    equity::law_unseen_cards(all);
    assert forall|p: int, q: int| 0 <= p < boards.len() && 0 <= q < boards.len() && p != q implies
        boards[p] != boards[q] by {
        assert(ways.contains(ways[p]) && ways.contains(ways[q]));
        if boards[p] == boards[q] {
            assert(ways[p] =~= boards[p].skip(board.len() as int));
            assert(ways[q] =~= boards[q].skip(board.len() as int));
        }
    }
    assert forall|p: int| 0 <= p < boards.len() implies finishes(
        hands,
        board,
        dead,
        #[trigger] boards[p],
    ) && rises_after(board, boards[p]) && shows_best(rows[p], hands, boards[p]) by {
        let d = ways[p];
        assert(ways.contains(d));
        assert(equity::are_distinct(d)) by {
            assert forall|i: int, j: int| 0 <= i < d.len() && 0 <= j < d.len() && i != j implies d[i]
                != d[j] by {
                if i < j {
                    assert(d[i] < d[j]);
                } else {
                    assert(d[j] < d[i]);
                }
            }
            assert forall|i: int| 0 <= i < d.len() implies #[trigger] d[i] < 52 by {
                assert(cards.contains(d[i]));
            }
        }
        lemma_finishes(hands, board, dead, d);
        lemma_shows_best(hands, board, dead, board + d);
        let c = combinations::combinations(cards.len() as int, k)[p];
        assert(d == equity::picked(cards, c));
        assert forall|a: int, b: int| board.len() <= a < b < (board + d).len() implies
            #[trigger] (board + d)[a] < #[trigger] (board + d)[b] by {
            assert(d[a - board.len()] < d[b - board.len()]);
        }
    }
    assert forall|full: Seq<u8>| #[trigger] boards.contains(full) <==> finishes(
        hands,
        board,
        dead,
        full,
    ) && rises_after(board, full) by {
        if boards.contains(full) {
            let p = boards.index_of(full);
            assert(boards[p] == full);
        }
        if finishes(hands, board, dead, full) && rises_after(board, full) {
            let d = full.skip(board.len() as int);
            assert(full =~= board + d);
            assert forall|i: int| 0 <= i < d.len() implies cards.contains(#[trigger] d[i]) by {
                assert(d[i] == full[board.len() + i]);
                lemma_known(hands, board, dead, d[i]);
            }
            assert forall|i: int, j: int| 0 <= i < j < d.len() implies #[trigger] d[i]
                < #[trigger] d[j] by {
                assert(full[board.len() + i] < full[board.len() + j]);
            }
            assert(ways.contains(d));
            let p = ways.index_of(d);
            assert(boards[p] == board + d);
        }
    }
    boards
}

// ---- Samples ----

/// Every trial of a sample finishes the board with unseen cards and shows down
/// everyone's best five on it.
pub proof fn law_samples_show_down_the_best_five(
    hands: Seq<(u8, u8)>,
    board: Seq<u8>,
    dead: Seq<u8>,
    s: rng::State,
    trials: nat,
) -> (boards: Seq<Seq<u8>>)
    requires
        equity::can_be_dealt(hands, board, dead),
    ensures
        boards.len() == trials,
        equity::sampled_showdowns(
            hands,
            board,
            equity::unseen_cards(equity::known(hands, board, dead)),
            s,
            trials as int,
        ).len() == trials,
        forall|k: int|
            0 <= k < boards.len() ==> finishes(hands, board, dead, #[trigger] boards[k])
                && shows_best(
                equity::sampled_showdowns(
                    hands,
                    board,
                    equity::unseen_cards(equity::known(hands, board, dead)),
                    s,
                    trials as int,
                )[k],
                hands,
                boards[k],
            ),
{
    let all = equity::known(hands, board, dead);
    let cards = equity::unseen_cards(all);
    let n = 5 - board.len();
    let boards = Seq::new(
        trials,
        |k: int| board + equity::redrawn(cards, s, n, k + 1).0.take(n),
    );
    equity::law_unseen_cards(all);
    assert forall|k: int| 0 <= k < boards.len() implies finishes(
        hands,
        board,
        dead,
        #[trigger] boards[k],
    ) && shows_best(
        equity::sampled_showdowns(hands, board, cards, s, trials as int)[k],
        hands,
        boards[k],
    ) by {
        runouts::law_samples_deal_unseen_cards(cards, s, n, k + 1);
        runouts::lemma_redrawn(cards, s, n, k + 1);
        let d = equity::redrawn(cards, s, n, k + 1).0.take(n);
        lemma_finishes(hands, board, dead, d);
        lemma_shows_best(hands, board, dead, board + d);
    }
    boards
}

/// The trials of a sample follow each other: each draws its cards, place by place,
/// from those that the one before has left in some order, with the generator
/// where that one left it; and what it shows down is the board and these cards.
#[verifier::rlimit(40)]
pub proof fn law_sample_trials_follow_each_other(
    hands: Seq<(u8, u8)>,
    board: Seq<u8>,
    dead: Seq<u8>,
    s: rng::State,
    trials: nat,
) -> (decks: Seq<(Seq<u8>, rng::State)>)
    requires
        equity::can_be_dealt(hands, board, dead),
    ensures
        decks.len() == trials + 1,
        decks[0] == (equity::unseen_cards(equity::known(hands, board, dead)), s),
        forall|k: int|
            0 <= k < trials ==> {
                let n = 5 - board.len();
                let (cards, state) = #[trigger] decks[k];
                let (picks, after) = shuffles::steps(cards.len() as int, state, n);
                &&& decks[k + 1] == (shuffles::sampled(cards, picks), after)
                &&& shows_best(
                    equity::sampled_showdowns(hands, board, decks[0].0, s, trials as int)[k],
                    hands,
                    board + decks[k + 1].0.take(n),
                )
            },
{
    let all = equity::known(hands, board, dead);
    let cards = equity::unseen_cards(all);
    let n = 5 - board.len();
    let decks = Seq::new(trials + 1, |k: int| equity::redrawn(cards, s, n, k));
    equity::law_unseen_cards(all);
    assert forall|k: int| 0 <= k < trials implies {
        let (c, state) = #[trigger] decks[k];
        let (picks, after) = shuffles::steps(c.len() as int, state, n);
        &&& decks[k + 1] == (shuffles::sampled(c, picks), after)
        &&& shows_best(
            equity::sampled_showdowns(hands, board, decks[0].0, s, trials as int)[k],
            hands,
            board + decks[k + 1].0.take(n),
        )
    } by {
        runouts::lemma_redrawn(cards, s, n, k);
        runouts::lemma_redrawn(cards, s, n, k + 1);
        let (c, state) = equity::redrawn(cards, s, n, k);
        shuffles::law_sample_follows_the_choices(c, state, n);
        runouts::law_samples_deal_unseen_cards(cards, s, n, k + 1);
        let d = equity::redrawn(cards, s, n, k + 1).0.take(n);
        lemma_finishes(hands, board, dead, d);
        lemma_shows_best(hands, board, dead, board + d);
        assert(decks[k + 1] == equity::drawn(c, state, n));
    }
    decks
}

/// A trial between ranges deals one holding of each, no card twice and none that
/// is known, finishes the board with cards that are left, and shows down
/// everyone's best five on it.
pub proof fn law_range_trials_show_down_the_best_five(
    ranges: Seq<Seq<(u8, u8)>>,
    board: Seq<u8>,
    dead: Seq<u8>,
    s: rng::State,
) -> (dealt: (Seq<(u8, u8)>, Seq<u8>))
    requires
        runouts::can_be_drawn(ranges, board, dead),
        equity::go_together(ranges, board, dead),
        equity::leaves_a_board(ranges.len() as int, dead),
        board.len() <= 5,
    ensures
        equity::is_joint(ranges, board, dead, dealt.0),
        finishes(dealt.0, board, dead, dealt.1),
        shows_best(equity::trial(ranges, board, dead, s).0, dealt.0, dealt.1),
{
    reveal(equity::trial);
    let n = 5 - board.len();
    let (h, t) = equity::deal(ranges, board, dead, s, equity::all_draws());
    runouts::law_deals_are_joint_holdings(ranges, board, dead, s, equity::all_draws());
    let all = equity::known(h, board, dead);
    let cards = equity::unseen_cards(all);
    equity::law_unseen_cards(all);
    equity::lemma_hands_are_cards(h, board, dead);
    runouts::law_samples_deal_unseen_cards(cards, t, n, 1);
    runouts::lemma_redrawn(cards, t, n, 1);
    reveal_with_fuel(equity::redrawn, 2);
    let d = equity::drawn(cards, t, n).0.take(n);
    lemma_finishes(h, board, dead, d);
    lemma_shows_best(h, board, dead, board + d);
    (h, board + d)
}

/// Sampling ranges plays as many trials as asked for, one after the other.
pub proof fn law_range_trials_follow_each_other(
    ranges: Seq<Seq<(u8, u8)>>,
    board: Seq<u8>,
    dead: Seq<u8>,
    s: rng::State,
    trials: nat,
) -> (states: Seq<rng::State>)
    ensures
        states.len() == trials + 1,
        states[0] == s,
        equity::played(ranges, board, dead, s, trials as int).0.len() == trials,
        forall|k: int|
            0 <= k < trials ==> equity::trial(ranges, board, dead, #[trigger] states[k]) == (
                equity::played(ranges, board, dead, s, trials as int).0[k],
                states[k + 1],
            ),
        states[trials as int] == equity::played(ranges, board, dead, s, trials as int).1,
    decreases trials,
{
    if trials == 0 {
        seq![s]
    } else {
        let m = (trials - 1) as nat;
        let before = law_range_trials_follow_each_other(ranges, board, dead, s, m);
        let rows = equity::played(ranges, board, dead, s, m as int).0;
        let all = equity::played(ranges, board, dead, s, trials as int);
        let states = before.push(all.1);
        assert forall|k: int| 0 <= k < trials implies equity::trial(
            ranges,
            board,
            dead,
            #[trigger] states[k],
        ) == (all.0[k], states[k + 1]) by {
            assert(states[k] == before[k]);
            if k < m {
                assert(all.0[k] == rows[k]);
            }
        }
        states
    }
}

// ---- Ranges ----

/// Known cards leave a range with just the holdings that use none of them.
pub proof fn law_known_cards_trim_ranges(
    ranges: Seq<Seq<(u8, u8)>>,
    board: Seq<u8>,
    dead: Seq<u8>,
    i: int,
)
    requires
        0 <= i < ranges.len(),
        range::canonical(ranges[i]),
    ensures
        equity::trimmed(ranges, board, dead).len() == ranges.len(),
        range::canonical(equity::trimmed(ranges, board, dead)[i]),
        forall|p: (u8, u8)| #[trigger]
            equity::trimmed(ranges, board, dead)[i].contains(p) <==> {
                &&& ranges[i].contains(p)
                &&& !board.contains(p.0) && !board.contains(p.1)
                &&& !dead.contains(p.0) && !dead.contains(p.1)
            },
{
    range::law_card_removal_is_exact(ranges[i], board + dead);
    assert forall|p: (u8, u8)| #[trigger]
        equity::trimmed(ranges, board, dead)[i].contains(p) <==> {
            &&& ranges[i].contains(p)
            &&& !board.contains(p.0) && !board.contains(p.1)
            &&& !dead.contains(p.0) && !dead.contains(p.1)
        } by {
        range::lemma_append_contains(board, dead, p.0);
        range::lemma_append_contains(board, dead, p.1);
    }
}

/// Two holdings and a full board.
pub struct Deal {
    pub one: (u8, u8),
    pub two: (u8, u8),
    pub full: Seq<u8>,
}

/// The deal can come up: a holding of each range, no card in both, and the board
/// finished with cards that are left.
pub open spec fn can_come_up(
    holdings: Seq<(u8, u8)>,
    others: Seq<(u8, u8)>,
    board: Seq<u8>,
    dead: Seq<u8>,
    d: Deal,
) -> bool {
    &&& holdings.contains(d.one)
    &&& others.contains(d.two)
    &&& d.one.0 != d.two.0 && d.one.0 != d.two.1 && d.one.1 != d.two.0 && d.one.1 != d.two.1
    &&& finishes(seq![d.one, d.two], board, dead, d.full)
    &&& rises_after(board, d.full)
}

/// The deals and the rows go together: every deal that can come up is there once,
/// and its row shows the best five of each.
pub open spec fn are_deals(
    holdings: Seq<(u8, u8)>,
    others: Seq<(u8, u8)>,
    board: Seq<u8>,
    dead: Seq<u8>,
    rows: Seq<Seq<int>>,
    deals: Seq<Deal>,
) -> bool {
    &&& deals.len() == rows.len()
    &&& deals.no_duplicates()
    &&& forall|d: Deal| #[trigger]
        deals.contains(d) <==> can_come_up(holdings, others, board, dead, d)
    &&& forall|k: int|
        0 <= k < deals.len() ==> shows_best(
            rows[k],
            seq![(#[trigger] deals[k]).one, deals[k].two],
            deals[k].full,
        )
}

/// Holdings that go with the known cards.
spec fn are_free(holdings: Seq<(u8, u8)>, board: Seq<u8>, dead: Seq<u8>) -> bool {
    &&& holdings.no_duplicates()
    &&& forall|i: int|
        0 <= i < holdings.len() ==> range::is_holding(#[trigger] holdings[i]) && !equity::clashes(
            board + dead,
            holdings[i],
        )
}

proof fn lemma_deals_join(a: Seq<Deal>, b: Seq<Deal>)
    requires
        a.no_duplicates(),
        b.no_duplicates(),
        forall|d: Deal| #[trigger] a.contains(d) ==> !b.contains(d),
    ensures
        (a + b).no_duplicates(),
        forall|d: Deal| #[trigger] (a + b).contains(d) <==> a.contains(d) || b.contains(d),
{
    assert forall|d: Deal| #[trigger] (a + b).contains(d) <==> a.contains(d) || b.contains(d) by {
        range::lemma_append_contains(a, b, d);
    }
    assert forall|i: int, j: int| 0 <= i < j < (a + b).len() implies (a + b)[i] != (a + b)[j] by {
        if j < a.len() {
            assert(a[i] != a[j]);
        } else if i >= a.len() {
            assert(b[i - a.len()] != b[j - a.len()]);
        } else {
            assert(a.contains(a[i]));
            assert(b.contains(b[j - a.len()]));
        }
    }
}

#[verifier::rlimit(40)]
proof fn lemma_against(
    a: (u8, u8),
    others: Seq<(u8, u8)>,
    board: Seq<u8>,
    dead: Seq<u8>,
) -> (deals: Seq<Deal>)
    requires
        equity::are_distinct(board + dead),
        board.len() <= 5,
        dead.len() <= 43,
        range::is_holding(a),
        !equity::clashes(board + dead, a),
        are_free(others, board, dead),
    ensures
        are_deals(
            seq![a],
            others,
            board,
            dead,
            equity::showdowns_against(a, others, board, dead),
            deals,
        ),
    decreases others.len(),
{
    let rows = equity::showdowns_against(a, others, board, dead);
    if others.len() == 0 {
        let none: Seq<Deal> = seq![];
        assert(are_deals(seq![a], others, board, dead, rows, none));
        none
    } else {
        let b = others.last();
        let rest = others.drop_last();
        assert(others =~= rest.push(b));
        assert(b == others[others.len() - 1]);
        assert forall|i: int| 0 <= i < rest.len() implies range::is_holding(#[trigger] rest[i])
            && !equity::clashes(board + dead, rest[i]) by {
            assert(rest[i] == others[i]);
        }
        assert(!rest.contains(b)) by {
            if rest.contains(b) {
                let i = rest.index_of(b);
                assert(others[i] == others[others.len() - 1]);
            }
        }
        assert(rest.no_duplicates());
        let before = lemma_against(a, rest, board, dead);
        let old_rows = equity::showdowns_against(a, rest, board, dead);
        assert forall|p: (u8, u8)| #[trigger] others.contains(p) <==> rest.contains(p) || p == b by {
            range::lemma_push_contains(rest, b, p);
        }
        if equity::share_a_card(a, b) {
            assert(rows =~= old_rows);
            assert forall|d: Deal| #[trigger] before.contains(d) <==> can_come_up(
                seq![a],
                others,
                board,
                dead,
                d,
            ) by {
                lemma_single(a, d.one);
                assert(others.contains(d.two) <==> rest.contains(d.two) || d.two == b);
            }
            before
        } else {
            let pair = equity::two(a, b);
            equity::lemma_two_hands(a, b, board, dead);
            let boards = law_enumerations_show_every_board(pair, board, dead);
            let now = boards.map_values(|full: Seq<u8>| Deal { one: a, two: b, full });
            let new_rows = equity::exact_showdowns(pair, board, dead);
            assert(seq![a, b] =~= pair);
            assert forall|i: int, j: int| 0 <= i < j < now.len() implies now[i] != now[j] by {
                assert(boards[i] != boards[j]);
            }
            assert forall|d: Deal| #[trigger] now.contains(d) <==> d.one == a && d.two == b
                && finishes(pair, board, dead, d.full) && rises_after(board, d.full) by {
                if now.contains(d) {
                    let i = now.index_of(d);
                    assert(boards.contains(boards[i]));
                }
                if d.one == a && d.two == b && finishes(pair, board, dead, d.full) && rises_after(
                    board,
                    d.full,
                ) {
                    assert(boards.contains(d.full));
                    let i = boards.index_of(d.full);
                    assert(now[i] == d);
                }
            }
            lemma_deals_join(before, now);
            let deals = before + now;
            assert forall|d: Deal| #[trigger] deals.contains(d) <==> can_come_up(
                seq![a],
                others,
                board,
                dead,
                d,
            ) by {
                lemma_single(a, d.one);
                assert(others.contains(d.two) <==> rest.contains(d.two) || d.two == b);
            }
            assert(rows =~= old_rows + new_rows);
            assert forall|k: int| 0 <= k < deals.len() implies shows_best(
                rows[k],
                seq![(#[trigger] deals[k]).one, deals[k].two],
                deals[k].full,
            ) by {
                if k < before.len() {
                    assert(deals[k] == before[k]);
                } else {
                    let m = k - before.len();
                    assert(deals[k] == now[m]);
                    assert(shows_best(new_rows[m], pair, boards[m]));
                }
            }
            deals
        }
    }
}

proof fn lemma_single(a: (u8, u8), p: (u8, u8))
    ensures
        seq![a].contains(p) <==> p == a,
{
    assert(seq![a][0] == a);
}

#[verifier::rlimit(40)]
proof fn lemma_pairs(
    holdings: Seq<(u8, u8)>,
    others: Seq<(u8, u8)>,
    board: Seq<u8>,
    dead: Seq<u8>,
) -> (deals: Seq<Deal>)
    requires
        equity::are_distinct(board + dead),
        board.len() <= 5,
        dead.len() <= 43,
        are_free(holdings, board, dead),
        are_free(others, board, dead),
    ensures
        are_deals(
            holdings,
            others,
            board,
            dead,
            equity::pair_showdowns(holdings, others, board, dead),
            deals,
        ),
    decreases holdings.len(),
{
    let rows = equity::pair_showdowns(holdings, others, board, dead);
    if holdings.len() == 0 {
        let none: Seq<Deal> = seq![];
        assert(are_deals(holdings, others, board, dead, rows, none));
        none
    } else {
        let a = holdings.last();
        let rest = holdings.drop_last();
        assert(holdings =~= rest.push(a));
        assert(a == holdings[holdings.len() - 1]);
        assert forall|i: int| 0 <= i < rest.len() implies range::is_holding(#[trigger] rest[i])
            && !equity::clashes(board + dead, rest[i]) by {
            assert(rest[i] == holdings[i]);
        }
        assert(!rest.contains(a)) by {
            if rest.contains(a) {
                let i = rest.index_of(a);
                assert(holdings[i] == holdings[holdings.len() - 1]);
            }
        }
        assert(rest.no_duplicates());
        let before = lemma_pairs(rest, others, board, dead);
        let now = lemma_against(a, others, board, dead);
        let old_rows = equity::pair_showdowns(rest, others, board, dead);
        let new_rows = equity::showdowns_against(a, others, board, dead);
        assert forall|d: Deal| #[trigger] before.contains(d) implies !now.contains(d) by {
            lemma_single(a, d.one);
        }
        lemma_deals_join(before, now);
        let deals = before + now;
        assert forall|d: Deal| #[trigger] deals.contains(d) <==> can_come_up(
            holdings,
            others,
            board,
            dead,
            d,
        ) by {
            lemma_single(a, d.one);
            range::lemma_push_contains(rest, a, d.one);
        }
        assert(rows =~= old_rows + new_rows);
        assert forall|k: int| 0 <= k < deals.len() implies shows_best(
            rows[k],
            seq![(#[trigger] deals[k]).one, deals[k].two],
            deals[k].full,
        ) by {
            if k < before.len() {
                assert(deals[k] == before[k]);
            } else {
                assert(deals[k] == now[k - before.len()]);
            }
        }
        deals
    }
}

/// Enumerating two ranges goes through every pair of their holdings that can be
/// dealt together and every way to finish the board, each once, and shows down
/// the best five of both.
pub proof fn law_range_enumerations_show_every_deal(
    holdings: Seq<(u8, u8)>,
    others: Seq<(u8, u8)>,
    board: Seq<u8>,
    dead: Seq<u8>,
) -> (deals: Seq<Deal>)
    requires
        equity::are_distinct(board + dead),
        board.len() <= 5,
        dead.len() <= 43,
        range::canonical(holdings),
        range::canonical(others),
        forall|i: int|
            0 <= i < holdings.len() ==> !equity::clashes(board + dead, #[trigger] holdings[i]),
        forall|i: int|
            0 <= i < others.len() ==> !equity::clashes(board + dead, #[trigger] others[i]),
    ensures
        are_deals(
            holdings,
            others,
            board,
            dead,
            equity::pair_showdowns(holdings, others, board, dead),
            deals,
        ),
{
    lemma_apart(holdings);
    lemma_apart(others);
    lemma_pairs(holdings, others, board, dead)
}

proof fn lemma_apart(s: Seq<(u8, u8)>)
    requires
        range::canonical(s),
    ensures
        s.no_duplicates(),
{
    assert forall|i: int, j: int| 0 <= i < j < s.len() implies s[i] != s[j] by {
        assert(range::precedes(s[i], s[j]));
    }
}

// ---- Dealing ranges ----

/// One holding of each range, no card used twice and none that is known.
pub open spec fn fit_together(
    ranges: Seq<Seq<(u8, u8)>>,
    board: Seq<u8>,
    dead: Seq<u8>,
    h: Seq<(u8, u8)>,
) -> bool {
    &&& h.len() == ranges.len()
    &&& forall|i: int| 0 <= i < h.len() ==> ranges[i].contains(#[trigger] h[i])
    &&& forall|i: int|
        #![trigger h[i]]
        0 <= i < h.len() ==> {
            &&& !board.contains(h[i].0) && !board.contains(h[i].1)
            &&& !dead.contains(h[i].0) && !dead.contains(h[i].1)
        }
    &&& forall|i: int, j: int|
        #![trigger h[i], h[j]]
        0 <= i < j < h.len() ==> h[i].0 != h[j].0 && h[i].0 != h[j].1 && h[i].1 != h[j].0 && h[i].1
            != h[j].1
}

proof fn lemma_fit(h: Seq<(u8, u8)>, board: Seq<u8>, dead: Seq<u8>)
    requires
        equity::are_distinct(board + dead),
        forall|i: int| 0 <= i < h.len() ==> range::is_holding(#[trigger] h[i]),
        forall|i: int|
            #![trigger h[i]]
            0 <= i < h.len() ==> {
                &&& !board.contains(h[i].0) && !board.contains(h[i].1)
                &&& !dead.contains(h[i].0) && !dead.contains(h[i].1)
            },
        forall|i: int, j: int|
            #![trigger h[i], h[j]]
            0 <= i < j < h.len() ==> h[i].0 != h[j].0 && h[i].0 != h[j].1 && h[i].1 != h[j].0
                && h[i].1 != h[j].1,
    ensures
        equity::are_distinct(equity::known(h, board, dead)),
    decreases h.len(),
{
    if h.len() == 0 {
        assert(equity::known(h, board, dead) =~= board + dead);
    } else {
        let before = h.drop_last();
        let c = h.last();
        assert(h =~= before.push(c));
        assert(c == h[h.len() - 1]);
        assert forall|i: int| 0 <= i < before.len() implies #[trigger] before[i] == h[i] by {}
        lemma_fit(before, board, dead);
        lemma_known(before, board, dead, c.0);
        lemma_known(before, board, dead, c.1);
        equity::lemma_known_push(before, board, dead, c);
    }
}

/// A joint holding is one of each range, no card used twice and none known.
#[verifier::rlimit(40)]
pub proof fn law_joint_holdings_share_no_card(
    ranges: Seq<Seq<(u8, u8)>>,
    board: Seq<u8>,
    dead: Seq<u8>,
    h: Seq<(u8, u8)>,
)
    requires
        runouts::can_be_drawn(ranges, board, dead),
    ensures
        equity::is_joint(ranges, board, dead, h) <==> fit_together(ranges, board, dead, h),
{
    if fit_together(ranges, board, dead, h) {
        assert forall|i: int| 0 <= i < h.len() implies range::is_holding(#[trigger] h[i]) by {
            let j = ranges[i].index_of(h[i]);
            assert(range::canonical(ranges[i]));
            assert(range::is_holding(ranges[i][j]));
        }
        lemma_fit(h, board, dead);
    }
    if equity::is_joint(ranges, board, dead, h) {
        let all = equity::known(h, board, dead);
        let held = equity::cards_of(h);
        equity::lemma_cards_of(h);
        assert forall|i: int|
            #![trigger h[i]]
            0 <= i < h.len() implies !board.contains(h[i].0) && !board.contains(h[i].1)
            && !dead.contains(h[i].0) && !dead.contains(h[i].1) by {
            assert(all[2 * i] == h[i].0 && all[2 * i + 1] == h[i].1);
            lemma_not_after(all, held, board, dead, 2 * i);
            lemma_not_after(all, held, board, dead, 2 * i + 1);
        }
        assert forall|i: int, j: int|
            #![trigger h[i], h[j]]
            0 <= i < j < h.len() implies h[i].0 != h[j].0 && h[i].0 != h[j].1 && h[i].1 != h[j].0
            && h[i].1 != h[j].1 by {
            assert(all[2 * i] == h[i].0 && all[2 * i + 1] == h[i].1);
            assert(all[2 * j] == h[j].0 && all[2 * j + 1] == h[j].1);
        }
    }
}

proof fn lemma_not_after(
    all: Seq<u8>,
    held: Seq<u8>,
    board: Seq<u8>,
    dead: Seq<u8>,
    k: int,
)
    requires
        all == held + board + dead,
        all.no_duplicates(),
        0 <= k < held.len(),
    ensures
        !board.contains(all[k]),
        !dead.contains(all[k]),
{
    if board.contains(all[k]) {
        let m = board.index_of(all[k]);
        assert(all[held.len() + m] == board[m]);
    }
    if dead.contains(all[k]) {
        let m = dead.index_of(all[k]);
        assert(all[held.len() + board.len() + m] == dead[m]);
    }
}

/// Ranges can be played for some trials exactly where holdings of them fit
/// together and leave cards enough to finish the board.
pub proof fn law_ranges_can_be_played_where_holdings_fit(
    ranges: Seq<Seq<(u8, u8)>>,
    board: Seq<u8>,
    dead: Seq<u8>,
    trials: int,
)
    requires
        runouts::can_be_drawn(ranges, board, dead),
        board.len() <= 5,
        trials > 0,
    ensures
        equity::can_be_played(ranges, board, dead, trials) <==> exists|h: Seq<(u8, u8)>| #[trigger]
            fit_together(ranges, board, dead, h) && 52 - (2 * h.len() + board.len() + dead.len())
                >= 5 - board.len(),
{
    if equity::can_be_played(ranges, board, dead, trials) {
        let h = choose|h: Seq<(u8, u8)>| #[trigger] equity::is_joint(ranges, board, dead, h);
        law_joint_holdings_share_no_card(ranges, board, dead, h);
        assert(fit_together(ranges, board, dead, h));
    }
    if exists|h: Seq<(u8, u8)>| #[trigger]
        fit_together(ranges, board, dead, h) && 52 - (2 * h.len() + board.len() + dead.len()) >= 5
            - board.len() {
        let h = choose|h: Seq<(u8, u8)>| #[trigger]
            fit_together(ranges, board, dead, h) && 52 - (2 * h.len() + board.len() + dead.len())
                >= 5 - board.len();
        law_joint_holdings_share_no_card(ranges, board, dead, h);
        assert(equity::is_joint(ranges, board, dead, h));
    }
}

/// A draw is kept where the holdings in the places that it picks, one for each
/// range in order, fit together; else it is given up with the first that does not
/// fit, and the whole draw starts again from there.
#[verifier::rlimit(40)]
pub proof fn law_clashes_restart_the_whole_draw(
    ranges: Seq<Seq<(u8, u8)>>,
    board: Seq<u8>,
    dead: Seq<u8>,
    s: rng::State,
    attempts: int,
) -> (m: int)
    requires
        runouts::can_be_drawn(ranges, board, dead),
        attempts > 0,
    ensures
        ({
            let n = ranges.len() as int;
            let (at, t) = runouts::places(ranges, s, n);
            let h = runouts::holdings_at(ranges, at);
            &&& 0 <= m <= n
            &&& fit_together(ranges, board, dead, h) ==> equity::deal(
                ranges,
                board,
                dead,
                s,
                attempts,
            ) == (h, t)
            &&& !fit_together(ranges, board, dead, h) ==> {
                let some = runouts::holdings_at(ranges, runouts::places(ranges, s, m).0);
                let fewer = runouts::holdings_at(ranges, runouts::places(ranges, s, m - 1).0);
                &&& m >= 1
                &&& fit_together(ranges.take(m - 1), board, dead, fewer)
                &&& !fit_together(ranges.take(m), board, dead, some)
                &&& equity::deal(ranges, board, dead, s, attempts) == equity::deal(
                    ranges,
                    board,
                    dead,
                    runouts::places(ranges, s, m).1,
                    attempts - 1,
                )
            }
        }),
{
    let n = ranges.len() as int;
    let h = runouts::holdings_at(ranges, runouts::places(ranges, s, n).0);
    runouts::lemma_attempt(ranges, board, dead, s, n);
    lemma_places_fit(ranges, board, dead, s, n);
    if equity::attempt(ranges, board, dead, s, n).0 is Some {
        n
    } else {
        lemma_first_clash(ranges, board, dead, s, n)
    }
}

/// The holdings picked for the first ranges fit where their cards are different.
proof fn lemma_places_fit(
    ranges: Seq<Seq<(u8, u8)>>,
    board: Seq<u8>,
    dead: Seq<u8>,
    s: rng::State,
    n: int,
)
    requires
        runouts::can_be_drawn(ranges, board, dead),
        0 <= n <= ranges.len(),
    ensures
        ({
            let h = runouts::holdings_at(ranges, runouts::places(ranges, s, n).0);
            fit_together(ranges.take(n), board, dead, h) <==> equity::attempt(
                ranges,
                board,
                dead,
                s,
                n,
            ).0 is Some
        }),
        n == ranges.len() ==> ranges.take(n) == ranges,
{
    let at = runouts::places(ranges, s, n).0;
    let h = runouts::holdings_at(ranges, at);
    let some = ranges.take(n);
    runouts::lemma_attempt(ranges, board, dead, s, n);
    assert forall|i: int| 0 <= i < some.len() implies range::canonical(#[trigger] some[i]) && 0
        < some[i].len() <= u64::MAX by {
        assert(some[i] == ranges[i]);
        assert(range::canonical(ranges[i]));
    }
    assert forall|i: int| 0 <= i < h.len() implies some[i].contains(#[trigger] h[i]) by {
        assert(h[i] == ranges[i][at[i]]);
    }
    law_joint_holdings_share_no_card(some, board, dead, h);
    if n == ranges.len() {
        assert(ranges.take(n) =~= ranges);
    }
}

proof fn lemma_first_clash(
    ranges: Seq<Seq<(u8, u8)>>,
    board: Seq<u8>,
    dead: Seq<u8>,
    s: rng::State,
    n: int,
) -> (m: int)
    requires
        runouts::can_be_drawn(ranges, board, dead),
        0 <= n <= ranges.len(),
        equity::attempt(ranges, board, dead, s, n).0 is None,
    ensures
        1 <= m <= n,
        fit_together(
            ranges.take(m - 1),
            board,
            dead,
            runouts::holdings_at(ranges, runouts::places(ranges, s, m - 1).0),
        ),
        !fit_together(
            ranges.take(m),
            board,
            dead,
            runouts::holdings_at(ranges, runouts::places(ranges, s, m).0),
        ),
        equity::attempt(ranges, board, dead, s, n).1 == runouts::places(ranges, s, m).1,
    decreases n,
{
    lemma_places_fit(ranges, board, dead, s, n);
    if n == 0 {
        0
    } else if equity::attempt(ranges, board, dead, s, n - 1).0 is None {
        lemma_first_clash(ranges, board, dead, s, n - 1)
    } else {
        lemma_places_fit(ranges, board, dead, s, n - 1);
        runouts::lemma_attempt(ranges, board, dead, s, n - 1);
        n
    }
}

} // verus!
