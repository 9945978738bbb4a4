//! Equity: how often each holding wins the pot, given everything already known.
//!
//! Four entry points, in increasing order of what they don't know:
//!
//! * `exact`: specific hands, every remaining board enumerated. Ground truth.
//! * `monte_carlo`: specific hands, boards sampled. For when enumeration is
//!   too wide to sit through.
//! * `range_vs_range_exact`: ranges instead of hands, enumerated. Only
//!   tractable from the turn on.
//! * `range_vs_range`: ranges, sampled. The general case.
//!
//! Every entry point takes explicit `dead` cards, because card removal is the
//! whole difficulty of equity work. An opponent holding two aces changes how
//! often you make a set; a mucked hand you happened to see removes those cards
//! from every runout. Nothing here ever deals a card that is already known, and
//! the sampling deliberately preserves the *joint* distribution over holdings
//! rather than each player's marginal: see `range_vs_range` for why that
//! distinction is not pedantic.
//!
//! Equity is reported as a fraction of the pot, so a k-way tie pays each of the
//! winners `1/k`. That differs from `Game::payouts`, which splits real chips and
//! hands out odd ones from the left of the button on. Both are right: one is a
//! long-run average, the other is a chip count.

use vstd::prelude::*;

use crate::card::NO_CARD;
use crate::combinations;
use crate::combinations::next_combination;
use crate::deck;
use crate::eval;
use crate::range;
pub use crate::range::Range;
use crate::rng;
use crate::rng::Rng;
use crate::tally;
pub use crate::tally::{Equity, Share, MAX_HANDS, POT_UNITS};

verus! {

/// The cards of some holdings, one after the other.
pub open spec fn cards_of(hands: Seq<(u8, u8)>) -> Seq<u8>
    decreases hands.len(),
{
    if hands.len() == 0 {
        seq![]
    } else {
        cards_of(hands.drop_last()).push(hands.last().0).push(hands.last().1)
    }
}

/// Every card that is accounted for.
pub open spec fn known(hands: Seq<(u8, u8)>, board: Seq<u8>, dead: Seq<u8>) -> Seq<u8> {
    cards_of(hands) + board + dead
}

/// Cards, no two the same.
pub open spec fn are_distinct(cards: Seq<u8>) -> bool {
    &&& cards.no_duplicates()
    &&& forall|i: int| 0 <= i < cards.len() ==> #[trigger] cards[i] < 52
}

/// The cards below `n` that are not among some cards, in order.
pub open spec fn outside(cards: Seq<u8>, n: int) -> Seq<u8>
    decreases n,
{
    if n <= 0 {
        seq![]
    } else if cards.contains((n - 1) as u8) {
        outside(cards, n - 1)
    } else {
        outside(cards, n - 1).push((n - 1) as u8)
    }
}

/// The cards still in the deck, in order.
pub open spec fn unseen_cards(cards: Seq<u8>) -> Seq<u8> {
    outside(cards, 52)
}

/// What each of the hands makes with the board.
pub open spec fn showdown(hands: Seq<(u8, u8)>, board: Seq<u8>) -> Seq<int> {
    hands.map_values(|h: (u8, u8)| eval::hand_score(board + seq![h.0, h.1]))
}

/// The hands, the board and the dead cards can be on the table together, and
/// enough cards are left to finish the board.
pub open spec fn can_be_dealt(hands: Seq<(u8, u8)>, board: Seq<u8>, dead: Seq<u8>) -> bool {
    &&& board.len() <= 5
    &&& are_distinct(known(hands, board, dead))
    &&& known(hands, board, dead).len() + (5 - board.len()) <= 52
}

/// The cards in the picked places.
pub open spec fn picked(cards: Seq<u8>, pick: Seq<int>) -> Seq<u8> {
    pick.map_values(|i: int| cards[i])
}

/// The showdowns over every way to finish the board from the cards.
pub open spec fn all_showdowns(hands: Seq<(u8, u8)>, board: Seq<u8>, cards: Seq<u8>) -> Seq<
    Seq<int>,
> {
    combinations::combinations(cards.len() as int, 5 - board.len()).map_values(
        |c: Seq<int>| showdown(hands, board + picked(cards, c)),
    )
}

/// The showdowns of the hands over every board that the known cards leave open.
pub open spec fn exact_showdowns(
    hands: Seq<(u8, u8)>,
    board: Seq<u8>,
    dead: Seq<u8>,
) -> Seq<Seq<int>> {
    all_showdowns(hands, board, unseen_cards(known(hands, board, dead)))
}

/// The marks stand at just the given cards.
spec fn marks(seen: Seq<bool>, cards: Seq<u8>) -> bool {
    &&& seen.len() == 52
    &&& forall|c: u8| c < 52 ==> #[trigger] seen[c as int] == cards.contains(c)
}

/// Mark `cards` as known. Duplicated cards are the single most common way to get
/// a silently wrong equity number, so none may be marked already.
fn block(seen: &mut [bool; 52], cards: &[u8], Ghost(before): Ghost<Seq<u8>>)
    requires
        marks(old(seen)@, before),
        are_distinct(before + cards@),
    ensures
        marks(final(seen)@, before + cards@),
{
    assert(before + cards@.take(0) =~= before);
    for i in 0..cards.len()
        invariant
            marks(seen@, before + cards@.take(i as int)),
            are_distinct(before + cards@),
    {
        let c: u8 = cards[i];
        proof {
            assert((before + cards@)[before.len() + i] == c);
            let now = before + cards@.take(i as int);
            assert(before + cards@.take(i + 1) =~= now.push(c));
            assert forall|d: u8| #[trigger] (before + cards@.take(i + 1)).contains(d) <==> now.contains(d)
                || d == c by {
                range::lemma_push_contains(now, c, d);
            }
        }
        seen[c as usize] = true;
    }
    assert(cards@.take(cards@.len() as int) =~= cards@);
}

fn unseen(seen: &[bool; 52], Ghost(cards): Ghost<Seq<u8>>) -> (out: Vec<u8>)
    requires
        marks(seen@, cards),
    ensures
        out@ == unseen_cards(cards),
{
    let mut out: Vec<u8> = Vec::new();
    for c in 0..52u8
        invariant
            marks(seen@, cards),
            out@ == outside(cards, c as int),
    {
        if !seen[c as usize] {
            out.push(c);
        }
    }
    out
}

/// How many of the cards are below `n`.
pub open spec fn count_below(cards: Seq<u8>, n: int) -> int
    decreases cards.len(),
{
    if cards.len() == 0 {
        0
    } else {
        count_below(cards.drop_last(), n) + if cards.last() < n {
            1int
        } else {
            0int
        }
    }
}

proof fn lemma_count_below(cards: Seq<u8>, n: int)
    requires
        are_distinct(cards),
        0 <= n < 52,
    ensures
        count_below(cards, n + 1) == count_below(cards, n) + if cards.contains(n as u8) {
            1int
        } else {
            0int
        },
    decreases cards.len(),
{
    if cards.len() > 0 {
        let rest = cards.drop_last();
        assert forall|i: int| 0 <= i < rest.len() implies #[trigger] rest[i] < 52 by {
            assert(rest[i] == cards[i]);
        }
        lemma_count_below(rest, n);
        assert(cards =~= rest.push(cards.last()));
        range::lemma_push_contains(rest, cards.last(), n as u8);
        if rest.contains(n as u8) {
            let i = rest.index_of(n as u8);
            assert(cards[i] == n as u8);
        }
    }
}

proof fn lemma_count_ends(cards: Seq<u8>)
    requires
        forall|i: int| 0 <= i < cards.len() ==> #[trigger] cards[i] < 52,
    ensures
        count_below(cards, 0) == 0,
        count_below(cards, 52) == cards.len(),
    decreases cards.len(),
{
    if cards.len() > 0 {
        let rest = cards.drop_last();
        assert forall|i: int| 0 <= i < rest.len() implies #[trigger] rest[i] < 52 by {
            assert(rest[i] == cards[i]);
        }
        assert(cards[cards.len() - 1] < 52);
        lemma_count_ends(rest);
    }
}

/// The cards outside some cards: in order, none of those, and all others.
pub proof fn lemma_outside(cards: Seq<u8>, n: int)
    requires
        0 <= n <= 52,
    ensures
        forall|i: int|
            0 <= i < outside(cards, n).len() ==> (#[trigger] outside(cards, n)[i]) < n
                && !cards.contains(outside(cards, n)[i]),
        forall|i: int, j: int|
            0 <= i < j < outside(cards, n).len() ==> (#[trigger] outside(cards, n)[i]) < (
            #[trigger] outside(cards, n)[j]),
        forall|c: u8| c < n && !cards.contains(c) ==> #[trigger] outside(cards, n).contains(c),
        are_distinct(cards) ==> outside(cards, n).len() == n - count_below(cards, n),
    decreases n,
{
    if n > 0 {
        lemma_outside(cards, n - 1);
        let before = outside(cards, n - 1);
        let now = outside(cards, n);
        assert forall|c: u8| c < n && !cards.contains(c) implies #[trigger] now.contains(c) by {
            if c < n - 1 {
                assert(before.contains(c));
            }
            range::lemma_push_contains(before, (n - 1) as u8, c);
        }
        if are_distinct(cards) {
            lemma_count_below(cards, n - 1);
        }
    } else if are_distinct(cards) {
        lemma_count_ends(cards);
    }
}

/// The unseen cards are as many as are left, all different, and none is known.
pub proof fn law_unseen_cards(cards: Seq<u8>)
    requires
        are_distinct(cards),
    ensures
        unseen_cards(cards).len() == 52 - cards.len(),
        are_distinct(unseen_cards(cards)),
        forall|c: u8| #[trigger]
            unseen_cards(cards).contains(c) <==> c < 52 && !cards.contains(c),
{
    lemma_outside(cards, 52);
    lemma_count_ends(cards);
    let u = unseen_cards(cards);
    assert forall|c: u8| #[trigger] u.contains(c) implies c < 52 && !cards.contains(c) by {
        let i = u.index_of(c);
        assert(u[i] == c);
    }
    assert forall|i: int, j: int| 0 <= i < u.len() && 0 <= j < u.len() && i != j implies u[i]
        != u[j] by {
        if i < j {
            assert(u[i] < u[j]);
        } else {
            assert(u[j] < u[i]);
        }
    }
}

pub proof fn lemma_cards_of(hands: Seq<(u8, u8)>)
    ensures
        cards_of(hands).len() == 2 * hands.len(),
        forall|i: int|
            0 <= i < hands.len() ==> cards_of(hands)[2 * i] == (#[trigger] hands[i]).0
                && cards_of(hands)[2 * i + 1] == hands[i].1,
    decreases hands.len(),
{
    if hands.len() > 0 {
        lemma_cards_of(hands.drop_last());
        assert forall|i: int| 0 <= i < hands.len() implies cards_of(hands)[2 * i] == (
        #[trigger] hands[i]).0 && cards_of(hands)[2 * i + 1] == hands[i].1 by {
            if i < hands.len() - 1 {
                assert(hands.drop_last()[i] == hands[i]);
            }
        }
    }
}

/// Shared validation for the specific-hands entry points. Returns the cards
/// that are known, a board buffer with the known cards already in place, and
/// how many more are needed.
fn setup(hands: &[[u8; 2]], board: &[u8], dead: &[u8]) -> (ready: ([bool; 52], [u8; 5], usize))
    requires
        board.len() <= 5,
        are_distinct(known(range::pairs(hands@), board@, dead@)),
    ensures
        marks(ready.0@, known(range::pairs(hands@), board@, dead@)),
        ready.1@.take(board.len() as int) == board@,
        ready.2 == 5 - board.len(),
{
    let ghost h = range::pairs(hands@);
    let ghost all = known(h, board@, dead@);
    let mut seen: [bool; 52] = [false; 52];
    assert(h.take(0) =~= seq![]);
    for i in 0..hands.len()
        invariant
            h == range::pairs(hands@),
            all == known(h, board@, dead@),
            are_distinct(all),
            marks(seen@, cards_of(h.take(i as int))),
    {
        let pair: [u8; 2] = hands[i];
        let ghost before = cards_of(h.take(i as int));
        proof {
            assert(h.take(i + 1).drop_last() =~= h.take(i as int));
            assert(h.take(i + 1).last() == range::pair(pair));
            assert(cards_of(h.take(i + 1)) =~= before + pair@);
            lemma_cards_prefix(h, i + 1);
            lemma_distinct_prefix(cards_of(h.take(i + 1)), all);
        }
        block(&mut seen, &pair, Ghost(before));
    }
    proof {
        assert(h.take(h.len() as int) =~= h);
        lemma_distinct_prefix(cards_of(h) + board@, all);
    }
    block(&mut seen, board, Ghost(cards_of(h)));
    block(&mut seen, dead, Ghost(cards_of(h) + board@));
    let mut full: [u8; 5] = [NO_CARD; 5];
    for i in 0..board.len()
        invariant
            board.len() <= 5,
            forall|j: int| 0 <= j < i ==> #[trigger] full[j] == board[j],
    {
        full[i] = board[i];
    }
    assert(full@.take(board.len() as int) =~= board@);
    (seen, full, 5 - board.len())
}

/// The cards of the first few holdings start the cards of all.
proof fn lemma_cards_prefix(hands: Seq<(u8, u8)>, i: int)
    requires
        0 <= i <= hands.len(),
    ensures
        cards_of(hands.take(i)).len() <= cards_of(hands).len(),
        cards_of(hands.take(i)) == cards_of(hands).take(cards_of(hands.take(i)).len() as int),
    decreases hands.len() - i,
{
    if i == hands.len() {
        assert(hands.take(i) =~= hands);
        assert(cards_of(hands).take(cards_of(hands).len() as int) =~= cards_of(hands));
    } else {
        lemma_cards_prefix(hands, i + 1);
        assert(hands.take(i + 1).drop_last() =~= hands.take(i));
        let n = cards_of(hands.take(i)).len() as int;
        assert(cards_of(hands.take(i)) =~= cards_of(hands).take(n)) by {
            assert(cards_of(hands.take(i + 1)).take(n) =~= cards_of(hands.take(i)));
            assert(cards_of(hands).take(n + 2).take(n) =~= cards_of(hands).take(n));
        }
    }
}

pub proof fn lemma_distinct_prefix(a: Seq<u8>, all: Seq<u8>)
    requires
        are_distinct(all),
        a.len() <= all.len(),
        forall|i: int| 0 <= i < a.len() ==> #[trigger] a[i] == all[i],
    ensures
        are_distinct(a),
{
    assert forall|i: int, j: int| 0 <= i < a.len() && 0 <= j < a.len() && i != j implies a[i]
        != a[j] by {
        assert(all[i] != all[j]);
    }
}

/// What each hand makes with a full board.
fn strengths_of(hands: &[[u8; 2]], full: &[u8; 5], out: &mut Vec<u32>)
    requires
        forall|i: int| 0 <= i < 5 ==> #[trigger] full[i] < 52,
        forall|i: int|
            0 <= i < hands.len() ==> (#[trigger] hands[i])[0] < 52 && hands[i][1] < 52,
    ensures
        tally::scores(final(out)@) == showdown(range::pairs(hands@), full@),
        final(out).len() == hands.len(),
{
    out.clear();
    for i in 0..hands.len()
        invariant
            out.len() == i,
            forall|i: int| 0 <= i < 5 ==> #[trigger] full[i] < 52,
            forall|i: int|
                0 <= i < hands.len() ==> (#[trigger] hands[i])[0] < 52 && hands[i][1] < 52,
            forall|j: int|
                0 <= j < i ==> #[trigger] out[j] == showdown(range::pairs(hands@), full@)[j],
    {
        let h: [u8; 2] = hands[i];
        let seven: [u8; 7] = [full[0], full[1], full[2], full[3], full[4], h[0], h[1]];
        assert(seven@ =~= full@ + seq![h[0], h[1]]);
        out.push(eval::eval(&seven));
    }
    assert(tally::scores(out@) =~= showdown(range::pairs(hands@), full@));
}

/// Every card of a holding in play is a card.
pub proof fn lemma_hands_are_cards(hands: Seq<(u8, u8)>, board: Seq<u8>, dead: Seq<u8>)
    requires
        are_distinct(known(hands, board, dead)),
    ensures
        forall|i: int| 0 <= i < hands.len() ==> (#[trigger] hands[i]).0 < 52 && hands[i].1 < 52,
        forall|i: int| 0 <= i < board.len() ==> #[trigger] board[i] < 52,
        known(hands, board, dead).len() == 2 * hands.len() + board.len() + dead.len(),
{
    let all = known(hands, board, dead);
    lemma_cards_of(hands);
    assert forall|i: int| 0 <= i < hands.len() implies (#[trigger] hands[i]).0 < 52 && hands[i].1
        < 52 by {
        assert(all[2 * i] == hands[i].0);
        assert(all[2 * i + 1] == hands[i].1);
    }
    assert forall|i: int| 0 <= i < board.len() implies #[trigger] board[i] < 52 by {
        assert(all[cards_of(hands).len() + i] == board[i]);
    }
}

/// Count the hands' showdowns over every way to finish the board from `avail`.
fn enumerate(
    hands: &[[u8; 2]],
    board: &[u8],
    full: &mut [u8; 5],
    avail: &Vec<u8>,
    eq: &mut Equity,
    Ghost(done): Ghost<Seq<Seq<int>>>,
)
    requires
        0 < hands.len() <= MAX_HANDS,
        board.len() <= 5,
        old(full)@.take(board.len() as int) == board@,
        avail.len() >= 5 - board.len(),
        forall|i: int|
            0 <= i < hands.len() ==> (#[trigger] hands[i])[0] < 52 && hands[i][1] < 52,
        forall|i: int| 0 <= i < board.len() ==> #[trigger] board[i] < 52,
        forall|i: int| 0 <= i < avail.len() ==> #[trigger] avail[i] < 52,
        old(eq)@ == tally::tally_of(done, hands.len() as nat),
        old(eq)@.equity.len() == hands.len(),
        old(eq)@.trials == done.len(),
        tally::is_count(old(eq)@),
        done.len() + all_showdowns(range::pairs(hands@), board@, avail@).len() <= u64::MAX,
    ensures
        final(full)@.take(board.len() as int) == board@,
        final(eq)@ == tally::tally_of(
            done + all_showdowns(range::pairs(hands@), board@, avail@),
            hands.len() as nat,
        ),
        final(eq)@.equity.len() == hands.len(),
        final(eq)@.trials == done.len() + all_showdowns(
            range::pairs(hands@),
            board@,
            avail@,
        ).len(),
        tally::is_count(final(eq)@),
{
    let base: usize = board.len();
    let k: usize = 5 - base;
    let n: usize = avail.len();
    let ghost h = range::pairs(hands@);
    let ghost list = combinations::combinations(n as int, k as int);
    let ghost rows = all_showdowns(h, board@, avail@);
    let mut strengths: Vec<u32> = Vec::new();
    let mut idx: Vec<usize> = Vec::new();
    for j in 0..k
        invariant
            idx.len() == j,
            forall|i: int| 0 <= i < j ==> #[trigger] idx[i] == i,
    {
        idx.push(j);
    }
    let ghost mut p: int = 0;
    proof {
        combinations::lemma_first_pick(0, n as int, k as int);
        assert(combinations::ints(idx@) =~= list[0]);
        assert(done + rows.take(0) =~= done);
    }
    loop
        invariant
            base == board.len(),
            base <= 5,
            k == 5 - base,
            n == avail.len(),
            n >= k,
            0 < hands.len() <= MAX_HANDS,
            h == range::pairs(hands@),
            full@.take(base as int) == board@,
            forall|i: int|
                0 <= i < hands.len() ==> (#[trigger] hands[i])[0] < 52 && hands[i][1] < 52,
            forall|i: int| 0 <= i < board.len() ==> #[trigger] board[i] < 52,
            forall|i: int| 0 <= i < avail.len() ==> #[trigger] avail[i] < 52,
            list == combinations::combinations(n as int, k as int),
            rows == all_showdowns(h, board@, avail@),
            done.len() + rows.len() <= u64::MAX,
            0 <= p < list.len(),
            combinations::ints(idx@) == list[p],
            eq@ == tally::tally_of(done + rows.take(p), hands.len() as nat),
            eq@.equity.len() == hands.len(),
            eq@.trials == done.len() + p,
            tally::is_count(eq@),
        decreases list.len() - p,
    {
        proof {
            combinations::lemma_picks_are_picks(0, n as int, k as int, p);
        }
        for j in 0..k
            invariant
                base == board.len(),
                k == 5 - base,
                n == avail.len(),
                idx.len() == k,
                combinations::is_pick(combinations::ints(idx@), 0, n as int),
                full@.take(base as int) == board@,
                forall|i: int| 0 <= i < j ==> #[trigger] full[base + i] == avail[idx[i] as int],
        {
            assert(combinations::ints(idx@)[j as int] == idx[j as int]);
            let ghost before = full@;
            full[base + j] = avail[idx[j]];
            assert(full@.take(base as int) =~= before.take(base as int));
        }
        proof {
            let b = board@ + picked(avail@, list[p]);
            assert forall|i: int| 0 <= i < 5 implies #[trigger] full[i] == b[i] by {
                if i < base {
                    assert(full@.take(base as int)[i] == board@[i]);
                } else {
                    assert(full[base + (i - base)] == avail[idx[i - base] as int]);
                    assert(list[p][i - base] == idx[i - base]);
                }
            }
            assert(full@ =~= b);
            assert forall|i: int| 0 <= i < 5 implies #[trigger] full[i] < 52 by {
                if i >= base {
                    assert(list[p][i - base] == idx[i - base]);
                }
            }
        }
        strengths_of(hands, full, &mut strengths);
        eq.record(&strengths);
        proof {
            assert(rows[p] == showdown(h, board@ + picked(avail@, list[p])));
            assert((done + rows.take(p + 1)).drop_last() =~= done + rows.take(p));
            assert((done + rows.take(p + 1)).last() == rows[p]);
            combinations::lemma_list_steps(0, n as int, k as int, p);
        }
        let ghost was = combinations::ints(idx@);
        if !next_combination(&mut idx, n) {
            proof {
                if p + 1 < list.len() {
                    combinations::lemma_next_is_unique(list[p], list[p + 1], list[p + 1], n as int);
                }
                assert(rows.take(p + 1) =~= rows);
            }
            return ;
        }
        proof {
            combinations::lemma_next_is_unique(
                was,
                combinations::ints(idx@),
                list[p + 1],
                n as int,
            );
            p = p + 1;
        }
    }
}

/// Exact equity for specific hands: every remaining board, weighted equally.
///
/// Cost is `C(remaining, 5 - board.len())`. Heads-up preflop that is
/// `C(48, 5)` = 1,712,304 boards; on the flop it is 990 and on the turn 44.
pub fn exact(hands: &[[u8; 2]], board: &[u8], dead: &[u8]) -> (eq: Equity)
    requires
        hands.len() >= 2,
        can_be_dealt(range::pairs(hands@), board@, dead@),
    ensures
        eq@ == tally::tally_of(
            exact_showdowns(range::pairs(hands@), board@, dead@),
            hands.len() as nat,
        ),
{
    let ghost h = range::pairs(hands@);
    let ghost all = known(h, board@, dead@);
    let (seen, mut full, _) = setup(hands, board, dead);
    let avail = unseen(&seen, Ghost(all));
    let mut eq = Equity::new(hands.len());
    proof {
        lemma_hands_are_cards(h, board@, dead@);
        law_unseen_cards(all);
        combinations::lemma_few_combinations(avail.len() as int, 5 - board.len());
        assert forall|i: int| 0 <= i < hands.len() implies (#[trigger] hands[i])[0] < 52
            && hands[i][1] < 52 by {
            assert(h[i] == range::pair(hands[i]));
        }
        assert(seq![] + exact_showdowns(h, board@, dead@) =~= exact_showdowns(h, board@, dead@));
    }
    let ghost none: Seq<Seq<int>> = seq![];
    enumerate(hands, board, &mut full, &avail, &mut eq, Ghost(none));
    eq
}

/// The cards with the first `k` places drawn: each gets a card drawn from those
/// in it and after it.
pub open spec fn drawn(cards: Seq<u8>, s: rng::State, k: int) -> (Seq<u8>, rng::State)
    decreases k,
{
    if k <= 0 {
        (cards, s)
    } else {
        let (c, t) = drawn(cards, s, k - 1);
        let (x, u) = rng::draw(t, (cards.len() - (k - 1)) as u64);
        (deck::swapped(c, k - 1, k - 1 + x), u)
    }
}

/// The cards after some trials, each of which draws the first `k` places anew.
pub open spec fn redrawn(cards: Seq<u8>, s: rng::State, k: int, trials: int) -> (
    Seq<u8>,
    rng::State,
)
    decreases trials,
{
    if trials <= 0 {
        (cards, s)
    } else {
        let (c, t) = redrawn(cards, s, k, trials - 1);
        drawn(c, t, k)
    }
}

/// The showdowns of the hands over the boards that the trials draw.
pub open spec fn sampled_showdowns(
    hands: Seq<(u8, u8)>,
    board: Seq<u8>,
    cards: Seq<u8>,
    s: rng::State,
    trials: int,
) -> Seq<Seq<int>> {
    let k = 5 - board.len();
    Seq::new(
        trials as nat,
        |t: int| showdown(hands, board + redrawn(cards, s, k, t + 1).0.take(k)),
    )
}

/// Drawing moves cards about: the same cards are there, each once.
pub proof fn lemma_drawn(cards: Seq<u8>, s: rng::State, k: int)
    requires
        are_distinct(cards),
        0 <= k <= cards.len(),
        cards.len() <= 52,
    ensures
        are_distinct(drawn(cards, s, k).0),
        drawn(cards, s, k).0.len() == cards.len(),
        drawn(cards, s, k).0.to_multiset() == cards.to_multiset(),
    decreases k,
{
    if k > 0 {
        lemma_drawn(cards, s, k - 1);
        let (c, t) = drawn(cards, s, k - 1);
        rng::lemma_draw_in_range(t, (cards.len() - (k - 1)) as u64);
        let (x, u) = rng::draw(t, (cards.len() - (k - 1)) as u64);
        lemma_swapped(c, k - 1, k - 1 + x);
    }
}

proof fn lemma_swapped(c: Seq<u8>, i: int, j: int)
    requires
        are_distinct(c),
        0 <= i < c.len(),
        0 <= j < c.len(),
    ensures
        are_distinct(deck::swapped(c, i, j)),
        deck::swapped(c, i, j).len() == c.len(),
        deck::swapped(c, i, j).to_multiset() == c.to_multiset(),
{
    broadcast use vstd::seq_lib::group_to_multiset_ensures;

    let d = deck::swapped(c, i, j);
    assert forall|a: int, b: int| 0 <= a < d.len() && 0 <= b < d.len() && a != b implies d[a]
        != d[b] by {
        let a0 = if a == i {
            j
        } else if a == j {
            i
        } else {
            a
        };
        let b0 = if b == i {
            j
        } else if b == j {
            i
        } else {
            b
        };
        assert(d[a] == c[a0]);
        assert(d[b] == c[b0]);
    }
    assert(d.to_multiset() =~= c.to_multiset());
}

/// Finish the board with cards drawn from `avail`. Partial Fisher-Yates: only
/// the cards actually needed get shuffled into place.
fn draw_board(avail: &mut Vec<u8>, rng: &mut Rng, full: &mut [u8; 5], base: usize)
    requires
        base <= 5,
        5 - base <= old(avail).len() <= 52,
        are_distinct(old(avail)@),
    ensures
        (final(avail)@, final(rng)@) == drawn(old(avail)@, old(rng)@, 5 - base),
        final(full)@ == old(full)@.take(base as int) + final(avail)@.take(5 - base),
        are_distinct(final(avail)@),
        final(avail).len() == old(avail).len(),
{
    let k: usize = 5 - base;
    let n: usize = avail.len();
    let ghost cards = avail@;
    for j in 0..k
        invariant
            base <= 5,
            k == 5 - base,
            k <= n <= 52,
            n == avail.len(),
            n == cards.len(),
            cards == old(avail)@,
            are_distinct(cards),
            (avail@, rng@) == drawn(cards, old(rng)@, j as int),
            full@.take(base as int) == old(full)@.take(base as int),
            forall|i: int| 0 <= i < j ==> #[trigger] full[base + i] == avail[i],
    {
        let pick: usize = j + rng.below((n - j) as u64) as usize;
        let ghost before = avail@;
        let ghost was = full@;
        let x: u8 = avail[j];
        avail[j] = avail[pick];
        avail[pick] = x;
        proof {
            assert(avail@ =~= deck::swapped(before, j as int, pick as int));
        }
        full[base + j] = avail[j];
        assert(full@.take(base as int) =~= was.take(base as int));
    }
    proof {
        lemma_drawn(cards, old(rng)@, k as int);
        let b = old(full)@.take(base as int) + avail@.take(k as int);
        assert forall|i: int| 0 <= i < 5 implies #[trigger] full[i] == b[i] by {
            if i < base {
                assert(full@.take(base as int)[i] == old(full)@.take(base as int)[i]);
            } else {
                assert(full[base + (i - base)] == avail[i - base]);
            }
        }
        assert(full@ =~= b);
    }
}

/// Sampled equity for specific hands. Deterministic given `seed`.
pub fn monte_carlo(
    hands: &[[u8; 2]],
    board: &[u8],
    dead: &[u8],
    trials: u64,
    seed: u64,
) -> (eq: Equity)
    requires
        hands.len() >= 2,
        can_be_dealt(range::pairs(hands@), board@, dead@),
    ensures
        eq@ == tally::tally_of(
            sampled_showdowns(
                range::pairs(hands@),
                board@,
                unseen_cards(known(range::pairs(hands@), board@, dead@)),
                rng::seeded(seed),
                trials as int,
            ),
            hands.len() as nat,
        ),
        eq@.trials == trials,
{
    let ghost h = range::pairs(hands@);
    let ghost all = known(h, board@, dead@);
    let (seen, mut full, k) = setup(hands, board, dead);
    let mut avail = unseen(&seen, Ghost(all));
    let base: usize = board.len();
    let mut rng = Rng::new(seed);
    let mut eq = Equity::new(hands.len());
    let mut strengths: Vec<u32> = Vec::new();
    let ghost cards = avail@;
    let ghost s = rng@;
    let ghost rows = sampled_showdowns(h, board@, cards, s, trials as int);
    proof {
        lemma_hands_are_cards(h, board@, dead@);
        law_unseen_cards(all);
        assert forall|i: int| 0 <= i < hands.len() implies (#[trigger] hands[i])[0] < 52
            && hands[i][1] < 52 by {
            assert(h[i] == range::pair(hands[i]));
        }
        assert(rows.take(0) =~= seq![]);
    }
    for t in 0..trials
        invariant
            0 < hands.len() <= MAX_HANDS,
            h == range::pairs(hands@),
            base == board.len(),
            base <= 5,
            k == 5 - base,
            k <= avail.len() <= 52,
            are_distinct(avail@),
            full@.take(base as int) == board@,
            forall|i: int|
                0 <= i < hands.len() ==> (#[trigger] hands[i])[0] < 52 && hands[i][1] < 52,
            forall|i: int| 0 <= i < board.len() ==> #[trigger] board[i] < 52,
            (avail@, rng@) == redrawn(cards, s, k as int, t as int),
            rows == sampled_showdowns(h, board@, cards, s, trials as int),
            eq@ == tally::tally_of(rows.take(t as int), hands.len() as nat),
            eq@.equity.len() == hands.len(),
            eq@.trials == t,
            tally::is_count(eq@),
    {
        // `avail` stays permuted between trials, which costs nothing: any
        // prefix of a uniform permutation is a uniform sample.
        draw_board(&mut avail, &mut rng, &mut full, base);
        proof {
            assert(full@ =~= board@ + avail@.take(k as int));
            assert(full@.take(base as int) =~= board@);
            assert forall|i: int| 0 <= i < 5 implies #[trigger] full[i] < 52 by {
                if i >= base {
                    assert(full[i] == avail[i - base]);
                }
            }
        }
        strengths_of(hands, &full, &mut strengths);
        eq.record(&strengths);
        proof {
            assert(rows.take(t + 1).drop_last() =~= rows.take(t as int));
            assert(rows.take(t + 1).last() == rows[t as int]);
        }
    }
    assert(rows.take(trials as int) =~= rows);
    eq
}

/// Give up on a trial after this many conflicting draws. Only reachable when
/// the ranges genuinely cannot be dealt together, e.g. both sides holding
/// exactly `AsAh`: where they can, the draws go on.
pub const MAX_DRAW_ATTEMPTS: u32 = 10_000;

/// The holdings of some ranges.
pub open spec fn lists(ranges: Seq<Range>) -> Seq<Seq<(u8, u8)>> {
    ranges.map_values(|r: Range| r@)
}

/// The ranges without the holdings that use a known card.
pub open spec fn trimmed(
    ranges: Seq<Seq<(u8, u8)>>,
    board: Seq<u8>,
    dead: Seq<u8>,
) -> Seq<Seq<(u8, u8)>> {
    ranges.map_values(|r: Seq<(u8, u8)>| range::kept(r, board + dead))
}

/// There are at least two ranges, the board and the dead cards can be on the
/// table together, and every range has a holding that goes with them.
pub open spec fn can_be_prepared(
    ranges: Seq<Seq<(u8, u8)>>,
    board: Seq<u8>,
    dead: Seq<u8>,
) -> bool {
    &&& ranges.len() >= 2
    &&& board.len() <= 5
    &&& are_distinct(board + dead)
    &&& forall|i: int|
        0 <= i < ranges.len() ==> (#[trigger] trimmed(ranges, board, dead)[i]).len() > 0
}

/// The holding uses a card that is known.
pub open spec fn clashes(known: Seq<u8>, c: (u8, u8)) -> bool {
    known.contains(c.0) || known.contains(c.1)
}

/// A draw of one holding for each of the first `n` ranges: none if one clashes
/// with those before it.
pub open spec fn attempt(
    ranges: Seq<Seq<(u8, u8)>>,
    board: Seq<u8>,
    dead: Seq<u8>,
    s: rng::State,
    n: int,
) -> (Option<Seq<(u8, u8)>>, rng::State)
    decreases n,
{
    if n <= 0 {
        (Some(seq![]), s)
    } else {
        let (before, t) = attempt(ranges, board, dead, s, n - 1);
        match before {
            None => (None, t),
            Some(h) => {
                let r = ranges[n - 1];
                let (x, u) = rng::draw(t, r.len() as u64);
                if clashes(known(h, board, dead), r[x as int]) {
                    (None, u)
                } else {
                    (Some(h.push(r[x as int])), u)
                }
            },
        }
    }
}

/// A holding from each range, all different cards and none of them known.
pub open spec fn is_joint(
    ranges: Seq<Seq<(u8, u8)>>,
    board: Seq<u8>,
    dead: Seq<u8>,
    h: Seq<(u8, u8)>,
) -> bool {
    &&& h.len() == ranges.len()
    &&& forall|i: int| 0 <= i < h.len() ==> ranges[i].contains(#[trigger] h[i])
    &&& are_distinct(known(h, board, dead))
}

/// The ranges can be dealt together.
pub open spec fn go_together(
    ranges: Seq<Seq<(u8, u8)>>,
    board: Seq<u8>,
    dead: Seq<u8>,
) -> bool {
    exists|h: Seq<(u8, u8)>| #[trigger] is_joint(ranges, board, dead, h)
}

/// Enough cards are left to finish the board once each of `n` ranges has a
/// holding.
pub open spec fn leaves_a_board(n: int, dead: Seq<u8>) -> bool {
    2 * n + dead.len() + 5 <= 52
}

/// The first way, in the order of the ranges, to deal the ranges that are left
/// beside the holdings `h`, the next of them from place `j` on.
pub open spec fn first_joint(
    ranges: Seq<Seq<(u8, u8)>>,
    board: Seq<u8>,
    dead: Seq<u8>,
    h: Seq<(u8, u8)>,
    j: int,
) -> Option<Seq<(u8, u8)>>
    decreases ranges.len() - h.len(), ranges[h.len() as int].len() - j,
{
    if h.len() >= ranges.len() {
        Some(h)
    } else if j >= ranges[h.len() as int].len() {
        None
    } else if clashes(known(h, board, dead), ranges[h.len() as int][j]) {
        first_joint(ranges, board, dead, h, j + 1)
    } else {
        match first_joint(ranges, board, dead, h.push(ranges[h.len() as int][j]), 0) {
            Some(x) => Some(x),
            None => first_joint(ranges, board, dead, h, j + 1),
        }
    }
}

/// How many draws a trial may take.
pub open spec fn all_draws() -> int {
    u64::MAX as int
}

/// Attempts until one succeeds: on a clash the whole draw restarts. Should none of
/// so many succeed, the first joint holding stands in.
pub open spec fn deal(
    ranges: Seq<Seq<(u8, u8)>>,
    board: Seq<u8>,
    dead: Seq<u8>,
    s: rng::State,
    attempts: int,
) -> (Seq<(u8, u8)>, rng::State)
    decreases attempts,
{
    if attempts <= 0 {
        (first_joint(ranges, board, dead, seq![], 0)->0, s)
    } else {
        let (h, t) = attempt(ranges, board, dead, s, ranges.len() as int);
        match h {
            Some(x) => (x, t),
            None => deal(ranges, board, dead, t, attempts - 1),
        }
    }
}

/// One trial: deal a holding to each range, then run the board out.
#[verifier::opaque]
pub open spec fn trial(
    ranges: Seq<Seq<(u8, u8)>>,
    board: Seq<u8>,
    dead: Seq<u8>,
    s: rng::State,
) -> (Seq<int>, rng::State) {
    let k = 5 - board.len();
    let (h, t) = deal(ranges, board, dead, s, all_draws());
    let (c, u) = drawn(unseen_cards(known(h, board, dead)), t, k);
    (showdown(h, board + c.take(k)), u)
}

/// The showdowns of a number of trials, one after the other.
pub open spec fn played(
    ranges: Seq<Seq<(u8, u8)>>,
    board: Seq<u8>,
    dead: Seq<u8>,
    s: rng::State,
    trials: int,
) -> (Seq<Seq<int>>, rng::State)
    decreases trials,
{
    if trials <= 0 {
        (seq![], s)
    } else {
        let (rows, t) = played(ranges, board, dead, s, trials - 1);
        let (row, u) = trial(ranges, board, dead, t);
        (rows.push(row), u)
    }
}

/// The trials can be played: there are none, or the ranges can be dealt together
/// and leave a board.
pub open spec fn can_be_played(
    ranges: Seq<Seq<(u8, u8)>>,
    board: Seq<u8>,
    dead: Seq<u8>,
    trials: int,
) -> bool {
    trials == 0 || (go_together(ranges, board, dead) && leaves_a_board(
        ranges.len() as int,
        dead,
    ))
}

/// The ranges without known cards, and which cards those are.
fn prepare_ranges(ranges: &[Range], board: &[u8], dead: &[u8]) -> (ready: ([bool; 52], Vec<Range>))
    requires
        are_distinct(board@ + dead@),
    ensures
        marks(ready.0@, board@ + dead@),
        lists(ready.1@) == trimmed(lists(ranges@), board@, dead@),
        forall|i: int| 0 <= i < ready.1.len() ==> range::canonical((#[trigger] ready.1[i])@),
        forall|i: int, p: (u8, u8)|
            0 <= i < ready.1.len() && #[trigger] ready.1[i]@.contains(p) ==> !clashes(
                board@ + dead@,
                p,
            ),
{
    let mut seen: [bool; 52] = [false; 52];
    let ghost none: Seq<u8> = seq![];
    proof {
        assert(none + board@ =~= board@);
        lemma_distinct_prefix(board@, board@ + dead@);
    }
    block(&mut seen, board, Ghost(none));
    block(&mut seen, dead, Ghost(board@));

    // Removing known cards up front is not only an optimisation: it is what
    // keeps the draws below from clashing on combos that could never have been
    // dealt.
    let mut blocked: Vec<u8> = Vec::new();
    blocked.extend_from_slice(board);
    blocked.extend_from_slice(dead);
    assert(blocked@ =~= board@ + dead@);
    let mut out: Vec<Range> = Vec::new();
    for i in 0..ranges.len()
        invariant
            blocked@ == board@ + dead@,
            out.len() == i,
            forall|j: int|
                0 <= j < i ==> (#[trigger] out[j])@ == range::kept(ranges[j]@, board@ + dead@),
            forall|j: int| 0 <= j < i ==> range::canonical((#[trigger] out[j])@),
            forall|j: int, p: (u8, u8)|
                0 <= j < i && #[trigger] out[j]@.contains(p) ==> !clashes(board@ + dead@, p),
    {
        out.push(ranges[i].without(&blocked));
    }
    assert(lists(out@) =~= trimmed(lists(ranges@), board@, dead@));
    (seen, out)
}

/// One more holding among the known cards.
pub proof fn lemma_known_push(hands: Seq<(u8, u8)>, board: Seq<u8>, dead: Seq<u8>, c: (u8, u8))
    ensures
        forall|d: u8| #[trigger]
            known(hands.push(c), board, dead).contains(d) <==> known(hands, board, dead).contains(d)
                || d == c.0 || d == c.1,
        are_distinct(known(hands, board, dead)) && range::is_holding(c) && !clashes(
            known(hands, board, dead),
            c,
        ) ==> are_distinct(known(hands.push(c), board, dead)),
{
    let before = cards_of(hands);
    let old_known = known(hands, board, dead);
    let new_known = known(hands.push(c), board, dead);
    assert(hands.push(c).drop_last() =~= hands);
    let now = cards_of(hands.push(c));
    assert(now == before.push(c.0).push(c.1));
    assert forall|d: u8| #[trigger] new_known.contains(d) <==> old_known.contains(d) || d == c.0 || d
        == c.1 by {
        range::lemma_append_contains(now + board, dead, d);
        range::lemma_append_contains(now, board, d);
        range::lemma_append_contains(before + board, dead, d);
        range::lemma_append_contains(before, board, d);
        range::lemma_push_contains(before, c.0, d);
        range::lemma_push_contains(before.push(c.0), c.1, d);
    }
    if are_distinct(old_known) && range::is_holding(c) && !clashes(old_known, c) {
        let n = before.len() as int;
        assert forall|i: int| 0 <= i < new_known.len() implies #[trigger] new_known[i] < 52 by {
            if i < n {
                assert(new_known[i] == old_known[i]);
            } else if i >= n + 2 {
                assert(new_known[i] == old_known[i - 2]);
            }
        }
        assert forall|i: int, j: int| 0 <= i < j < new_known.len() implies new_known[i]
            != new_known[j] by {
            let i0 = if i < n {
                i
            } else {
                i - 2
            };
            let j0 = if j < n {
                j
            } else {
                j - 2
            };
            if i < n || i >= n + 2 {
                assert(new_known[i] == old_known[i0]);
                assert(old_known.contains(old_known[i0]));
            }
            if j < n || j >= n + 2 {
                assert(new_known[j] == old_known[j0]);
                assert(old_known.contains(old_known[j0]));
            }
        }
    }
}

/// Draw one holding for each range. Returns false if two want the same card.
fn try_deal(
    ranges: &Vec<Range>,
    seen: &[bool; 52],
    rng: &mut Rng,
    hands: &mut Vec<[u8; 2]>,
    Ghost(board): Ghost<Seq<u8>>,
    Ghost(dead): Ghost<Seq<u8>>,
) -> (used: Option<[bool; 52]>)
    requires
        marks(seen@, board + dead),
        are_distinct(board + dead),
        forall|i: int| 0 <= i < ranges.len() ==> (#[trigger] ranges[i])@.len() > 0,
    ensures
        used matches Some(u) ==> attempt(
            lists(ranges@),
            board,
            dead,
            old(rng)@,
            ranges.len() as int,
        ) == (Some(range::pairs(final(hands)@)), final(rng)@) && marks(
            u@,
            known(range::pairs(final(hands)@), board, dead),
        ) && are_distinct(known(range::pairs(final(hands)@), board, dead)) && final(hands).len()
            == ranges.len(),
        used is Some ==> forall|i: int|
            0 <= i < ranges.len() ==> lists(ranges@)[i].contains(
                #[trigger] range::pairs(final(hands)@)[i],
            ),
        used is None ==> attempt(
            lists(ranges@),
            board,
            dead,
            old(rng)@,
            ranges.len() as int,
        ) == (None::<Seq<(u8, u8)>>, final(rng)@),
{
    let mut used: [bool; 52] = *seen;
    hands.clear();
    let ghost all = lists(ranges@);
    proof {
        assert(range::pairs(hands@) =~= seq![]);
        assert(known(seq![], board, dead) =~= board + dead);
    }
    for i in 0..ranges.len()
        invariant
            all == lists(ranges@),
            forall|i: int| 0 <= i < ranges.len() ==> (#[trigger] ranges[i])@.len() > 0,
            hands.len() == i,
            attempt(all, board, dead, old(rng)@, i as int) == (
                Some(range::pairs(hands@)),
                rng@,
            ),
            marks(used@, known(range::pairs(hands@), board, dead)),
            are_distinct(known(range::pairs(hands@), board, dead)),
            forall|m: int| 0 <= m < i ==> all[m].contains(#[trigger] range::pairs(hands@)[m]),
    {
        let combos = ranges[i].combos();
        let ghost h = range::pairs(hands@);
        assert(all[i as int] == ranges[i as int]@);
        let x: usize = rng.below(combos.len() as u64) as usize;
        let c: [u8; 2] = combos[x];
        proof {
            assert(range::pairs(combos@)[x as int] == range::pair(c));
            assert(range::is_holding(range::pair(c)));
        }
        if used[c[0] as usize] || used[c[1] as usize] {
            proof {
                lemma_failed_attempt(
                    all,
                    board,
                    dead,
                    old(rng)@,
                    i + 1,
                    ranges.len() as int,
                );
            }
            return None;
        }
        used[c[0] as usize] = true;
        used[c[1] as usize] = true;
        hands.push(c);
        proof {
            assert(range::pairs(hands@) =~= h.push(range::pair(c)));
            lemma_known_push(h, board, dead, range::pair(c));
            assert(all[i as int].contains(range::pair(c)));
        }
    }
    Some(used)
}

/// A draw that has clashed stays failed.
proof fn lemma_failed_attempt(
    ranges: Seq<Seq<(u8, u8)>>,
    board: Seq<u8>,
    dead: Seq<u8>,
    s: rng::State,
    n: int,
    m: int,
)
    requires
        0 <= n <= m,
        attempt(ranges, board, dead, s, n).0 is None,
    ensures
        attempt(ranges, board, dead, s, m) == attempt(ranges, board, dead, s, n),
    decreases m - n,
{
    if n < m {
        lemma_failed_attempt(ranges, board, dead, s, n, m - 1);
    }
}

/// A search that succeeds has found a joint holding that starts with `h`.
proof fn lemma_found_joint(
    ranges: Seq<Seq<(u8, u8)>>,
    board: Seq<u8>,
    dead: Seq<u8>,
    h: Seq<(u8, u8)>,
    j: int,
)
    requires
        forall|i: int| 0 <= i < ranges.len() ==> range::canonical(#[trigger] ranges[i]),
        h.len() <= ranges.len(),
        0 <= j,
        forall|i: int| 0 <= i < h.len() ==> ranges[i].contains(#[trigger] h[i]),
        are_distinct(known(h, board, dead)),
        first_joint(ranges, board, dead, h, j) is Some,
    ensures
        is_joint(ranges, board, dead, first_joint(ranges, board, dead, h, j)->0),
    decreases ranges.len() - h.len(), ranges[h.len() as int].len() - j,
{
    if h.len() < ranges.len() {
        let r = ranges[h.len() as int];
        assert(range::canonical(r));
        if clashes(known(h, board, dead), r[j]) {
            lemma_found_joint(ranges, board, dead, h, j + 1);
        } else {
            let more = h.push(r[j]);
            assert(range::is_holding(r[j]));
            assert(r.contains(r[j]));
            lemma_known_push(h, board, dead, r[j]);
            if first_joint(ranges, board, dead, more, 0) is Some {
                lemma_found_joint(ranges, board, dead, more, 0);
            } else {
                lemma_found_joint(ranges, board, dead, h, j + 1);
            }
        }
    }
}

/// A search that fails has missed nothing.
proof fn lemma_missed_nothing(
    ranges: Seq<Seq<(u8, u8)>>,
    board: Seq<u8>,
    dead: Seq<u8>,
    h: Seq<(u8, u8)>,
    j: int,
    x: Seq<(u8, u8)>,
)
    requires
        is_joint(ranges, board, dead, x),
        h.len() <= ranges.len(),
        h == x.take(h.len() as int),
        0 <= j,
        h.len() < ranges.len() ==> exists|m: int|
            j <= m < ranges[h.len() as int].len() && #[trigger] ranges[h.len() as int][m]
                == x[h.len() as int],
    ensures
        first_joint(ranges, board, dead, h, j) is Some,
    decreases ranges.len() - h.len(), ranges[h.len() as int].len() - j,
{
    let n = h.len() as int;
    if n < ranges.len() {
        let r = ranges[n];
        let m = choose|m: int| j <= m < r.len() && #[trigger] r[m] == x[n];
        if m == j {
            let more = h.push(r[j]);
            assert(more =~= x.take(n + 1));
            lemma_part_of_joint(x, board, dead, n + 1);
            lemma_known_pop(h, board, dead, r[j]);
            if n + 1 < ranges.len() {
                assert(ranges[n + 1].contains(x[n + 1]));
            }
            lemma_missed_nothing(ranges, board, dead, more, 0, x);
        } else {
            lemma_missed_nothing(ranges, board, dead, h, j + 1, x);
        }
    }
}

/// Fewer of the holdings can be dealt too.
proof fn lemma_part_of_joint(x: Seq<(u8, u8)>, board: Seq<u8>, dead: Seq<u8>, n: int)
    requires
        0 <= n <= x.len(),
        are_distinct(known(x, board, dead)),
    ensures
        are_distinct(known(x.take(n), board, dead)),
    decreases x.len() - n,
{
    if n == x.len() {
        assert(x.take(n) =~= x);
    } else {
        lemma_part_of_joint(x, board, dead, n + 1);
        assert(x.take(n + 1) =~= x.take(n).push(x[n]));
        lemma_known_pop(x.take(n), board, dead, x[n]);
    }
}

/// Where one more holding can be dealt, the others could, and it does not clash
/// with them.
pub proof fn lemma_known_pop(hands: Seq<(u8, u8)>, board: Seq<u8>, dead: Seq<u8>, c: (u8, u8))
    requires
        are_distinct(known(hands.push(c), board, dead)),
    ensures
        are_distinct(known(hands, board, dead)),
        !clashes(known(hands, board, dead), c),
{
    let before = cards_of(hands);
    let less = known(hands, board, dead);
    let more = known(hands.push(c), board, dead);
    assert(hands.push(c).drop_last() =~= hands);
    assert(cards_of(hands.push(c)) == before.push(c.0).push(c.1));
    let n = before.len() as int;
    assert forall|i: int| 0 <= i < less.len() implies #[trigger] less[i] < 52 && less[i] != c.0
        && less[i] != c.1 by {
        let i0 = if i < n {
            i
        } else {
            i + 2
        };
        assert(less[i] == more[i0]);
        assert(more[n] == c.0 && more[n + 1] == c.1);
    }
    assert forall|i: int, j: int| 0 <= i < j < less.len() implies less[i] != less[j] by {
        let i0 = if i < n {
            i
        } else {
            i + 2
        };
        let j0 = if j < n {
            j
        } else {
            j + 2
        };
        assert(less[i] == more[i0] && less[j] == more[j0]);
    }
    if less.contains(c.0) {
        let i = less.index_of(c.0);
        assert(less[i] == c.0);
    }
    if less.contains(c.1) {
        let i = less.index_of(c.1);
        assert(less[i] == c.1);
    }
}

/// The search from the start says whether the ranges can be dealt together.
pub proof fn lemma_search_decides(ranges: Seq<Seq<(u8, u8)>>, board: Seq<u8>, dead: Seq<u8>)
    requires
        forall|i: int| 0 <= i < ranges.len() ==> range::canonical(#[trigger] ranges[i]),
        are_distinct(board + dead),
    ensures
        go_together(ranges, board, dead) <==> first_joint(ranges, board, dead, seq![], 0) is Some,
        first_joint(ranges, board, dead, seq![], 0) matches Some(h) ==> is_joint(
            ranges,
            board,
            dead,
            h,
        ),
{
    let none: Seq<(u8, u8)> = seq![];
    assert(known(none, board, dead) =~= board + dead);
    if first_joint(ranges, board, dead, none, 0) is Some {
        lemma_found_joint(ranges, board, dead, none, 0);
    }
    if go_together(ranges, board, dead) {
        let x = choose|x: Seq<(u8, u8)>| #[trigger] is_joint(ranges, board, dead, x);
        assert(none =~= x.take(0));
        if ranges.len() > 0 {
            assert(ranges[0].contains(x[0]));
        }
        lemma_missed_nothing(ranges, board, dead, none, 0, x);
    }
}

/// Look for a way to deal the ranges that are left beside `hands`, and say which
/// cards are known then.
fn search(
    ranges: &Vec<Range>,
    used: &[bool; 52],
    hands: &mut Vec<[u8; 2]>,
    Ghost(board): Ghost<Seq<u8>>,
    Ghost(dead): Ghost<Seq<u8>>,
) -> (found: Option<[bool; 52]>)
    requires
        old(hands).len() <= ranges.len(),
        marks(used@, known(range::pairs(old(hands)@), board, dead)),
    ensures
        found matches Some(u) ==> first_joint(
            lists(ranges@),
            board,
            dead,
            range::pairs(old(hands)@),
            0,
        ) == Some(range::pairs(final(hands)@)) && marks(
            u@,
            known(range::pairs(final(hands)@), board, dead),
        ) && final(hands).len() == ranges.len(),
        found is None ==> first_joint(
            lists(ranges@),
            board,
            dead,
            range::pairs(old(hands)@),
            0,
        ) is None && final(hands)@ == old(hands)@,
    decreases ranges.len() - old(hands).len(),
{
    let n: usize = hands.len();
    let ghost all = lists(ranges@);
    let ghost h = range::pairs(hands@);
    if n == ranges.len() {
        return Some(*used);
    }
    let combos = ranges[n].combos();
    assert(all[n as int] == ranges[n as int]@);
    for j in 0..combos.len()
        invariant
            all == lists(ranges@),
            n < ranges.len(),
            all[n as int] == range::pairs(combos@),
            range::canonical(all[n as int]),
            hands@ == old(hands)@,
            h == range::pairs(hands@),
            h.len() == n,
            n == hands.len(),
            marks(used@, known(h, board, dead)),
            first_joint(all, board, dead, h, 0) == first_joint(all, board, dead, h, j as int),
    {
        let c: [u8; 2] = combos[j];
        proof {
            assert(all[n as int][j as int] == range::pair(c));
            assert(range::is_holding(range::pair(c)));
        }
        if !used[c[0] as usize] && !used[c[1] as usize] {
            let mut more: [bool; 52] = *used;
            more[c[0] as usize] = true;
            more[c[1] as usize] = true;
            hands.push(c);
            proof {
                assert(range::pairs(hands@) =~= h.push(range::pair(c)));
                lemma_known_push(h, board, dead, range::pair(c));
            }
            let found = search(ranges, &more, hands, Ghost(board), Ghost(dead));
            if found.is_some() {
                return found;
            }
            let _ = hands.pop();
            assert(hands@ =~= old(hands)@);
        }
    }
    None
}

/// Draw holdings until none clash, and say which cards are known then. None if
/// the ranges cannot be dealt together.
fn deal_hands(
    ranges: &Vec<Range>,
    seen: &[bool; 52],
    rng: &mut Rng,
    hands: &mut Vec<[u8; 2]>,
    Ghost(board): Ghost<Seq<u8>>,
    Ghost(dead): Ghost<Seq<u8>>,
) -> (used: Option<[bool; 52]>)
    requires
        marks(seen@, board + dead),
        are_distinct(board + dead),
        forall|i: int| 0 <= i < ranges.len() ==> (#[trigger] ranges[i])@.len() > 0,
        forall|i: int| 0 <= i < ranges.len() ==> range::canonical((#[trigger] ranges[i])@),
    ensures
        used matches Some(u) ==> deal(lists(ranges@), board, dead, old(rng)@, all_draws()) == (
            range::pairs(final(hands)@),
            final(rng)@,
        ) && marks(u@, known(range::pairs(final(hands)@), board, dead)) && are_distinct(
            known(range::pairs(final(hands)@), board, dead),
        ) && final(hands).len() == ranges.len(),
        used is Some ==> go_together(lists(ranges@), board, dead),
        used is None ==> !go_together(lists(ranges@), board, dead),
{
    let ghost all = lists(ranges@);
    let ghost none: Seq<(u8, u8)> = seq![];
    proof {
        assert forall|i: int| 0 <= i < all.len() implies range::canonical(#[trigger] all[i]) by {
            assert(all[i] == ranges[i]@);
        }
        lemma_search_decides(all, board, dead);
        assert(known(none, board, dead) =~= board + dead);
    }
    let mut left: u64 = u64::MAX;
    while left > 0
        invariant
            marks(seen@, board + dead),
            marks(seen@, known(none, board, dead)),
            none == Seq::<(u8, u8)>::empty(),
            are_distinct(board + dead),
            forall|i: int| 0 <= i < ranges.len() ==> (#[trigger] ranges[i])@.len() > 0,
            forall|i: int| 0 <= i < ranges.len() ==> range::canonical((#[trigger] ranges[i])@),
            all == lists(ranges@),
            go_together(all, board, dead) <==> first_joint(all, board, dead, none, 0) is Some,
            deal(all, board, dead, rng@, left as int) == deal(
                all,
                board,
                dead,
                old(rng)@,
                all_draws(),
            ),
        decreases left,
    {
        let used = try_deal(ranges, seen, rng, hands, Ghost(board), Ghost(dead));
        if used.is_some() {
            proof {
                lemma_attempt_is_joint(ranges@, board, dead, range::pairs(hands@));
            }
            return used;
        }
        left -= 1;
        if left == u64::MAX - MAX_DRAW_ATTEMPTS as u64 {
            // So many collisions: see whether there is anything to draw.
            hands.clear();
            assert(range::pairs(hands@) =~= none);
            if search(ranges, seen, hands, Ghost(board), Ghost(dead)).is_none() {
                return None;
            }
        }
    }
    hands.clear();
    assert(range::pairs(hands@) =~= none);
    let found = search(ranges, seen, hands, Ghost(board), Ghost(dead));
    proof {
        if found is Some {
            lemma_search_decides(all, board, dead);
        }
    }
    found
}

/// What an attempt has drawn can be dealt.
proof fn lemma_attempt_is_joint(
    ranges: Seq<Range>,
    board: Seq<u8>,
    dead: Seq<u8>,
    h: Seq<(u8, u8)>,
)
    requires
        h.len() == ranges.len(),
        are_distinct(known(h, board, dead)),
        forall|i: int| 0 <= i < h.len() ==> lists(ranges)[i].contains(#[trigger] h[i]),
    ensures
        go_together(lists(ranges), board, dead),
{
    assert(is_joint(lists(ranges), board, dead, h));
}

/// Deal a holding to each range, run the board out, and see what each makes.
/// Returns false if the ranges cannot be dealt together.
fn play_trial(
    ranges: &Vec<Range>,
    seen: &[bool; 52],
    board: &[u8],
    full: &mut [u8; 5],
    rng: &mut Rng,
    hands: &mut Vec<[u8; 2]>,
    strengths: &mut Vec<u32>,
    Ghost(dead): Ghost<Seq<u8>>,
) -> (done: bool)
    requires
        board.len() <= 5,
        old(full)@.take(board.len() as int) == board@,
        marks(seen@, board@ + dead),
        are_distinct(board@ + dead),
        leaves_a_board(ranges.len() as int, dead),
        forall|i: int| 0 <= i < ranges.len() ==> (#[trigger] ranges[i])@.len() > 0,
        forall|i: int| 0 <= i < ranges.len() ==> range::canonical((#[trigger] ranges[i])@),
    ensures
        done == go_together(lists(ranges@), board@, dead),
        done ==> trial(lists(ranges@), board@, dead, old(rng)@) == (
            tally::scores(final(strengths)@),
            final(rng)@,
        ) && final(strengths).len() == ranges.len(),
        done ==> final(full)@.take(board.len() as int) == board@,
{
    reveal(trial);
    let base: usize = board.len();
    let k: usize = 5 - base;
    let used = match deal_hands(ranges, seen, rng, hands, Ghost(board@), Ghost(dead)) {
        Some(used) => used,
        None => return false,
    };
    let ghost h = range::pairs(hands@);
    let ghost cards = known(h, board@, dead);
    let mut avail = unseen(&used, Ghost(cards));
    proof {
        law_unseen_cards(cards);
        lemma_hands_are_cards(h, board@, dead);
    }
    draw_board(&mut avail, rng, full, base);
    proof {
        assert(full@ =~= board@ + avail@.take(k as int));
        assert(full@.take(base as int) =~= board@);
        assert forall|i: int| 0 <= i < 5 implies #[trigger] full[i] < 52 by {
            if i >= base {
                assert(full[i] == avail[i - base]);
            } else {
                assert(full[i] == board[i]);
            }
        }
        assert forall|i: int| 0 <= i < hands.len() implies (#[trigger] hands[i])[0] < 52
            && hands[i][1] < 52 by {
            assert(h[i] == range::pair(hands[i]));
        }
    }
    strengths_of(hands.as_slice(), full, strengths);
    true
}

/// Sampled equity for ranges, or none if the ranges cannot be dealt together, or
/// leave too few cards for the board.
///
/// See `range_vs_range` for how a trial is dealt.
pub fn try_range_vs_range(
    ranges: &[Range],
    board: &[u8],
    dead: &[u8],
    trials: u64,
    seed: u64,
) -> (eq: Option<Equity>)
    requires
        can_be_prepared(lists(ranges@), board@, dead@),
    ensures
        eq is Some <==> can_be_played(
            trimmed(lists(ranges@), board@, dead@),
            board@,
            dead@,
            trials as int,
        ),
        eq matches Some(e) ==> e@ == tally::tally_of(
            played(
                trimmed(lists(ranges@), board@, dead@),
                board@,
                dead@,
                rng::seeded(seed),
                trials as int,
            ).0,
            ranges.len() as nat,
        ),
        eq matches Some(e) ==> e@.trials == trials,
{
    let (seen, kept) = prepare_ranges(ranges, board, dead);
    let ghost all = trimmed(lists(ranges@), board@, dead@);
    let n: usize = ranges.len();
    let base: usize = board.len();
    assert(lists(kept@).len() == n);
    let mut eq = Equity::new(n);
    if trials == 0 {
        return Some(eq);
    }
    if n > MAX_HANDS || dead.len() > 47 - 2 * n {
        return None;
    }
    let mut full: [u8; 5] = [NO_CARD; 5];
    for i in 0..base
        invariant
            base == board.len(),
            base <= 5,
            forall|j: int| 0 <= j < i ==> #[trigger] full[j] == board[j],
    {
        full[i] = board[i];
    }
    let mut rng = Rng::new(seed);
    let mut strengths: Vec<u32> = Vec::new();
    let mut hands: Vec<[u8; 2]> = Vec::new();
    let ghost s = rng@;
    proof {
        assert(full@.take(base as int) =~= board@);
        assert forall|i: int| 0 <= i < kept.len() implies (#[trigger] kept[i])@.len() > 0 by {
            assert(lists(kept@)[i] == kept[i]@);
            assert(all[i].len() > 0);
        }
    }
    for t in 0..trials
        invariant
            2 <= n <= MAX_HANDS,
            n == kept.len(),
            n == ranges.len(),
            all == lists(kept@),
            all == trimmed(lists(ranges@), board@, dead@),
            marks(seen@, board@ + dead@),
            are_distinct(board@ + dead@),
            leaves_a_board(n as int, dead@),
            forall|i: int| 0 <= i < kept.len() ==> (#[trigger] kept[i])@.len() > 0,
            forall|i: int| 0 <= i < kept.len() ==> range::canonical((#[trigger] kept[i])@),
            base == board.len(),
            base <= 5,
            full@.take(base as int) == board@,
            t > 0 ==> go_together(all, board@, dead@),
            rng@ == played(all, board@, dead@, s, t as int).1,
            eq@ == tally::tally_of(played(all, board@, dead@, s, t as int).0, n as nat),
            eq@.equity.len() == n,
            eq@.trials == t,
            tally::is_count(eq@),
            s == rng::seeded(seed),
    {
        let ghost rows = played(all, board@, dead@, s, t as int).0;
        if !play_trial(
            &kept,
            &seen,
            board,
            &mut full,
            &mut rng,
            &mut hands,
            &mut strengths,
            Ghost(dead@),
        ) {
            return None;
        }
        eq.record(&strengths);
        proof {
            assert(rows.push(tally::scores(strengths@)).drop_last() =~= rows);
        }
    }
    Some(eq)
}

/// Sampled equity for ranges rather than specific hands.
///
/// Each trial draws one combo per range and then runs the board out. When two
/// players want the same card the **whole draw restarts**, and that detail is
/// the entire correctness argument.
///
/// Keeping the combos already drawn and resampling only the player that clashed
/// would bias the answer. It would let a holding that blocks most of the next
/// range appear just as often as one that blocks none of it, when in a real
/// deal the blocking holding is precisely the one that should show up less.
/// Restarting keeps the sample uniform over valid *joint* holdings, which is
/// what card removal actually means, and it is why this agrees with
/// `range_vs_range_exact` rather than being merely close to it.
pub fn range_vs_range(
    ranges: &[Range],
    board: &[u8],
    dead: &[u8],
    trials: u64,
    seed: u64,
) -> (eq: Equity)
    requires
        can_be_prepared(lists(ranges@), board@, dead@),
        can_be_played(
            trimmed(lists(ranges@), board@, dead@),
            board@,
            dead@,
            trials as int,
        ),
    ensures
        eq@ == tally::tally_of(
            played(
                trimmed(lists(ranges@), board@, dead@),
                board@,
                dead@,
                rng::seeded(seed),
                trials as int,
            ).0,
            ranges.len() as nat,
        ),
        eq@.trials == trials,
{
    match try_range_vs_range(ranges, board, dead, trials, seed) {
        Some(eq) => eq,
        None => vstd::pervasive::unreached(),
    }
}

/// Two holdings.
pub open spec fn two(a: (u8, u8), b: (u8, u8)) -> Seq<(u8, u8)> {
    seq![a, b]
}

/// The two holdings cannot both be dealt.
pub open spec fn share_a_card(a: (u8, u8), b: (u8, u8)) -> bool {
    a.0 == b.0 || a.0 == b.1 || a.1 == b.0 || a.1 == b.1
}

/// The showdowns of a holding against each of a list of holdings that can be
/// dealt beside it, over every board.
pub open spec fn showdowns_against(
    a: (u8, u8),
    others: Seq<(u8, u8)>,
    board: Seq<u8>,
    dead: Seq<u8>,
) -> Seq<Seq<int>>
    decreases others.len(),
{
    if others.len() == 0 {
        seq![]
    } else {
        showdowns_against(a, others.drop_last(), board, dead) + if share_a_card(a, others.last()) {
            seq![]
        } else {
            exact_showdowns(two(a, others.last()), board, dead)
        }
    }
}

/// The showdowns of every pair of holdings that can be dealt together, over every
/// board.
pub open spec fn pair_showdowns(
    holdings: Seq<(u8, u8)>,
    others: Seq<(u8, u8)>,
    board: Seq<u8>,
    dead: Seq<u8>,
) -> Seq<Seq<int>>
    decreases holdings.len(),
{
    if holdings.len() == 0 {
        seq![]
    } else {
        pair_showdowns(holdings.drop_last(), others, board, dead) + showdowns_against(
            holdings.last(),
            others,
            board,
            dead,
        )
    }
}

/// The order of a holding among all.
spec fn place(p: (u8, u8)) -> int {
    52 * p.0 + p.1
}

/// A range is no longer than there are pairs of cards.
proof fn lemma_range_len(s: Seq<(u8, u8)>)
    requires
        range::canonical(s),
    ensures
        s.len() <= 2704,
{
    if s.len() > 0 {
        lemma_place(s, s.len() - 1);
        assert(range::is_holding(s[s.len() - 1]));
    }
}

proof fn lemma_place(s: Seq<(u8, u8)>, i: int)
    requires
        range::canonical(s),
        0 <= i < s.len(),
    ensures
        place(s[i]) >= i,
    decreases i,
{
    if i > 0 {
        lemma_place(s, i - 1);
        assert(range::precedes(s[i - 1], s[i]));
        assert(range::is_holding(s[i - 1]));
        assert(range::is_holding(s[i]));
    }
}

proof fn lemma_one_pick(n: int)
    requires
        0 <= n,
    ensures
        combinations::binomial(n, 1) == n,
        combinations::binomial(n, 0) == 1,
    decreases n,
{
    if n > 0 {
        lemma_one_pick(n - 1);
    }
}

/// Two holdings that clash with nothing can be dealt beside the board.
pub proof fn lemma_two_hands(a: (u8, u8), b: (u8, u8), board: Seq<u8>, dead: Seq<u8>)
    requires
        are_distinct(board + dead),
        range::is_holding(a),
        range::is_holding(b),
        !clashes(board + dead, a),
        !clashes(board + dead, b),
        !share_a_card(a, b),
    ensures
        are_distinct(known(two(a, b), board, dead)),
        forall|c: u8| #[trigger]
            known(two(a, b), board, dead).contains(c) <==> (board + dead).contains(c) || c == a.0
                || c == a.1 || c == b.0 || c == b.1,
        known(two(a, b), board, dead).len() == 4 + board.len() + dead.len(),
{
    let none: Seq<(u8, u8)> = seq![];
    assert(known(none, board, dead) =~= board + dead);
    lemma_known_push(none, board, dead, a);
    lemma_known_push(none.push(a), board, dead, b);
    assert(none.push(a).push(b) =~= two(a, b));
    lemma_hands_are_cards(two(a, b), board, dead);
}

/// Count one pair of holdings over every board.
fn enumerate_pair(
    a: [u8; 2],
    b: [u8; 2],
    seen: &[bool; 52],
    board: &[u8],
    full: &mut [u8; 5],
    eq: &mut Equity,
    Ghost(dead): Ghost<Seq<u8>>,
    Ghost(done): Ghost<Seq<Seq<int>>>,
)
    requires
        4 <= board.len() <= 5,
        dead.len() <= 43,
        marks(seen@, board@ + dead),
        are_distinct(board@ + dead),
        range::is_holding(range::pair(a)),
        range::is_holding(range::pair(b)),
        !clashes(board@ + dead, range::pair(a)),
        !clashes(board@ + dead, range::pair(b)),
        !share_a_card(range::pair(a), range::pair(b)),
        old(full)@.take(board.len() as int) == board@,
        old(eq)@ == tally::tally_of(done, 2),
        old(eq)@.equity.len() == 2,
        old(eq)@.trials == done.len(),
        tally::is_count(old(eq)@),
        done.len() + 52 <= u64::MAX,
    ensures
        final(full)@.take(board.len() as int) == board@,
        final(eq)@ == tally::tally_of(
            done + exact_showdowns(two(range::pair(a), range::pair(b)), board@, dead),
            2,
        ),
        final(eq)@.equity.len() == 2,
        final(eq)@.trials == done.len() + exact_showdowns(
            two(range::pair(a), range::pair(b)),
            board@,
            dead,
        ).len(),
        tally::is_count(final(eq)@),
        exact_showdowns(two(range::pair(a), range::pair(b)), board@, dead).len() <= 52,
{
    let ghost h = two(range::pair(a), range::pair(b));
    let ghost cards = known(h, board@, dead);
    proof {
        lemma_two_hands(range::pair(a), range::pair(b), board@, dead);
        law_unseen_cards(cards);
        lemma_hands_are_cards(h, board@, dead);
    }
    let mut used: [bool; 52] = *seen;
    used[a[0] as usize] = true;
    used[a[1] as usize] = true;
    used[b[0] as usize] = true;
    used[b[1] as usize] = true;
    let avail = unseen(&used, Ghost(cards));
    let hands: [[u8; 2]; 2] = [a, b];
    proof {
        assert(range::pairs(hands@) =~= h);
        combinations::law_combinations_are_counted(avail.len() as int, 5 - board.len());
        lemma_one_pick(avail.len() as int);
        assert(hands[0] == a && hands[1] == b);
    }
    enumerate(&hands, board, full, &avail, eq, Ghost(done));
}

/// Exact equity between two ranges: every valid pair of holdings against every
/// remaining board, all weighted equally.
///
/// Restricted to the turn and river on purpose. Two full ranges are 1,326
/// combos each, so preflop this would be roughly 1.7 million holding pairs
/// times 1.7 million boards: not a long wait, an impossible one. Use
/// `range_vs_range` before the turn.
pub fn range_vs_range_exact(ranges: &[Range], board: &[u8], dead: &[u8]) -> (eq: Equity)
    requires
        ranges.len() == 2,
        4 <= board.len() <= 5,
        can_be_prepared(lists(ranges@), board@, dead@),
        dead.len() <= 43 || forall|i: int, j: int|
            0 <= i < trimmed(lists(ranges@), board@, dead@)[0].len() && 0 <= j < trimmed(
                lists(ranges@),
                board@,
                dead@,
            )[1].len() ==> share_a_card(
                #[trigger] trimmed(lists(ranges@), board@, dead@)[0][i],
                #[trigger] trimmed(lists(ranges@), board@, dead@)[1][j],
            ),
    ensures
        eq@ == tally::tally_of(
            pair_showdowns(
                trimmed(lists(ranges@), board@, dead@)[0],
                trimmed(lists(ranges@), board@, dead@)[1],
                board@,
                dead@,
            ),
            2,
        ),
{
    let (seen, kept) = prepare_ranges(ranges, board, dead);
    let ghost all = trimmed(lists(ranges@), board@, dead@);
    let base: usize = board.len();
    let mut full: [u8; 5] = [NO_CARD; 5];
    for i in 0..base
        invariant
            base == board.len(),
            base <= 5,
            forall|j: int| 0 <= j < i ==> #[trigger] full[j] == board[j],
    {
        full[i] = board[i];
    }
    assert(full@.take(base as int) =~= board@);
    let mut eq = Equity::new(2);
    assert(lists(kept@).len() == 2);
    let first = kept[0].combos();
    let second = kept[1].combos();
    let ghost f = all[0];
    let ghost g = all[1];
    let ghost mut done: Seq<Seq<int>> = seq![];
    proof {
        assert(lists(kept@)[0] == kept[0]@ && lists(kept@)[1] == kept[1]@);
        lemma_range_len(f);
        lemma_range_len(g);
        assert(f.take(0) =~= seq![]);
        assert forall|i: int| 0 <= i < f.len() implies !clashes(board@ + dead@, #[trigger] f[i]) by {
            assert(kept[0]@.contains(f[i]));
        }
        assert forall|j: int| 0 <= j < g.len() implies !clashes(board@ + dead@, #[trigger] g[j]) by {
            assert(kept[1]@.contains(g[j]));
        }
        if dead.len() > 43 {
            assert forall|i: int, j: int| 0 <= i < f.len() && 0 <= j < g.len() implies share_a_card(
                #[trigger] f[i],
                #[trigger] g[j],
            ) by {
                assert(share_a_card(all[0][i], all[1][j]));
            }
        }
    }
    for i in 0..first.len()
        invariant
            4 <= board.len() <= 5,
            f == range::pairs(first@),
            g == range::pairs(second@),
            f.len() <= 2704,
            g.len() <= 2704,
            range::canonical(f),
            range::canonical(g),
            marks(seen@, board@ + dead@),
            are_distinct(board@ + dead@),
            forall|i: int| 0 <= i < f.len() ==> !clashes(board@ + dead@, #[trigger] f[i]),
            forall|j: int| 0 <= j < g.len() ==> !clashes(board@ + dead@, #[trigger] g[j]),
            dead.len() <= 43 || forall|i: int, j: int|
                0 <= i < f.len() && 0 <= j < g.len() ==> share_a_card(
                    #[trigger] f[i],
                    #[trigger] g[j],
                ),
            full@.take(board.len() as int) == board@,
            done == pair_showdowns(f.take(i as int), g, board@, dead@),
            done.len() <= 140608 * i,
            eq@ == tally::tally_of(done, 2),
            eq@.equity.len() == 2,
            eq@.trials == done.len(),
            tally::is_count(eq@),
    {
        let a: [u8; 2] = first[i];
        let ghost earlier = done;
        proof {
            assert(f[i as int] == range::pair(a));
            assert(g.take(0) =~= seq![]);
            assert(earlier + showdowns_against(range::pair(a), g.take(0), board@, dead@)
                =~= earlier);
        }
        for j in 0..second.len()
            invariant
                4 <= board.len() <= 5,
                i < first.len(),
                f == range::pairs(first@),
                g == range::pairs(second@),
                f.len() <= 2704,
                g.len() <= 2704,
                range::canonical(f),
                range::canonical(g),
                f[i as int] == range::pair(a),
                marks(seen@, board@ + dead@),
                are_distinct(board@ + dead@),
                forall|i: int| 0 <= i < f.len() ==> !clashes(board@ + dead@, #[trigger] f[i]),
                forall|j: int| 0 <= j < g.len() ==> !clashes(board@ + dead@, #[trigger] g[j]),
                dead.len() <= 43 || forall|i: int, j: int|
                    0 <= i < f.len() && 0 <= j < g.len() ==> share_a_card(
                        #[trigger] f[i],
                        #[trigger] g[j],
                    ),
                full@.take(board.len() as int) == board@,
                done == earlier + showdowns_against(
                    range::pair(a),
                    g.take(j as int),
                    board@,
                    dead@,
                ),
                done.len() <= 140608 * i + 52 * j,
                eq@ == tally::tally_of(done, 2),
                eq@.equity.len() == 2,
                eq@.trials == done.len(),
                tally::is_count(eq@),
        {
            let b: [u8; 2] = second[j];
            let ghost before = showdowns_against(range::pair(a), g.take(j as int), board@, dead@);
            proof {
                assert(g[j as int] == range::pair(b));
                assert(g.take(j + 1).drop_last() =~= g.take(j as int));
                assert(g.take(j + 1).last() == range::pair(b));
                assert(share_a_card(f[i as int], g[j as int]) || dead.len() <= 43);
                assert(range::is_holding(f[i as int]) && range::is_holding(g[j as int]));
                assert(!clashes(board@ + dead@, f[i as int]) && !clashes(
                    board@ + dead@,
                    g[j as int],
                ));
            }
            if a[0] == b[0] || a[0] == b[1] || a[1] == b[0] || a[1] == b[1] {
                assert(before + seq![] =~= before);
            } else {
                let ghost more = exact_showdowns(
                    two(range::pair(a), range::pair(b)),
                    board@,
                    dead@,
                );
                enumerate_pair(
                    a,
                    b,
                    &seen,
                    board,
                    &mut full,
                    &mut eq,
                    Ghost(dead@),
                    Ghost(done),
                );
                proof {
                    assert(done + more =~= earlier + (before + more));
                    done = done + more;
                }
            }
        }
        proof {
            assert(g.take(g.len() as int) =~= g);
            assert(f.take(i + 1).drop_last() =~= f.take(i as int));
            assert(f.take(i + 1).last() == range::pair(a));
        }
    }
    assert(f.take(f.len() as int) =~= f);
    eq
}

} // verus!
