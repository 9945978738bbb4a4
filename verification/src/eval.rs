//! Hand evaluator for 5-, 6-, and 7-card hands.
//!
//! `eval` returns a `u32` where larger is stronger, so comparison is a single
//! integer compare. Layout, high bits first:
//!
//! ```text
//!   bits 20..24   category (0 = high card .. 8 = straight flush)
//!   bits 16..20   primary rank
//!   bits 12..16   secondary rank
//!   bits  8..12   tertiary
//!   bits  4.. 8   quaternary
//!   bits  0.. 4   quinary
//! ```
//!
//! Ranks are 0 (deuce) .. 12 (ace). Unused kicker slots stay zero, which is
//! safe because two hands are only ever compared meaningfully within the same
//! category, and every hand in a given category fills the same slots.
//!
//! This is a branch-and-count evaluator, not a table lookup. It needs no
//! precomputed data and no startup cost.

use vstd::prelude::*;

use crate::card;
use crate::ranks;

verus! {

pub const HIGH_CARD: u32 = 0;

pub const PAIR: u32 = 1;

pub const TWO_PAIR: u32 = 2;

pub const TRIPS: u32 = 3;

pub const STRAIGHT: u32 = 4;

pub const FLUSH: u32 = 5;

pub const FULL_HOUSE: u32 = 6;

pub const QUADS: u32 = 7;

pub const STRAIGHT_FLUSH: u32 = 8;

pub const CATEGORY_NAMES: [&'static str; 9] = [
    "high card",
    "pair",
    "two pair",
    "three of a kind",
    "straight",
    "flush",
    "full house",
    "four of a kind",
    "straight flush",
];

/// How many of the cards have rank `r`.
pub open spec fn rank_count(cards: Seq<u8>, r: int) -> nat
    decreases cards.len(),
{
    if cards.len() == 0 {
        0
    } else {
        rank_count(cards.drop_last(), r) + if cards.last() as int / 4 == r {
            1nat
        } else {
            0nat
        }
    }
}

/// The ranks among the cards.
pub open spec fn ranks_of(cards: Seq<u8>) -> Set<int> {
    Set::new(|r: int| 0 <= r < 13 && rank_count(cards, r) > 0)
}

/// The ranks that occur exactly `n` times.
pub open spec fn ranks_held(cards: Seq<u8>, n: nat) -> Set<int> {
    Set::new(|r: int| 0 <= r < 13 && rank_count(cards, r) == n)
}

/// The ranks among the cards of suit `s`.
pub open spec fn suited_ranks(cards: Seq<u8>, s: int) -> Set<int> {
    Set::new(|r: int| 0 <= r < 13 && cards.contains(card::code(r, s)))
}

/// Five or more ranks occur in suit `s`.
pub open spec fn has_flush(cards: Seq<u8>, s: int) -> bool {
    ranks::ranks_down(suited_ranks(cards, s)).len() >= 5
}

/// The suit of the flush among the cards.
pub open spec fn flush_suit(cards: Seq<u8>) -> Option<int> {
    if has_flush(cards, 0) {
        Some(0)
    } else if has_flush(cards, 1) {
        Some(1)
    } else if has_flush(cards, 2) {
        Some(2)
    } else if has_flush(cards, 3) {
        Some(3)
    } else {
        None
    }
}

/// The `i`-th rank slot of a score; unused slots are zero.
pub open spec fn slot(digits: Seq<int>, i: int) -> int {
    if i < digits.len() {
        digits[i]
    } else {
        0
    }
}

/// A category and up to five ranks as one number, four bits to a slot.
pub open spec fn packed(cat: u32, digits: Seq<int>) -> int {
    cat * 0x10_0000 + slot(digits, 0) * 0x1_0000 + slot(digits, 1) * 0x1000 + slot(digits, 2)
        * 0x100 + slot(digits, 3) * 0x10 + slot(digits, 4)
}

/// The score of a hand without a flush.
pub open spec fn rank_score(cards: Seq<u8>) -> int {
    let all = ranks_of(cards);
    let quads = ranks::ranks_down(ranks_held(cards, 4));
    let trips = ranks::ranks_down(ranks_held(cards, 3));
    let pairs = ranks::ranks_down(ranks_held(cards, 2));
    if quads.len() > 0 {
        packed(QUADS, seq![quads[0]] + ranks::top(all.remove(quads[0]), 1))
    } else if trips.len() > 0 && trips.len() + pairs.len() > 1 {
        // With two sets of trips the lower set plays as the pair.
        packed(
            FULL_HOUSE,
            seq![
                trips[0],
                if trips.len() > 1 && (pairs.len() == 0 || trips[1] > pairs[0]) {
                    trips[1]
                } else {
                    pairs[0]
                },
            ],
        )
    } else if let Some(hi) = ranks::straight_top(all) {
        packed(STRAIGHT, seq![hi])
    } else if trips.len() > 0 {
        packed(TRIPS, seq![trips[0]] + ranks::top(all.remove(trips[0]), 2))
    } else if pairs.len() > 1 {
        // With three pairs the third pair's rank is still a live kicker.
        packed(TWO_PAIR, seq![pairs[0], pairs[1]] + ranks::top(all.remove(pairs[0]).remove(pairs[1]), 1))
    } else if pairs.len() > 0 {
        packed(PAIR, seq![pairs[0]] + ranks::top(all.remove(pairs[0]), 3))
    } else {
        packed(HIGH_CARD, ranks::top(all, 5))
    }
}

/// The score of a hand: a flush or straight flush if five ranks share a suit,
/// what the rank counts make of it otherwise.
pub open spec fn hand_score(cards: Seq<u8>) -> int {
    match flush_suit(cards) {
        Some(s) => match ranks::straight_top(suited_ranks(cards, s)) {
            Some(hi) => packed(STRAIGHT_FLUSH, seq![hi]),
            None => packed(FLUSH, ranks::top(suited_ranks(cards, s), 5)),
        },
        None => rank_score(cards),
    }
}

/// The category of a score.
pub open spec fn score_category(score: int) -> int {
    score / 0x10_0000
}

pub fn category(score: u32) -> (cat: u32)
    ensures
        cat == score_category(score as int),
{
    assert(score >> 20 == score / 0x10_0000) by (bit_vector);
    score >> 20
}

pub fn describe(score: u32) -> (name: String)
    requires
        score_category(score as int) <= STRAIGHT_FLUSH,
    ensures
        name@ == CATEGORY_NAMES[score_category(score as int)]@,
{
    CATEGORY_NAMES[category(score) as usize].to_string()
}

/// The ranks whose bits are set in a mask.
pub open spec fn bits_of(mask: u16) -> Set<int> {
    Set::new(|r: int| 0 <= r < 13 && mask & (1u16 << (r as u16)) != 0)
}

/// Bits for A-5-4-3-2: the ace plus the four lowest ranks.
const WHEEL: u16 = 0x100f;

fn pack(cat: u32, r: [u32; 5]) -> (score: u32)
    requires
        cat <= 8,
        forall|i: int| 0 <= i < 5 ==> r[i] < 13,
    ensures
        score == packed(cat, r@.map_values(|x: u32| x as int)),
{
    let (a, b, c, d, e) = (r[0], r[1], r[2], r[3], r[4]);
    assert((cat << 20) | (a << 16) | (b << 12) | (c << 8) | (d << 4) | e == cat * 0x10_0000 + a
        * 0x1_0000 + b * 0x1000 + c * 0x100 + d * 0x10 + e) by (bit_vector)
        requires
            cat <= 8,
            a < 13,
            b < 13,
            c < 13,
            d < 13,
            e < 13,
    ;
    (cat << 20) | (a << 16) | (b << 12) | (c << 8) | (d << 4) | e
}

/// Highest card of the best straight in `mask`, or `None`.
/// The wheel reports rank 3 (a five), which is correct: it is the weakest
/// straight and must lose to a six-high.
fn straight_high(mask: u16) -> (hi: Option<u32>)
    ensures
        hi matches Some(h) ==> ranks::straight_top(bits_of(mask)) == Some(h as int) && 3 <= h < 13,
        hi is None ==> ranks::straight_top(bits_of(mask)) is None,
{
    let mut hi: u16 = 12;
    while hi >= 4
        invariant
            3 <= hi <= 12,
            ranks::straight_top(bits_of(mask)) == ranks::best_run(bits_of(mask), hi as int),
        decreases hi,
    {
        let low: u16 = hi - 4;
        let window: u16 = 0b11111u16 << low;
        proof {
            lemma_window(mask, low);
        }
        if mask & window == window {
            return Some(hi as u32);
        }
        hi -= 1;
    }
    proof {
        lemma_wheel(mask);
        reveal_with_fuel(ranks::best_run, 2);
    }
    if mask & WHEEL == WHEEL {
        return Some(3);
    }
    None
}

proof fn lemma_window(mask: u16, low: u16)
    requires
        low <= 8,
    ensures
        (mask & (0b11111u16 << low) == 0b11111u16 << low) <==> ranks::has_run(bits_of(mask), low + 4),
{
    let (a, b, c, d) = ((low + 1) as u16, (low + 2) as u16, (low + 3) as u16, (low + 4) as u16);
    assert((mask & (0b11111u16 << low) == 0b11111u16 << low) <==> (mask & (1u16 << low) != 0 && mask
        & (1u16 << a) != 0 && mask & (1u16 << b) != 0 && mask & (1u16 << c) != 0 && mask & (1u16
        << d) != 0)) by (bit_vector)
        requires
            low <= 8,
            a == low + 1,
            b == low + 2,
            c == low + 3,
            d == low + 4,
    ;
}

proof fn lemma_wheel(mask: u16)
    ensures
        (mask & WHEEL == WHEEL) <==> ranks::has_run(bits_of(mask), 3),
{
    assert((mask & 0x100f == 0x100f) <==> (mask & (1u16 << 0) != 0 && mask & (1u16 << 1) != 0 && mask
        & (1u16 << 2) != 0 && mask & (1u16 << 3) != 0 && mask & (1u16 << 12) != 0)) by (bit_vector);
}

proof fn lemma_bits_empty()
    ensures
        bits_of(0) =~= Set::empty(),
{
    assert(forall|r: u16| r < 13 ==> 0u16 & #[trigger] (1u16 << r) == 0) by (bit_vector);
}

/// Setting a bit adds its rank.
proof fn lemma_bits_set(mask: u16, k: u16)
    requires
        k < 13,
    ensures
        bits_of(mask | (1u16 << k)) =~= bits_of(mask).insert(k as int),
{
    assert(forall|r: u16|
        r < 13 ==> ((mask | (1u16 << k)) & #[trigger] (1u16 << r) != 0 <==> (mask & (1u16 << r) != 0
            || r == k))) by (bit_vector)
        requires
            k < 13,
    ;
    assert forall|r: int| bits_of(mask | (1u16 << k)).contains(r) == bits_of(mask).insert(
        k as int,
    ).contains(r) by {
        if 0 <= r < 13 {
            let rr = r as u16;
            assert(1u16 << rr == 1u16 << (r as u16));
        }
    }
}

/// Clearing a bit removes its rank.
proof fn lemma_bits_clear(mask: u16, k: u16)
    requires
        k < 13,
    ensures
        bits_of(mask & !(1u16 << k)) =~= bits_of(mask).remove(k as int),
{
    assert(forall|r: u16|
        r < 13 ==> ((mask & !(1u16 << k)) & #[trigger] (1u16 << r) != 0 <==> (mask & (1u16 << r)
            != 0 && r != k))) by (bit_vector)
        requires
            k < 13,
    ;
    assert forall|r: int| bits_of(mask & !(1u16 << k)).contains(r) == bits_of(mask).remove(
        k as int,
    ).contains(r) by {
        if 0 <= r < 13 {
            let rr = r as u16;
            assert(1u16 << rr == 1u16 << (r as u16));
        }
    }
}

/// Write the `n` highest ranks set in `mask` into `out[at..at+n]`.
fn take_top(mask: u16, n: usize, out: &mut [u32; 5], at: usize)
    requires
        at + n <= 5,
        forall|i: int| 0 <= i < 5 ==> old(out)[i] < 13,
    ensures
        forall|i: int| 0 <= i < 5 ==> final(out)[i] < 13,
        forall|i: int|
            0 <= i < 5 ==> #[trigger] final(out)[i] == if at <= i < at + ranks::top(bits_of(mask), n as int).len() {
                ranks::top(bits_of(mask), n as int)[i - at]
            } else {
                old(out)[i] as int
            },
{
    let ghost s = bits_of(mask);
    let mut slot: usize = at;
    let mut r: u16 = 13;
    while r > 0 && slot < at + n
        invariant
            s == bits_of(mask),
            at + n <= 5,
            r <= 13,
            at <= slot <= at + n,
            slot - at == ranks::descending(s, r as int, 13).len(),
            forall|i: int| 0 <= i < 5 ==> out[i] < 13,
            forall|i: int|
                0 <= i < 5 ==> #[trigger] out[i] == if at <= i < slot {
                    ranks::descending(s, r as int, 13)[i - at]
                } else {
                    old(out)[i] as int
                },
        decreases r,
    {
        let k: u16 = r - 1;
        proof {
            ranks::lemma_descending_split(s, k as int, r as int, 13);
            assert(ranks::descending(s, k as int, k as int) =~= seq![]);
        }
        if mask & (1u16 << k) != 0 {
            out[slot] = k as u32;
            slot += 1;
        }
        r = k;
    }
    proof {
        ranks::lemma_descending_split(s, 0, r as int, 13);
        assert(ranks::descending(s, 0, 0) =~= seq![]);
        if slot == at + n {
            assert(ranks::top(s, n as int) =~= ranks::descending(s, r as int, 13));
        }
    }
}

proof fn lemma_rank_count_bound(cards: Seq<u8>, r: int)
    ensures
        rank_count(cards, r) <= cards.len(),
    decreases cards.len(),
{
    if cards.len() > 0 {
        lemma_rank_count_bound(cards.drop_last(), r);
    }
}

/// What one more card adds to the counts, the ranks and the suits.
pub proof fn lemma_push(cards: Seq<u8>, c: u8)
    requires
        c < 52,
    ensures
        forall|r: int|
            #[trigger] rank_count(cards.push(c), r) == rank_count(cards, r) + if r == c as int / 4 {
                1nat
            } else {
                0nat
            },
        ranks_of(cards.push(c)) =~= ranks_of(cards).insert(c as int / 4),
        forall|s: int|
            0 <= s < 4 ==> #[trigger] suited_ranks(cards.push(c), s) =~= if s == c as int % 4 {
                suited_ranks(cards, s).insert(c as int / 4)
            } else {
                suited_ranks(cards, s)
            },
{
    assert(cards.push(c).drop_last() =~= cards);
    assert forall|s: int| 0 <= s < 4 implies #[trigger] suited_ranks(cards.push(c), s) =~= if s
        == c as int % 4 {
        suited_ranks(cards, s).insert(c as int / 4)
    } else {
        suited_ranks(cards, s)
    } by {
        assert forall|x: u8| cards.push(c).contains(x) == (cards.contains(x) || x == c) by {
            if cards.contains(x) {
                let i = cards.index_of(x);
                assert(cards.push(c)[i] == x);
            }
            if x == c {
                assert(cards.push(c)[cards.len() as int] == x);
            }
        }
        let after = suited_ranks(cards.push(c), s);
        let before = suited_ranks(cards, s);
        assert forall|r: int| 0 <= r < 13 implies after.contains(r) == (before.contains(r) || (r
            == c as int / 4 && s == c as int % 4)) by {
            let x = card::code(r, s);
            assert(cards.push(c).contains(x) == (cards.contains(x) || x == c));
        }
    }
}

/// Score a hand by its rank counts alone.
fn rank_eval(counts: &[u8; 13], all: u16, Ghost(cards): Ghost<Seq<u8>>) -> (score: u32)
    requires
        forall|r: int| 0 <= r < 13 ==> #[trigger] counts[r] == rank_count(cards, r),
        bits_of(all) == ranks_of(cards),
    ensures
        score == rank_score(cards),
{
    let ghost (fours, threes, twos) = (
        ranks_held(cards, 4),
        ranks_held(cards, 3),
        ranks_held(cards, 2),
    );
    // Collect ranks by multiplicity, highest rank first; no more than the two
    // highest of a kind ever play.
    let mut quad: Option<u16> = None;
    let mut trips: [u16; 2] = [0; 2];
    let mut n_trips: usize = 0;
    let mut pairs: [u16; 2] = [0; 2];
    let mut n_pairs: usize = 0;
    let mut above: u16 = 13;
    while above > 0
        invariant
            above <= 13,
            forall|r: int| 0 <= r < 13 ==> #[trigger] counts[r] == rank_count(cards, r),
            fours == ranks_held(cards, 4),
            threes == ranks_held(cards, 3),
            twos == ranks_held(cards, 2),
            quad is None <==> ranks::descending(fours, above as int, 13).len() == 0,
            quad matches Some(q) ==> q == ranks::descending(fours, above as int, 13)[0],
            n_trips <= 2,
            n_trips <= ranks::descending(threes, above as int, 13).len(),
            n_trips < 2 ==> n_trips == ranks::descending(threes, above as int, 13).len(),
            forall|i: int|
                0 <= i < n_trips ==> #[trigger] trips[i] == ranks::descending(threes, above as int, 13)[i],
            n_pairs <= 2,
            n_pairs <= ranks::descending(twos, above as int, 13).len(),
            n_pairs < 2 ==> n_pairs == ranks::descending(twos, above as int, 13).len(),
            forall|i: int|
                0 <= i < n_pairs ==> #[trigger] pairs[i] == ranks::descending(twos, above as int, 13)[i],
        decreases above,
    {
        let r: u16 = above - 1;
        proof {
            ranks::lemma_descending_split(fours, r as int, above as int, 13);
            ranks::lemma_descending_split(threes, r as int, above as int, 13);
            ranks::lemma_descending_split(twos, r as int, above as int, 13);
            assert(ranks::descending(fours, r as int, r as int) =~= seq![]);
            assert(ranks::descending(threes, r as int, r as int) =~= seq![]);
            assert(ranks::descending(twos, r as int, r as int) =~= seq![]);
            assert(counts[r as int] == rank_count(cards, r as int));
        }
        let n: u8 = counts[r as usize];
        if n == 4 {
            if quad.is_none() {
                quad = Some(r);
            }
        } else if n == 3 {
            if n_trips < 2 {
                trips[n_trips] = r;
                n_trips += 1;
            }
        } else if n == 2 {
            if n_pairs < 2 {
                pairs[n_pairs] = r;
                n_pairs += 1;
            }
        }
        above = r;
    }
    proof {
        ranks::lemma_descending(fours, 0, 13);
        ranks::lemma_descending(threes, 0, 13);
        ranks::lemma_descending(twos, 0, 13);
    }

    let mut out: [u32; 5] = [0; 5];
    if let Some(q) = quad {
        proof {
            lemma_bits_clear(all, q);
        }
        out[0] = q as u32;
        take_top(all & !(1u16 << q), 1, &mut out, 1);
        return pack(QUADS, out);
    }
    if n_trips > 0 && (n_trips > 1 || n_pairs > 0) {
        // With two sets of trips the lower set plays as the pair.
        let pair: u16 = if n_trips > 1 && (n_pairs == 0 || trips[1] > pairs[0]) {
            trips[1]
        } else {
            pairs[0]
        };
        out[0] = trips[0] as u32;
        out[1] = pair as u32;
        return pack(FULL_HOUSE, out);
    }
    // Checking before trips and two pair is load-bearing: those *can*
    // co-occur with a straight, and the straight outranks them.
    if let Some(hi) = straight_high(all) {
        out[0] = hi;
        return pack(STRAIGHT, out);
    }
    if n_trips > 0 {
        let t: u16 = trips[0];
        proof {
            lemma_bits_clear(all, t);
        }
        out[0] = t as u32;
        take_top(all & !(1u16 << t), 2, &mut out, 1);
        return pack(TRIPS, out);
    }
    if n_pairs >= 2 {
        // With three pairs the third pair's rank is still a live kicker.
        let (p, q) = (pairs[0], pairs[1]);
        let rest: u16 = all & !(1u16 << p);
        proof {
            lemma_bits_clear(all, p);
            lemma_bits_clear(rest, q);
        }
        out[0] = p as u32;
        out[1] = q as u32;
        take_top(rest & !(1u16 << q), 1, &mut out, 2);
        return pack(TWO_PAIR, out);
    }
    if n_pairs == 1 {
        let p: u16 = pairs[0];
        proof {
            lemma_bits_clear(all, p);
        }
        out[0] = p as u32;
        take_top(all & !(1u16 << p), 3, &mut out, 1);
        return pack(PAIR, out);
    }
    take_top(all, 5, &mut out, 0);
    pack(HIGH_CARD, out)
}

/// Evaluate 5, 6, or 7 cards. Larger is stronger.
pub fn eval(cards: &[u8]) -> (score: u32)
    requires
        5 <= cards.len() <= 7,
        forall|i: int| 0 <= i < cards.len() ==> cards[i] < 52,
    ensures
        score == hand_score(cards@),
        score_category(score as int) <= STRAIGHT_FLUSH,
{
    proof {
        crate::strength::law_every_score_has_a_category(cards@);
    }
    let mut counts: [u8; 13] = [0; 13];
    let mut suits: [u16; 4] = [0; 4];
    // How many ranks each suit's mask holds.
    let mut suit_sizes: [u8; 4] = [0; 4];
    let mut all: u16 = 0;
    proof {
        let none = cards@.take(0);
        lemma_bits_empty();
        assert(ranks_of(none) =~= Set::empty());
        assert forall|s: int| 0 <= s < 4 implies #[trigger] suited_ranks(none, s) =~= Set::empty() by {}
        ranks::lemma_descending_empty(0, 13);
    }
    for i in 0..cards.len()
        invariant
            5 <= cards.len() <= 7,
            forall|i: int| 0 <= i < cards.len() ==> cards[i] < 52,
            forall|r: int| 0 <= r < 13 ==> #[trigger] counts[r] == rank_count(cards@.take(i as int), r),
            bits_of(all) == ranks_of(cards@.take(i as int)),
            forall|s: int|
                0 <= s < 4 ==> bits_of(#[trigger] suits[s]) == suited_ranks(cards@.take(i as int), s),
            forall|s: int|
                0 <= s < 4 ==> #[trigger] suit_sizes[s] == ranks::ranks_down(
                    suited_ranks(cards@.take(i as int), s),
                ).len(),
    {
        let c: u8 = cards[i];
        let r: usize = card::rank_of(c) as usize;
        let s: usize = card::suit_of(c) as usize;
        let bit: u16 = 1u16 << (r as u16);
        proof {
            let before = cards@.take(i as int);
            assert(cards@.take(i + 1) =~= before.push(c));
            lemma_push(before, c);
            lemma_rank_count_bound(before, r as int);
            lemma_bits_set(suits[s as int], r as u16);
            lemma_bits_set(all, r as u16);
            let old_suited = suited_ranks(before, s as int);
            assert(suited_ranks(before.push(c), s as int) == old_suited.insert(r as int));
            ranks::lemma_descending(old_suited, 0, 13);
            if !old_suited.contains(r as int) {
                ranks::lemma_descending_insert(old_suited, r as int, 0, 13);
            } else {
                assert(old_suited.insert(r as int) =~= old_suited);
            }
            assert(old_suited.contains(r as int) <==> suits[s as int] & bit != 0);
        }
        counts[r] = counts[r] + 1;
        if suits[s] & bit == 0 {
            suit_sizes[s] = suit_sizes[s] + 1;
        }
        suits[s] = suits[s] | bit;
        all = all | bit;
    }
    assert(cards@.take(cards@.len() as int) =~= cards@);

    // A flush rules out quads and a full house at these hand sizes. The flush
    // consumes five distinct ranks, leaving at most two other cards: not
    // enough for a second rank to appear three or four times. So returning
    // early here is correct even though quads and full houses outrank a flush.
    for s in 0..4
        invariant
            forall|t: int| 0 <= t < 4 ==> bits_of(#[trigger] suits[t]) == suited_ranks(cards@, t),
            forall|t: int|
                0 <= t < 4 ==> #[trigger] suit_sizes[t] == ranks::ranks_down(
                    suited_ranks(cards@, t),
                ).len(),
            forall|t: int| 0 <= t < s ==> !has_flush(cards@, t),
    {
        if suit_sizes[s] >= 5 {
            assert(flush_suit(cards@) == Some(s as int));
            let mask: u16 = suits[s];
            let mut r: [u32; 5] = [0; 5];
            if let Some(hi) = straight_high(mask) {
                r[0] = hi;
                return pack(STRAIGHT_FLUSH, r);
            }
            take_top(mask, 5, &mut r, 0);
            return pack(FLUSH, r);
        }
    }
    assert(flush_suit(cards@) is None);
    rank_eval(&counts, all, Ghost(cards@))
}

} // verus!
