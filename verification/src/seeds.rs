//! The seed matters: decks and samples differ between seeds.

use vstd::prelude::*;

use crate::card;
use crate::deck;
use crate::equity;
use crate::eval;
use crate::eval::STRAIGHT_FLUSH;
use crate::ranks;
use crate::rng;
use crate::runouts;
use crate::shuffles;
use crate::strength;
use crate::tally;
use crate::tally::Tally;

verus! {

/// Mixing, step by step.
proof fn lemma_mixed_steps(z: u64, a: u64, x: u64, b: u64, y: u64, w: u64)
    requires
        z ^ (z >> 30) == a,
        a * 0xBF58_476D_1CE4_E5B9 % 0x1_0000_0000_0000_0000 == x,
        x ^ (x >> 27) == b,
        b * 0x94D0_49BB_1331_11EB % 0x1_0000_0000_0000_0000 == y,
        y ^ (y >> 31) == w,
    ensures
        rng::mixed(z) == w,
{
}

/// The first word from seed one.
proof fn lemma_first_word_from_one()
    ensures
        rng::output(rng::seeded(1)) == 0xCFC5_D07F_6F03_C29B,
{
    assert(0x9E37_79B9_7F4A_7C16u64 ^ (0x9E37_79B9_7F4A_7C16u64 >> 30) == 0x9E37_79BB_0797_9AF3
        && 0xAD70_FC62_AE96_589Bu64 ^ (0xAD70_FC62_AE96_589Bu64 >> 27) == 0xAD70_FC77_0089_D4CE
        && 0x910A_2DED_AB16_071Au64 ^ (0x910A_2DED_AB16_071Au64 >> 31) == 0x910A_2DEC_8902_5CC1) by (bit_vector);
    lemma_mixed_steps(
        0x9E37_79B9_7F4A_7C16,
        0x9E37_79BB_0797_9AF3,
        0xAD70_FC62_AE96_589B,
        0xAD70_FC77_0089_D4CE,
        0x910A_2DED_AB16_071A,
        0x910A_2DEC_8902_5CC1,
    );
    assert(0x78DD_E6E5_FD29_F055u64 ^ (0x78DD_E6E5_FD29_F055u64 >> 30) == 0x78DD_E6E4_1E5E_6BC2
        && 0x5529_F97F_9968_6932u64 ^ (0x5529_F97F_9968_6932u64 >> 27) == 0x5529_F975_3C57_46C1
        && 0x71C1_8690_0DC1_C42Bu64 ^ (0x71C1_8690_0DC1_C42Bu64 >> 31) == 0x71C1_8690_EE42_C90B) by (bit_vector);
    lemma_mixed_steps(
        0x78DD_E6E5_FD29_F055,
        0x78DD_E6E4_1E5E_6BC2,
        0x5529_F97F_9968_6932,
        0x5529_F975_3C57_46C1,
        0x71C1_8690_0DC1_C42B,
        0x71C1_8690_EE42_C90B,
    );
    assert(rng::seeded(1).0 == 0x910A_2DEC_8902_5CC1);
    assert(rng::seeded(1).3 == 0x71C1_8690_EE42_C90B);
    assert((0x02CB_B47D_7745_25CCu64 << 23) | (0x02CB_B47D_7745_25CCu64 >> 41)
        == 0x3EBB_A292_E601_65DA) by (bit_vector);
    assert(rng::rotated(0x02CB_B47D_7745_25CC, 23) == 0x3EBB_A292_E601_65DA);
}

/// The first word from seed two.
proof fn lemma_first_word_from_two()
    ensures
        rng::output(rng::seeded(2)) == 0xC3E6_7584_B5C4_FC2A,
{
    assert(0x9E37_79B9_7F4A_7C17u64 ^ (0x9E37_79B9_7F4A_7C17u64 >> 30) == 0x9E37_79BB_0797_9AF2
        && 0xEE18_B4F5_91B1_72E2u64 ^ (0xEE18_B4F5_91B1_72E2u64 >> 27) == 0xEE18_B4E8_52A7_EC50
        && 0x9758_35DF_3227_3D70u64 ^ (0x9758_35DF_3227_3D70u64 >> 31) == 0x9758_35DE_1C97_56CE) by (bit_vector);
    lemma_mixed_steps(
        0x9E37_79B9_7F4A_7C17,
        0x9E37_79BB_0797_9AF2,
        0xEE18_B4F5_91B1_72E2,
        0xEE18_B4E8_52A7_EC50,
        0x9758_35DF_3227_3D70,
        0x9758_35DE_1C97_56CE,
    );
    assert(0x78DD_E6E5_FD29_F056u64 ^ (0x78DD_E6E5_FD29_F056u64 >> 30) == 0x78DD_E6E4_1E5E_6BC1
        && 0x95D1_B212_7C83_8379u64 ^ (0x95D1_B212_7C83_8379u64 >> 27) == 0x95D1_B200_C6B5_C136
        && 0xC3F2_827B_7802_F292u64 ^ (0xC3F2_827B_7802_F292u64 >> 31) == 0xC3F2_827A_FFE7_F664) by (bit_vector);
    lemma_mixed_steps(
        0x78DD_E6E5_FD29_F056,
        0x78DD_E6E4_1E5E_6BC1,
        0x95D1_B212_7C83_8379,
        0x95D1_B200_C6B5_C136,
        0xC3F2_827B_7802_F292,
        0xC3F2_827A_FFE7_F664,
    );
    assert(rng::seeded(2).0 == 0x9758_35DE_1C97_56CE);
    assert(rng::seeded(2).3 == 0xC3F2_827A_FFE7_F664);
    assert((0x5B4A_B859_1C7F_4D32u64 << 23) | (0x5B4A_B859_1C7F_4D32u64 >> 41)
        == 0x2C8E_3FA6_992D_A55C) by (bit_vector);
    assert(rng::rotated(0x5B4A_B859_1C7F_4D32, 23) == 0x2C8E_3FA6_992D_A55C);
}

/// A first word that is kept is what the first draw uses.
proof fn lemma_first_draw(seed: u64, n: u64)
    requires
        n > 0,
        rng::output(rng::seeded(seed)) <= rng::zone(n),
    ensures
        rng::draw(rng::seeded(seed), n).0 == rng::output(rng::seeded(seed)) % n,
{
    assert(rng::first_kept(rng::seeded(seed), n, 0));
    rng::lemma_first_kept_unique(rng::seeded(seed), n, 0);
}

/// Two seeds whose decks come out in different orders.
proof fn lemma_two_shuffles()
    ensures
        deck::shuffled(deck::fresh_deck(1)).cards != deck::shuffled(deck::fresh_deck(2)).cards,
{
    let (a, b) = (deck::fresh_deck(1), deck::fresh_deck(2));
    lemma_first_word_from_one();
    lemma_first_word_from_two();
    lemma_first_draw(1, 52);
    lemma_first_draw(2, 52);
    assert(shuffles::choices(a.rng, 51).last() != shuffles::choices(b.rng, 51).last());
    shuffles::law_shuffles_agree_where_the_choices_do(a, b);
}

/// The seed matters: there are seeds whose decks come out in different orders.
pub proof fn law_some_seeds_shuffle_differently()
    ensures
        exists|a: u64, b: u64|
            deck::shuffled(#[trigger] deck::fresh_deck(a)).cards != deck::shuffled(
                #[trigger] deck::fresh_deck(b),
            ).cards,
{
    lemma_two_shuffles();
}

/// What sampling counts.
pub open spec fn sampled_tally(
    hands: Seq<(u8, u8)>,
    board: Seq<u8>,
    dead: Seq<u8>,
    trials: u64,
    seed: u64,
) -> Tally {
    tally::tally_of(
        equity::sampled_showdowns(
            hands,
            board,
            equity::unseen_cards(equity::known(hands, board, dead)),
            rng::seeded(seed),
            trials as int,
        ),
        hands.len(),
    )
}

/// Two hands, each a card short of a royal flush, in different suits.
spec fn royal_draws() -> Seq<(u8, u8)> {
    seq![(card::code(12, 3), card::code(11, 3)), (card::code(12, 2), card::code(11, 2))]
}

spec fn royal_board() -> Seq<u8> {
    seq![card::code(10, 3), card::code(9, 3), card::code(10, 2), card::code(9, 2)]
}

/// All cards but those and the two tens.
spec fn royal_dead() -> Seq<u8> {
    equity::unseen_cards(royal_cards())
}

spec fn royal_cards() -> Seq<u8> {
    seq![51u8, 47, 50, 46, 43, 39, 42, 38, 34, 35]
}

/// Just the two tens are left.
proof fn lemma_royal_deck()
    ensures
        equity::can_be_dealt(royal_draws(), royal_board(), royal_dead()),
        equity::unseen_cards(equity::known(royal_draws(), royal_board(), royal_dead()))
            == seq![34u8, 35],
{
    let (hands, board, dead) = (royal_draws(), royal_board(), royal_dead());
    let all = equity::known(hands, board, dead);
    let near = seq![51u8, 47, 50, 46, 43, 39, 42, 38];
    equity::law_unseen_cards(royal_cards());
    assert(equity::cards_of(hands) =~= seq![51u8, 47, 50, 46]) by {
        reveal_with_fuel(equity::cards_of, 3);
        assert(hands.drop_last() =~= seq![hands[0]]);
        assert(hands.drop_last().drop_last() =~= seq![]);
    }
    assert(all =~= near + dead);
    assert forall|i: int| 0 <= i < dead.len() implies (#[trigger] dead[i]) < 52
        && !royal_cards().contains(dead[i]) by {
        assert(dead.contains(dead[i]));
    }
    assert forall|i: int, j: int| 0 <= i < near.len() && 0 <= j < dead.len() implies near[i]
        != dead[j] by {
        assert(royal_cards()[i] == near[i]);
    }
    assert(equity::are_distinct(all));
    equity::law_unseen_cards(all);
    runouts::law_unseen_cards_are_rising(all);
    let left = equity::unseen_cards(all);
    assert forall|c: u8| c == 34 || c == 35 implies left.contains(c) by {
        if all.contains(c) {
            let i = all.index_of(c);
            if i < 8 {
                assert(near[i] == c);
            } else {
                assert(dead[i - 8] == c);
                assert(royal_cards()[8] == 34 && royal_cards()[9] == 35);
            }
        }
    }
    assert(left.contains(34) && left.contains(35));
    let (i, j) = (left.index_of(34), left.index_of(35));
    assert(left[i] == 34 && left[j] == 35);
    assert(left =~= seq![34u8, 35]);
}

/// A royal flush scores as one.
proof fn lemma_royal(cards: Seq<u8>, s: int)
    requires
        strength::is_hand(cards),
        0 <= s < 4,
        forall|r: int| 8 <= r <= 12 ==> cards.contains(#[trigger] card::code(r, s)),
    ensures
        eval::hand_score(cards) >= eval::packed(STRAIGHT_FLUSH, seq![12int]),
{
    strength::law_score_is_the_strongest_hand_shown(cards);
    assert(cards.contains(card::code(12, s)) && cards.contains(card::code(11, s)));
    assert(cards.contains(card::code(10, s)) && cards.contains(card::code(9, s)));
    assert(cards.contains(card::code(8, s)));
    assert(ranks::has_run(eval::suited_ranks(cards, s), 12));
    assert(strength::shows(cards, STRAIGHT_FLUSH, seq![12int]));
}

/// Where no suit has a run, no royal flush is scored.
proof fn lemma_no_royal(cards: Seq<u8>)
    requires
        strength::is_hand(cards),
        forall|s: int, r: int|
            0 <= s < 4 && 3 <= r <= 12 ==> !#[trigger] ranks::has_run(
                eval::suited_ranks(cards, s),
                r,
            ),
    ensures
        eval::hand_score(cards) < eval::packed(STRAIGHT_FLUSH, seq![12int]),
{
    let cat = strength::hand_category(cards);
    let d = strength::hand_digits(cards);
    strength::lemma_score_is_shown(cards);
    strength::lemma_score_parts(cards);
    strength::lemma_shown_digits(cards, cat, d);
    strength::law_scores_compare_slot_by_slot(cat, d, STRAIGHT_FLUSH, seq![12int]);
    if cat == STRAIGHT_FLUSH {
        let s = choose|s: int|
            0 <= s < 4 && ranks::has_run(#[trigger] eval::suited_ranks(cards, s), d[0]);
        assert(ranks::has_run(eval::suited_ranks(cards, s), d[0]));
    }
}

/// The hand whose ten comes wins.
proof fn lemma_ten_decides(ten: u8, own: u8, other: u8)
    requires
        ten == 34 || ten == 35,
        own == ten - 32,
        other == 5 - own,
    ensures
        ({
            let board = royal_board().push(ten);
            eval::hand_score(board + seq![(48 + own) as u8, (44 + own) as u8]) > eval::hand_score(
                board + seq![(48 + other) as u8, (44 + other) as u8],
            )
        }),
{
    let board = royal_board().push(ten);
    let best = board + seq![(48 + own) as u8, (44 + own) as u8];
    let rest = board + seq![(48 + other) as u8, (44 + other) as u8];
    assert(best[0] == 43 && best[1] == 39 && best[2] == 42 && best[3] == 38 && best[4] == ten);
    assert(best[5] == 48 + own && best[6] == 44 + own);
    assert(rest[0] == 43 && rest[1] == 39 && rest[2] == 42 && rest[3] == 38 && rest[4] == ten);
    assert(rest[5] == 48 + other && rest[6] == 44 + other);
    assert(strength::is_hand(best));
    assert(strength::is_hand(rest));
    assert forall|r: int| 8 <= r <= 12 implies best.contains(
        #[trigger] card::code(r, own as int),
    ) by {
        assert(best.contains(best[0]) && best.contains(best[1]) && best.contains(best[2]));
        assert(best.contains(best[3]) && best.contains(best[4]) && best.contains(best[5]));
        assert(best.contains(best[6]));
        assert(r == 8 || r == 9 || r == 10 || r == 11 || r == 12);
    }
    lemma_royal(best, own as int);
    assert forall|s: int, r: int|
        0 <= s < 4 && 3 <= r <= 12 implies !#[trigger] ranks::has_run(
        eval::suited_ranks(rest, s),
        r,
    ) by {
        if ranks::has_run(eval::suited_ranks(rest, s), r) {
            let i = rest.index_of(card::code(r, s));
            let l = rest.index_of(card::code(r - 3, s));
            assert(rest[i] == 4 * r + s && rest[l] == 4 * (r - 3) + s);
            if r == 12 {
                let m = rest.index_of(card::code(8, s));
                assert(rest[m] == ten && s == own);
                assert(rest[i] == 48 + own);
            }
        }
    }
    lemma_no_royal(rest);
}

/// What one showdown of two hands counts for the first.
proof fn lemma_one_showdown(row: Seq<int>)
    requires
        row.len() == 2,
        row[0] != row[1],
    ensures
        tally::tally_of(seq![row], 2).wins[0] == if row[0] > row[1] {
            1int
        } else {
            0int
        },
{
    reveal_with_fuel(tally::tally_of, 2);
    reveal_with_fuel(tally::best_count, 3);
    assert(seq![row].drop_last() =~= seq![]);
}

/// The seed matters: there are hands for which sampling from different seeds
/// counts differently.
pub proof fn law_some_seeds_sample_differently()
    ensures
        exists|hands: Seq<(u8, u8)>, board: Seq<u8>, dead: Seq<u8>, trials: u64, a: u64, b: u64|
            hands.len() >= 2 && equity::can_be_dealt(hands, board, dead) && #[trigger]
                sampled_tally(hands, board, dead, trials, a) != #[trigger] sampled_tally(
                hands,
                board,
                dead,
                trials,
                b,
            ),
{
    let (hands, board, dead) = (royal_draws(), royal_board(), royal_dead());
    lemma_royal_deck();
    lemma_first_word_from_one();
    lemma_first_word_from_two();
    lemma_first_draw(1, 2);
    lemma_first_draw(2, 2);
    lemma_one_sample(1, 35, 3, 2);
    lemma_one_sample(2, 34, 2, 3);
    assert(sampled_tally(hands, board, dead, 1, 1).wins[0] == 1);
    assert(sampled_tally(hands, board, dead, 1, 2).wins[0] == 0);
}

/// A sample of one board is won by the hand whose ten comes.
proof fn lemma_one_sample(seed: u64, ten: u8, own: u8, other: u8)
    requires
        ten == 34 || ten == 35,
        own == ten - 32,
        other == 5 - own,
        rng::draw(rng::seeded(seed), 2).0 == ten - 34,
    ensures
        sampled_tally(royal_draws(), royal_board(), royal_dead(), 1, seed).wins[0] == if ten
            == 35 {
            1int
        } else {
            0int
        },
{
    let (hands, board, dead) = (royal_draws(), royal_board(), royal_dead());
    let cards = seq![34u8, 35];
    let s = rng::seeded(seed);
    lemma_royal_deck();
    lemma_ten_decides(ten, own, other);
    reveal_with_fuel(equity::drawn, 2);
    reveal_with_fuel(equity::redrawn, 2);
    assert(equity::redrawn(cards, s, 1, 1).0.take(1) =~= seq![ten]);
    assert(board + seq![ten] =~= board.push(ten));
    let row = equity::showdown(hands, board.push(ten));
    assert(row[0] == eval::hand_score(board.push(ten) + seq![51u8, 47]));
    assert(row[1] == eval::hand_score(board.push(ten) + seq![50u8, 46]));
    assert(equity::sampled_showdowns(hands, board, cards, s, 1) =~= seq![row]);
    lemma_one_showdown(row);
}

} // verus!
