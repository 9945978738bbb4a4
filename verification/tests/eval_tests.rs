use poker_engine::card::parse_many;
use poker_engine::eval::{
    category, describe, eval, CATEGORY_NAMES, FLUSH, FULL_HOUSE, HIGH_CARD, PAIR, QUADS, STRAIGHT,
    STRAIGHT_FLUSH, TRIPS, TWO_PAIR,
};

fn e(s: &str) -> u32 {
    eval(&parse_many(s).unwrap())
}

#[test]
fn categories_are_detected() {
    assert_eq!(category(e("AsKsQsJsTs")), STRAIGHT_FLUSH);
    assert_eq!(category(e("5s4s3s2sAs")), STRAIGHT_FLUSH);
    assert_eq!(category(e("7c7d7h7s2c")), QUADS);
    assert_eq!(category(e("7c7d7hKsKc")), FULL_HOUSE);
    assert_eq!(category(e("As9s7s4s2s")), FLUSH);
    assert_eq!(category(e("9c8d7h6s5c")), STRAIGHT);
    assert_eq!(category(e("5c4d3h2sAc")), STRAIGHT);
    assert_eq!(category(e("7c7d7hKs2c")), TRIPS);
    assert_eq!(category(e("7c7dKhKs2c")), TWO_PAIR);
    assert_eq!(category(e("7c7dKhQs2c")), PAIR);
    assert_eq!(category(e("Ac9d7h4s2c")), HIGH_CARD);
}

#[test]
fn category_ordering_holds() {
    let ladder = [
        e("Ac9d7h4s2c"), // high card
        e("7c7dKhQs2c"), // pair
        e("7c7dKhKs2c"), // two pair
        e("7c7d7hKs2c"), // trips
        e("9c8d7h6s5c"), // straight
        e("As9s7s4s2s"), // flush
        e("7c7d7hKsKc"), // full house
        e("7c7d7h7s2c"), // quads
        e("AsKsQsJsTs"), // straight flush
    ];
    for w in ladder.windows(2) {
        assert!(w[0] < w[1], "{:#x} should rank below {:#x}", w[0], w[1]);
    }
}

#[test]
fn wheel_is_the_weakest_straight() {
    assert!(e("5c4d3h2sAc") < e("6c5d4h3s2c"));
    assert!(e("5s4s3s2sAs") < e("6s5s4s3s2s"));
}

#[test]
fn ace_high_straight_beats_king_high() {
    assert!(e("AcKdQhJsTc") > e("KcQdJhTs9c"));
}

#[test]
fn seven_cards_pick_the_best_five() {
    // Board pairs the board; the flush is still the hand.
    assert_eq!(category(e("As9s7s4s2s 8h8d")), FLUSH);
    // Straight present alongside a pair: the straight plays.
    assert_eq!(category(e("9c8d7h6s5c 5d2h")), STRAIGHT);
    // Two sets of trips make a full house, higher set on top.
    let h = e("7c7d7h 5s5d5c 2h");
    assert_eq!(category(h), FULL_HOUSE);
    assert_eq!(h, e("7c7d7h5s5d2h3c"));
}

#[test]
fn kickers_matter() {
    assert!(e("7c7dAh4s2c") > e("7c7dKh4s2c"));
    assert!(e("7c7d7hAs2c") > e("7c7d7hKs2c"));
    assert!(e("Ac7d7hKsKc") > e("2c7d7hKsKc"));
    // Third pair supplies the kicker in a three-pair seven-card hand.
    assert!(e("AcAdKcKd9c9d2h") > e("AcAdKcKd8c8d2h"));
}

#[test]
fn suits_never_break_ties() {
    assert_eq!(e("AcKd9h7s5c"), e("AsKh9d7c5s"));
}

#[test]
fn quads_beat_a_lower_full_house_and_flushes() {
    assert!(e("2c2d2h2sAc") > e("AcAdAhKsKc"));
    assert!(e("2c2d2h2sAc") > e("AsQsTs8s6s"));
}

#[test]
fn flush_uses_its_five_best() {
    // Six spades: the deuce must be dropped.
    assert_eq!(e("AsKs9s7s5s2s 3h"), e("AsKs9s7s5s 3h4d"));
}

#[test]
fn every_seven_card_hand_is_evaluable() {
    // Exhaustive-ish smoke test: walk a lot of distinct 7-card sets and
    // confirm nothing panics and every score decodes to a real category.
    let mut n = 0u64;
    for a in 0..52u8 {
        for b in (a + 1)..52u8 {
            let cards =
                [a, b, (a + 7) % 52, (b + 13) % 52, (a + 23) % 52, (b + 31) % 52, (a + 41) % 52];
            let mut seen = [false; 52];
            if cards.iter().any(|&c| std::mem::replace(&mut seen[c as usize], true)) {
                continue; // skip generated duplicates
            }
            let s = eval(&cards);
            assert!(category(s) <= STRAIGHT_FLUSH);
            n += 1;
        }
    }
    assert!(n > 500, "expected a meaningful number of samples, got {n}");
}

#[test]
fn scores_are_packed_rank_by_rank() {
    assert_eq!(e("AsKsQsJsTs"), 0x8c0000);
    assert_eq!(e("5s4s3s2sAs"), 0x830000);
    assert_eq!(e("7c7d7h7s2c"), 0x750000);
    assert_eq!(e("7c7d7hKsKc"), 0x65b000);
    assert_eq!(e("As9s7s4s2s 8h8d"), 0x5c7520);
    assert_eq!(e("5c4d3h2sAc"), 0x430000);
    assert_eq!(e("7c7d7hKs2c"), 0x35b000);
    assert_eq!(e("AcAdKcKd9c9d2h"), 0x2cb700);
    assert_eq!(e("7c7dKhQs2c"), 0x15ba00);
    assert_eq!(e("Ac9d7h4s2c"), 0x0c7520);
}

#[test]
fn five_and_six_cards_are_enough() {
    assert_eq!(e("As9s7s4s2s"), e("As9s7s4s2s 8h"));
    assert_eq!(category(e("9c8d7h6s5c 9d")), STRAIGHT);
    assert_eq!(category(e("9c9d7h7s5c 5d")), TWO_PAIR);
}

#[test]
fn descriptions_name_the_category() {
    assert_eq!(describe(e("Ac9d7h4s2c")), "high card");
    assert_eq!(describe(e("7c7d7hKsKc")), "full house");
    assert_eq!(describe(e("AsKsQsJsTs")), "straight flush");
    for (i, name) in CATEGORY_NAMES.iter().enumerate() {
        assert_eq!(describe((i as u32) << 20), *name);
    }
}

#[test]
fn a_score_is_that_of_the_best_five_cards() {
    for text in ["AcAdKcKd9c9d2h", "As9s7s4s2s8h8d", "7c7d7h5s5d5c2h", "5c4d3h2sAcAdAh", "6c5d4h3s2cAcAd"] {
        let cards = parse_many(text).unwrap();
        let mut best = 0;
        for i in 0..7 {
            for j in 0..i {
                let five: Vec<u8> = (0..7).filter(|&k| k != i && k != j).map(|k| cards[k]).collect();
                best = best.max(eval(&five));
            }
        }
        assert_eq!(eval(&cards), best, "{text}");
    }
}

#[test]
fn the_order_of_cards_does_not_matter() {
    let mut cards = parse_many("AcAdKcKd9c9d2h").unwrap();
    let score = eval(&cards);
    for _ in 0..7 {
        cards.rotate_left(1);
        assert_eq!(eval(&cards), score);
        cards.swap(0, 3);
        assert_eq!(eval(&cards), score);
    }
}

#[test]
fn a_flush_rules_out_quads_and_full_houses() {
    // The most that can pair up beside a flush is two ranks once each, or one
    // rank three times.
    assert_eq!(category(e("As9s7s4s2s 9h9d")), FLUSH);
    assert_eq!(category(e("As9s7s4s2s Ah9d")), FLUSH);
    assert_eq!(category(e("9s8s7s6s5s 9h9d")), STRAIGHT_FLUSH);
}

#[test]
fn five_cards_compare_by_category_then_frequency_then_rank() {
    // Weakest first; hands on one line score alike.
    let ladder: [&[&str]; 12] = [
        &["7c5d4h3s2c", "7s5c4d3h2s"],
        &["Ac9d7h4s2c", "As9h7d4c2h"],
        &["2c2dAhKsQc", "2h2sAcKdQh"],
        &["3c3d4h5s6c"],
        &["3c3d2h2sAc", "3h3s2c2dAd"],
        &["4c4d4hAsKc"],
        &["5c4d3h2sAc", "5s4h3d2cAs"],
        &["6c5d4h3s2c"],
        &["7s5s4s3s2s", "7h5h4h3h2h"],
        &["2c2d2hAsAc"],
        &["2c2d2h2sAc"],
        &["5s4s3s2sAs", "5c4c3c2cAc"],
    ];
    for (i, alike) in ladder.iter().enumerate() {
        for a in alike.iter() {
            for (j, other) in ladder.iter().enumerate() {
                for b in other.iter() {
                    assert_eq!(e(a) < e(b), i < j, "{a} {b}");
                    assert_eq!(e(a) == e(b), i == j, "{a} {b}");
                }
            }
        }
    }
    // The same ranks, of one suit and not.
    assert!(e("7s5s4s3s2s") > e("7c5d4h3s2c"));
}
