use poker_engine::card::cards_to_string;
use poker_engine::deck::{Deck, Rng};

#[test]
fn shuffle_is_a_permutation() {
    let mut d = Deck::new(12345);
    d.shuffle();
    let mut seen = [false; 52];
    for &c in d.deal(52) {
        assert!(c < 52);
        assert!(!seen[c as usize], "card {c} dealt twice");
        seen[c as usize] = true;
    }
}

#[test]
fn same_seed_same_shuffle() {
    let mut a = Deck::new(99);
    let mut b = Deck::new(99);
    a.shuffle();
    b.shuffle();
    assert_eq!(a.deal(52), b.deal(52));
}

#[test]
fn different_seeds_differ() {
    let mut a = Deck::new(1);
    let mut b = Deck::new(2);
    a.shuffle();
    b.shuffle();
    assert_ne!(a.deal(52), b.deal(52));
}

#[test]
fn remove_takes_cards_out_of_play() {
    let mut d = Deck::new(7);
    d.shuffle();
    let blocked = [0u8, 51, 25];
    d.remove(&blocked);
    assert_eq!(d.remaining(), 49);
    for &c in d.deal(49) {
        assert!(!blocked.contains(&c), "removed card {c} was still dealt");
    }
}

#[test]
fn below_stays_in_range() {
    let mut r = Rng::new(4242);
    for n in 1..=52u64 {
        for _ in 0..200 {
            assert!(r.below(n) < n);
        }
    }
}

#[test]
fn the_generator_gives_these_words() {
    let words = |seed: u64| {
        let mut r = Rng::new(seed);
        [r.next_u64(), r.next_u64(), r.next_u64()]
    };
    assert_eq!(words(0), [0x53175d61490b23df, 0x61da6f3dc380d507, 0x5c0fdf91ec9a7bfc]);
    assert_eq!(words(1), [0xcfc5d07f6f03c29b, 0xbf424132963fe08d, 0x19a37d5757aaf520]);
    assert_eq!(words(4242), [0x5b06207ef7e5323d, 0x25efe251df939743, 0xb3e7b35411de47bd]);
}

#[test]
fn below_gives_these_rolls() {
    let mut r = Rng::new(42);
    let rolls: Vec<u64> = (0..12).map(|_| r.below(6)).collect();
    assert_eq!(rolls, vec![1, 5, 0, 4, 5, 1, 2, 0, 3, 4, 2, 5]);
}

#[test]
fn below_rejects_words_past_the_last_whole_round() {
    // About half of all words are drawn again.
    let mut r = Rng::new(9);
    let n = (1u64 << 63) + 1;
    assert_eq!(r.below(n), 7927237411517153328);
    assert_eq!(r.below(n), 3664442462039124215);
    assert_eq!(r.below(n), 1272461461737519393);
}

#[test]
fn below_one_is_nothing() {
    let mut r = Rng::new(3);
    for _ in 0..10 {
        assert_eq!(r.below(1), 0);
    }
}

#[test]
fn a_fresh_deck_is_in_order() {
    let mut d = Deck::new(5);
    assert_eq!(d.remaining(), 52);
    let expected: Vec<u8> = (0..52).collect();
    assert_eq!(d.deal(52), &expected[..]);
    assert_eq!(d.remaining(), 0);
}

#[test]
fn a_shuffle_gives_this_order() {
    let mut d = Deck::new(7);
    d.shuffle();
    assert_eq!(
        cards_to_string(d.deal(52)),
        "6h Ts 3h 4s Kd Th 4h 5h 6s Jd Jh 9d 3d 9h Ks Qs Kh 3s 5c 2s 2c 2h 4d 7s Js Qh 5s 8h 9s \
         5d 6c 7c As Kc Jc Qd 4c 8d Ad Ah Tc 7d Ac 2d 8s 3c 8c 7h Qc 9c 6d Td"
    );
}

#[test]
fn dealing_goes_on_where_it_stopped() {
    let mut a = Deck::new(7);
    let mut b = Deck::new(7);
    a.shuffle();
    b.shuffle();
    let all: Vec<u8> = a.deal(10).to_vec();
    assert_eq!(b.deal(0).len(), 0);
    assert_eq!(b.deal_one(), all[0]);
    assert_eq!(b.deal(4), &all[1..5]);
    assert_eq!(b.deal_one(), all[5]);
    assert_eq!(b.remaining(), 46);
    assert_eq!(b.deal(4), &all[6..10]);
}

#[test]
fn shuffling_brings_dealt_cards_back() {
    let mut d = Deck::new(11);
    d.shuffle();
    d.deal(30);
    d.shuffle();
    assert_eq!(d.remaining(), 52);
    let mut cards = d.deal(52).to_vec();
    cards.sort();
    assert_eq!(cards, (0..52).collect::<Vec<u8>>());
}

#[test]
fn removing_a_card_that_is_gone_changes_nothing() {
    let mut d = Deck::new(7);
    d.shuffle();
    let gone = d.deal_one();
    d.remove(&[gone, 52, 200]);
    assert_eq!(d.remaining(), 51);
    d.remove(&[3, 3]);
    assert_eq!(d.remaining(), 50);
    assert!(!d.deal(50).contains(&3));
}

#[test]
fn a_removed_card_changes_places_with_the_next() {
    let mut d = Deck::new(0);
    d.remove(&[5]);
    assert_eq!(d.deal(6), &[1, 2, 3, 4, 0, 6]);
}

#[test]
fn every_card_comes_out_first_about_as_often() {
    let mut d = Deck::new(2025);
    let mut first = [0u32; 52];
    for _ in 0..52_000 {
        d.shuffle();
        first[d.deal_one() as usize] += 1;
    }
    assert!(first.iter().all(|&n| (800..1200).contains(&n)), "{first:?}");
}

#[test]
fn three_cards_come_in_every_order() {
    // The lowest three places of a shuffle: six orders of the same three cards.
    let mut r = Rng::new(31);
    let mut seen = [0u32; 6];
    for _ in 0..6_000 {
        let j = r.below(3);
        let k = r.below(2);
        seen[(2 * j + k) as usize] += 1;
    }
    assert!(seen.iter().all(|&n| (800..1200).contains(&n)), "{seen:?}");
}

#[test]
fn seeds_next_to_each_other_start_apart() {
    let mut seen: Vec<[u64; 4]> = Vec::new();
    for seed in 0..2000 {
        let mut rng = Rng::new(seed);
        let words = [rng.next_u64(), rng.next_u64(), rng.next_u64(), rng.next_u64()];
        assert!(!seen.contains(&words));
        seen.push(words);
    }
}

#[test]
fn removal_counts_different_undealt_cards() {
    let mut d = Deck::new(9);
    d.deal(4); // the cards 0 to 3
    d.remove(&[2, 10, 10, 51, 60, 10, 51]);
    assert_eq!(d.remaining(), 46);
    d.remove(&[2, 10, 10, 51, 60, 10, 51]);
    assert_eq!(d.remaining(), 46);
    let rest: Vec<u8> = d.deal(46).to_vec();
    assert!(rest.iter().all(|&c| c > 3 && c != 10 && c != 51));
}

#[test]
fn removing_twice_leaves_the_order_alone() {
    let (mut a, mut b) = (Deck::new(9), Deck::new(9));
    a.shuffle();
    b.shuffle();
    a.remove(&[5, 40, 17, 5]);
    b.remove(&[5, 40, 17, 5]);
    b.remove(&[5, 40, 17, 5]);
    assert_eq!(a.remaining(), 49);
    assert_eq!(a.deal(49), b.deal(49));
}
