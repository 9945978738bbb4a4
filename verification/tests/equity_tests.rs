use poker_engine::card::{parse, parse_many};
use poker_engine::equity::{
    exact, monte_carlo, range_vs_range, range_vs_range_exact, try_range_vs_range, Equity, Range,
    Share, POT_UNITS,
};

/// A share as a fraction of the pot.
fn part(share: Share) -> f64 {
    share.won as f64 / share.of as f64
}

fn parts(eq: &Equity) -> Vec<f64> {
    eq.shares().into_iter().map(part).collect()
}

fn hand(s: &str) -> [u8; 2] {
    let c = parse_many(s).unwrap();
    assert_eq!(c.len(), 2, "`{s}` is not two cards");
    [c[0], c[1]]
}

fn board(s: &str) -> Vec<u8> {
    parse_many(s).unwrap()
}

fn close(a: f64, b: f64, tol: f64, what: &str) {
    assert!((a - b).abs() <= tol, "{what}: {a:.5} vs {b:.5}, tolerance {tol}");
}

#[test]
fn a_full_board_leaves_nothing_to_chance() {
    // Royal flush against trip aces, everything already dealt.
    let eq = exact(
        &[hand("JsTs"), hand("AcAd")],
        &board("AsKsQs2h3d"),
        &[],
    );
    assert_eq!(eq.trials, 1);
    assert_eq!(part(eq.share(0)), 1.0);
    assert_eq!(part(eq.share(1)), 0.0);
    assert_eq!(eq.wins, vec![1, 0]);
}

#[test]
fn playing_the_board_splits() {
    // The board is a royal; neither hole card matters.
    let eq = exact(&[hand("2c3c"), hand("4d5d")], &board("AsKsQsJsTs"), &[]);
    assert_eq!(eq.trials, 1);
    assert_eq!(parts(&eq), vec![0.5, 0.5]);
    assert_eq!(eq.ties, vec![1, 1]);
    assert_eq!(eq.wins, vec![0, 0]);
}

#[test]
fn drawing_dead_is_exactly_zero() {
    // Seat 0 already holds the royal on the turn, so the river is noise.
    // 52 - 4 board - 4 hole = 44 runouts.
    let eq = exact(&[hand("Ts9d"), hand("2c3c")], &board("AsKsQsJs"), &[]);
    assert_eq!(eq.trials, 44);
    assert_eq!(part(eq.share(0)), 1.0);
    assert_eq!(part(eq.share(1)), 0.0);
}

#[test]
fn shares_always_sum_to_one() {
    let eq = exact(
        &[hand("AsAh"), hand("KsKd"), hand("7c2d")],
        &board("2s7h9c"),
        &[],
    );
    let total: f64 = parts(&eq).iter().sum();
    close(total, 1.0, 1e-9, "three-way shares");
}

#[test]
fn aces_over_kings_matches_the_published_equities() {
    // Checked against the standard equity tables rather than against our
    // own output, which is the only way a test like this says anything.
    // AA over KK is quoted as 81.25% to 82.64% depending on suits, and all
    // three configurations are pinned here because the spread is the part
    // that exercises suit handling.
    //
    // The direction is worth stating, because the intuition runs backwards:
    // sharing a suit with the kings *helps* the aces. In a shared suit the
    // aces hold the nut flush card, so both players draw to a flush only
    // one of them can win. Disjoint suits give the kings two clean flush
    // suits of their own, and that is the aces' worst case.
    let both = exact(&[hand("AsAh"), hand("KsKh")], &[], &[]);
    let one = exact(&[hand("AsAh"), hand("KsKd")], &[], &[]);
    let none = exact(&[hand("AsAh"), hand("KcKd")], &[], &[]);

    assert_eq!(one.trials, 1_712_304, "C(48, 5) boards");
    close(part(both.share(0)), 0.8264, 0.0005, "AA vs KK, both suits shared");
    close(part(one.share(0)), 0.8195, 0.0005, "AA vs KK, one suit shared");
    close(part(none.share(0)), 0.8126, 0.0005, "AA vs KK, no suit shared");
    close(part(one.share(0)) + part(one.share(1)), 1.0, 1e-9, "heads-up shares");

    assert!(
        part(both.share(0)) > part(one.share(0)) && part(one.share(0)) > part(none.share(0)),
        "every shared suit should be worth equity to the aces"
    );
}

#[test]
fn a_range_averages_over_its_suit_configurations() {
    // Six aces combos against six kings combos: one pairing shares both
    // suits, four share one, and one shares none. Averaging the three
    // enumerated figures above must reproduce what sampling the ranges
    // gives, which ties `range_vs_range` back to `exact`.
    let expected = (0.8264 + 4.0 * 0.8195 + 0.8126) / 6.0;
    let ranges = [Range::parse("AA").unwrap(), Range::parse("KK").unwrap()];
    let sampled = range_vs_range(&ranges, &[], &[], 400_000, 17);
    close(part(sampled.share(0)), expected, 0.003, "AA range vs KK range");
}

#[test]
fn monte_carlo_converges_on_the_exact_answer() {
    // Flop, so the exact side is only C(45, 2) = 990 boards.
    let hands = [hand("AsAh"), hand("KsKd")];
    let b = board("2s7h9c");
    let truth = exact(&hands, &b, &[]);
    assert_eq!(truth.trials, 990);
    let sampled = monte_carlo(&hands, &b, &[], 200_000, 99);
    close(part(sampled.share(0)), part(truth.share(0)), 0.005, "sampled vs exact");
}

#[test]
fn the_seed_is_the_only_source_of_randomness() {
    let hands = [hand("AsAh"), hand("KsKd")];
    let a = monte_carlo(&hands, &[], &[], 5_000, 7);
    let b = monte_carlo(&hands, &[], &[], 5_000, 7);
    let c = monte_carlo(&hands, &[], &[], 5_000, 8);
    assert_eq!(a, b, "same seed must replay exactly");
    assert_ne!(a, c, "different seeds must not");
}

#[test]
fn dead_cards_change_the_answer() {
    // Seat 1 holds one card to a flush draw on a two-spade flop. Burning
    // the two remaining spades as dead cards kills the draw outright, so
    // its equity has to fall.
    let hands = [hand("AcAd"), hand("Ks9s")];
    let b = board("2s7s9c");
    let live = exact(&hands, &b, &[]);
    let choked = exact(&hands, &b, &parse_many("4s6s").unwrap());
    assert!(
        part(choked.share(1)) < part(live.share(1)) - 0.02,
        "removing the case spades should cost seat 1 real equity: {:.4} vs {:.4}",
        part(choked.share(1)),
        part(live.share(1))
    );
}

#[test]
fn range_notation_expands_to_the_right_combo_counts() {
    let n = |s: &str| Range::parse(s).unwrap().len();
    assert_eq!(n("AA"), 6);
    assert_eq!(n("AKs"), 4);
    assert_eq!(n("AKo"), 12);
    assert_eq!(n("AK"), 16);
    assert_eq!(n("AsKh"), 1);
    assert_eq!(n("TT+"), 30, "TT JJ QQ KK AA");
    assert_eq!(n("AJs+"), 12, "AJs AQs AKs");
    assert_eq!(n("77-99"), 18, "77 88 99");
    assert_eq!(n("AJs-A9s"), 12, "A9s ATs AJs");
    assert_eq!(n("AA, KK"), 12);
    assert_eq!(Range::all().len(), 1326);
}

#[test]
fn range_notation_is_order_and_duplicate_insensitive() {
    assert_eq!(Range::parse("AA, AA").unwrap().len(), 6, "duplicates collapse");
    assert_eq!(Range::parse("AKs").unwrap(), Range::parse("KAs").unwrap());
    assert_eq!(Range::parse("AA,KK").unwrap(), Range::parse("KK AA").unwrap());
    assert_eq!(Range::parse("99-77").unwrap(), Range::parse("77-99").unwrap());
    // An explicit combo is just a one-combo range and merges with a class.
    assert_eq!(Range::parse("AA, AsAh").unwrap().len(), 6);
}

#[test]
fn range_notation_rejects_nonsense() {
    for bad in ["AAs", "AAo", "XX", "A", "AKx", "T9s-76s", "AA-AKs", "AsAs"] {
        assert!(Range::parse(bad).is_err(), "`{bad}` should not parse");
    }
}

#[test]
fn card_removal_prunes_a_range() {
    let aces = Range::parse("AA").unwrap();
    assert_eq!(aces.without(&[parse("As").unwrap()]).len(), 3);
    assert_eq!(aces.without(&parse_many("AsAh").unwrap()).len(), 1);
    assert_eq!(aces.without(&parse_many("AsAhAd").unwrap()).len(), 0);
    // A card that is not in the range changes nothing.
    assert_eq!(aces.without(&[parse("2c").unwrap()]).len(), 6);
}

#[test]
fn single_combo_ranges_reduce_to_specific_hands() {
    let b = board("2s7h9c");
    let direct = monte_carlo(&[hand("AsAh"), hand("KsKd")], &b, &[], 100_000, 5);
    let viaranges = range_vs_range(
        &[Range::parse("AsAh").unwrap(), Range::parse("KsKd").unwrap()],
        &b,
        &[],
        100_000,
        5,
    );
    close(part(viaranges.share(0)), part(direct.share(0)), 0.006, "range path vs hand path");
}

#[test]
fn rejection_sampling_matches_exact_enumeration() {
    // The real test of the restart-on-conflict rule. Sampling only the
    // clashing player instead would skew these ranges against each other,
    // because every ace in one range blocks combos in the other.
    let ranges = [Range::parse("AA").unwrap(), Range::parse("AKs, KK").unwrap()];
    let b = board("2s7h9cTd");
    let truth = range_vs_range_exact(&ranges, &b, &[]);
    let sampled = range_vs_range(&ranges, &b, &[], 300_000, 11);
    close(part(sampled.share(0)), part(truth.share(0)), 0.005, "sampled vs enumerated");
}

#[test]
fn identical_ranges_split_evenly() {
    let ranges = [Range::parse("AA").unwrap(), Range::parse("AA").unwrap()];
    let eq = range_vs_range(&ranges, &[], &[], 20_000, 3);
    close(part(eq.share(0)), 0.5, 0.02, "symmetric ranges");
}

#[test]
fn ranges_that_cannot_be_dealt_together_are_an_error() {
    let ranges = [Range::parse("AsAh").unwrap(), Range::parse("AsAh").unwrap()];
    let boom = try_range_vs_range(&ranges, &[], &[], 1, 1);
    assert!(boom.is_none(), "two players cannot both hold AsAh");
}

#[test]
fn an_enumeration_counts_these_boards() {
    let eq = exact(&[hand("AsAh"), hand("KsKd"), hand("7c2d")], &board("2s7h9c"), &[]);
    assert_eq!(eq.trials, 903);
    assert_eq!(eq.wins, vec![230, 79, 594]);
    assert_eq!(eq.ties, vec![0, 0, 0]);
    assert_eq!(eq.equity, vec![230 * POT_UNITS, 79 * POT_UNITS, 594 * POT_UNITS]);
    assert_eq!(eq.players(), 3);
    assert_eq!(eq.share(2), Share { won: 594 * POT_UNITS, of: 903 * POT_UNITS });
}

#[test]
fn ties_share_the_pot() {
    let eq = exact(&[hand("AcKd"), hand("AdKc")], &board("2s7h9cTd"), &[]);
    assert_eq!(eq.trials, 44);
    assert_eq!(eq.wins, vec![0, 0]);
    assert_eq!(eq.ties, vec![44, 44]);
    assert_eq!(eq.equity, vec![22 * POT_UNITS, 22 * POT_UNITS]);
}

#[test]
fn a_pot_can_be_split_evenly_among_all_players() {
    // The board plays for everyone.
    let names = [
        "2c2d", "2h3c", "3d3h", "4c4d", "4h5c", "5d5h", "6c6d", "6h7c", "7d7h", "8c8d", "8h9c",
        "9d9h", "TcTd", "ThJc", "JdJh", "QcQd", "QhKc", "KdKh", "AcAd", "Ah2s", "3s4s", "5s6s",
        "7s8s",
    ];
    for n in 2..=23 {
        let hands: Vec<[u8; 2]> = names[..n].iter().map(|s| hand(s)).collect();
        let eq = exact(&hands, &board("AsKsQsJsTs"), &[]);
        assert_eq!(eq.trials, 1);
        assert_eq!(eq.ties, vec![1; n]);
        assert_eq!(eq.equity, vec![POT_UNITS / n as u128; n]);
        assert_eq!(eq.equity.iter().sum::<u128>(), POT_UNITS);
    }
}

#[test]
fn sampling_draws_these_boards() {
    let eq = monte_carlo(&[hand("AsAh"), hand("KsKd")], &board("2s7h9c"), &[], 300, 5);
    assert_eq!(eq.trials, 300);
    assert_eq!(eq.wins, vec![270, 30]);
    assert_eq!(eq.ties, vec![0, 0]);
}

#[test]
fn no_trials_are_worth_nothing() {
    let eq = monte_carlo(&[hand("AsAh"), hand("KsKd")], &[], &[], 0, 5);
    assert_eq!(eq.trials, 0);
    assert_eq!(eq.share(0), Share { won: 0, of: 1 });
    assert_eq!(parts(&eq), vec![0.0, 0.0]);
}

#[test]
fn sampling_a_full_board_repeats_the_one_showdown() {
    let eq = monte_carlo(&[hand("JsTs"), hand("AcAd")], &board("AsKsQs2h3d"), &[], 10, 1);
    assert_eq!(eq.wins, vec![10, 0]);
}

#[test]
fn pairs_of_holdings_are_counted_with_card_removal() {
    let ranges = [Range::parse("AA").unwrap(), Range::parse("AKs, KK").unwrap()];
    let b = board("2s7h9cTd");
    let eq = range_vs_range_exact(&ranges, &b, &[]);
    assert_eq!((eq.trials, eq.wins, eq.ties), (2112, vec![2040, 72], vec![0, 0]));
    let eq = range_vs_range_exact(&ranges, &b, &board("AcKd"));
    assert_eq!((eq.trials, eq.wins, eq.ties), (462, vec![453, 9], vec![0, 0]));
}

#[test]
fn ranges_are_sampled_with_card_removal() {
    let ranges = [Range::parse("AA").unwrap(), Range::parse("AKs, KK").unwrap()];
    let b = board("2s7h9cTd");
    let eq = range_vs_range(&ranges, &b, &[], 300, 11);
    assert_eq!((eq.trials, eq.wins, eq.ties), (300, vec![291, 9], vec![0, 0]));
    let eq = range_vs_range(&ranges, &b, &board("AcKd"), 300, 11);
    assert_eq!((eq.trials, eq.wins, eq.ties), (300, vec![292, 8], vec![0, 0]));
}

#[test]
fn ranges_of_one_combo_enumerate_as_hands() {
    let b = board("2s7h9cTd");
    let direct = exact(&[hand("AsAh"), hand("KsKd")], &b, &[]);
    let ranges = [Range::parse("AsAh").unwrap(), Range::parse("KsKd").unwrap()];
    assert_eq!(range_vs_range_exact(&ranges, &b, &[]), direct);
}

#[test]
fn equal_ranges_enumerate_evenly() {
    let ranges = [Range::parse("AA, KQs").unwrap(), Range::parse("KQs, AA").unwrap()];
    let eq = range_vs_range_exact(&ranges, &board("2s7h9cTd"), &[]);
    assert_eq!(eq.wins[0], eq.wins[1]);
    assert_eq!(eq.ties[0], eq.ties[1]);
    assert_eq!(eq.equity[0], eq.equity[1]);
}

#[test]
fn dealing_finds_out_whether_ranges_go_together() {
    let ranges = [Range::parse("AA").unwrap(), Range::parse("KK").unwrap()];
    let found = try_range_vs_range(&ranges, &[], &[], 200, 3);
    assert_eq!(found, Some(range_vs_range(&ranges, &[], &[], 200, 3)));
    let aces = Range::parse("AA").unwrap();
    let three = [aces.clone(), aces.clone(), aces];
    assert_eq!(try_range_vs_range(&three, &[], &[], 1, 3), None);
    assert_eq!(try_range_vs_range(&three, &[], &[], 0, 3).map(|eq| eq.trials), Some(0));
}

#[test]
fn too_few_cards_for_the_board_are_an_error() {
    // Forty-seven dead cards leave five: four for the hands, one for five places.
    let ranges = [Range::parse("AsAh").unwrap(), Range::parse("KsKh").unwrap()];
    let keep = board("AsAhKsKh2c");
    let dead: Vec<u8> = (0..52).filter(|c| !keep.contains(c)).collect();
    assert_eq!(try_range_vs_range(&ranges, &[], &dead, 1, 3), None);
}

#[test]
fn combos_are_listed_in_order() {
    let aces = Range::parse("AA").unwrap();
    assert_eq!(
        aces.combos(),
        &[[49, 48], [50, 48], [50, 49], [51, 48], [51, 49], [51, 50]]
    );
    assert!(!aces.is_empty());
    assert!(Range::parse("").unwrap().is_empty());
    assert_eq!(Range::parse(" , ,").unwrap().len(), 0);
    let all = Range::all();
    assert_eq!(all.combos()[0], [1, 0]);
    assert_eq!(all.combos()[1325], [51, 50]);
    assert!(all.combos().windows(2).all(|w| w[0] < w[1]));
    assert_eq!(
        Range::parse("AsKh, KhAs, AKo").unwrap(),
        Range::parse("akO").unwrap()
    );
}

#[test]
fn notation_means_these_combos() {
    let list = |s: &str| -> Vec<[u8; 2]> { Range::parse(s).unwrap().combos().to_vec() };
    assert_eq!(list("AsKh"), vec![[51, 46]]);
    assert_eq!(list("2c3d"), vec![[5, 0]]);
    assert_eq!(list("32s"), vec![[4, 0], [5, 1], [6, 2], [7, 3]]);
    assert_eq!(list("32").len(), 16);
    assert_eq!(list("AA+").len(), 6);
    assert_eq!(list("22+").len(), 78);
    assert_eq!(list("A2+").len(), 12 * 16);
    assert_eq!(list("AKs+"), list("AKs"));
    assert_eq!(list("K2o+").len(), 11 * 12);
    assert_eq!(list("77-JJ").len(), 30);
    assert_eq!(list("A9s-AJs"), list("AJs-A9s"));
    assert_eq!(list("JTs-J9s"), {
        let mut both = list("JTs");
        both.extend(list("J9s"));
        both.sort();
        both
    });
    let mut everything = Range::parse("22+").unwrap().len();
    for high in "3456789TJQKA".chars() {
        everything += list(&format!("{high}2+")).len();
    }
    assert_eq!(everything, 1326);
    assert_eq!(list("22+ 32+ 42+ 52+ 62+ 72+ 82+ 92+ T2+ J2+ Q2+ K2+ A2+"), Range::all().combos());
}

#[test]
fn each_fault_is_named() {
    let fault = |s: &str| Range::parse(s).unwrap_err();
    assert_eq!(fault("A"), "`A` is not a hand class like `AA`, `AKs`, or `T9o`");
    assert_eq!(fault("AKsx"), "`AKsx` is not a hand class like `AA`, `AKs`, or `T9o`");
    assert_eq!(fault("+"), "`` is not a hand class like `AA`, `AKs`, or `T9o`");
    assert_eq!(fault("-AA"), "`` is not a hand class like `AA`, `AKs`, or `T9o`");
    assert_eq!(fault("77-JJ-QQ"), "`JJ-QQ` is not a hand class like `AA`, `AKs`, or `T9o`");
    assert_eq!(fault("XA"), "`XA`: `X` is not a rank");
    assert_eq!(fault("A1s"), "`A1s`: `1` is not a rank");
    assert_eq!(fault("xy"), "`xy`: `x` is not a rank");
    assert_eq!(fault("AKX"), "`AKX` ends in `x`, expected `s` or `o`");
    assert_eq!(fault("AK?"), "`AK?` ends in `?`, expected `s` or `o`");
    assert_eq!(fault("AAs"), "`AAs`: a pair cannot be suited or offsuit");
    assert_eq!(fault("AAo+"), "`AAo`: a pair cannot be suited or offsuit");
    assert_eq!(fault("AKé"), "`AKé` is not ASCII");
    assert_eq!(fault("é"), "`é` is not ASCII");
    assert_eq!(fault("AsAs"), "`AsAs` uses the same card twice");
    assert_eq!(fault("AJs-A9o"), "`AJs-A9o` mixes suited and offsuit ends");
    assert_eq!(fault("AA-AK"), "`AA-AK` mixes pairs and non-pairs");
    assert_eq!(fault("AA-AKs"), "`AA-AKs` mixes suited and offsuit ends");
    assert_eq!(
        fault("T9s-76s"),
        "`T9s-76s`: both ends must share a high card, like `AJs-A9s`"
    );
    // The first fault is the one that is reported.
    assert_eq!(fault("AA, KKs QQ AKx"), "`KKs`: a pair cannot be suited or offsuit");
}

#[test]
fn card_removal_ignores_what_is_no_card() {
    let aces = Range::parse("AA").unwrap();
    assert_eq!(aces.without(&[52, 255]), aces);
    assert_eq!(aces.without(&[]), aces);
    let spadeless = aces.without(&[parse("As").unwrap()]);
    assert_eq!(spadeless.combos(), &[[49, 48], [50, 48], [50, 49]]);
}

#[test]
fn exchanged_ranges_exchange_what_is_counted() {
    let a = Range::parse("AA, KQs").unwrap();
    let b = Range::parse("TT+, AKo").unwrap();
    let board = board("2s7h9cTd");
    let one = range_vs_range_exact(&[a.clone(), b.clone()], &board, &[]);
    let two = range_vs_range_exact(&[b, a], &board, &[]);
    assert_eq!(one.trials, two.trials);
    assert_eq!((one.wins[0], one.wins[1]), (two.wins[1], two.wins[0]));
    assert_eq!((one.ties[0], one.ties[1]), (two.ties[1], two.ties[0]));
    assert_eq!((one.equity[0], one.equity[1]), (two.equity[1], two.equity[0]));
}

#[test]
fn a_range_counts_what_its_combos_count() {
    let a = Range::parse("AA").unwrap();
    let b = Range::parse("AKs, KK").unwrap();
    let board = board("2s7h9cTd");
    let whole = range_vs_range_exact(&[a.clone(), b.clone()], &board, &[]);
    let mut trials = 0;
    let mut equity = [0u128; 2];
    for x in a.combos() {
        for y in b.combos() {
            if x.iter().any(|c| y.contains(c)) {
                continue;
            }
            let part = exact(&[*x, *y], &board, &[]);
            trials += part.trials;
            equity[0] += part.equity[0];
            equity[1] += part.equity[1];
        }
    }
    assert_eq!(whole.trials, trials);
    assert_eq!(whole.equity, equity.to_vec());
    assert_eq!(equity[0] + equity[1], trials as u128 * POT_UNITS);
}

#[test]
fn every_board_is_counted_once() {
    // On the turn each unseen card is one board: count them by hand.
    let hands = [hand("AsAh"), hand("KsKd")];
    let turn = board("2s7h9cTd");
    let whole = exact(&hands, &turn, &[]);
    let known = board("AsAhKsKd2s7h9cTd");
    let mut wins = [0u64; 2];
    for c in (0..52u8).filter(|c| !known.contains(c)) {
        let mut full = turn.clone();
        full.push(c);
        let one = exact(&hands, &full, &[]);
        assert_eq!(one.trials, 1);
        wins[0] += one.wins[0];
        wins[1] += one.wins[1];
    }
    assert_eq!(whole.wins, wins.to_vec());
}

#[test]
fn dead_cards_shrink_the_enumeration() {
    let hands = [hand("AsAh"), hand("KsKd")];
    assert_eq!(exact(&hands, &board("2s7h9c"), &board("2c2d2h")).trials, 42 * 41 / 2);
    assert_eq!(exact(&hands, &board("2s7h9cTd"), &board("2c2d2h")).trials, 41);
}

#[test]
fn reordered_hands_reorder_what_is_counted() {
    let hands = [hand("AsAh"), hand("KcKd"), hand("JsTs"), hand("7d2c")];
    let b = board("9s8sKh");
    let one = exact(&hands, &b, &[]);
    for order in [[1, 2, 3, 0], [3, 2, 1, 0], [2, 0, 3, 1], [0, 1, 3, 2]] {
        let moved: Vec<[u8; 2]> = order.iter().map(|&i: &usize| hands[i]).collect();
        let two = exact(&moved, &b, &[]);
        assert_eq!(two.trials, one.trials);
        for (k, &i) in order.iter().enumerate() {
            assert_eq!(two.wins[k], one.wins[i]);
            assert_eq!(two.ties[k], one.ties[i]);
            assert_eq!(two.equity[k], one.equity[i]);
        }
    }
}

#[test]
fn sampling_a_full_board_multiplies_the_enumeration() {
    let hands = [hand("AcKd"), hand("AhKs"), hand("QcQd")];
    let b = board("AsKhJc4d2s");
    let one = exact(&hands, &b, &[]);
    assert_eq!((one.trials, one.ties.clone()), (1, vec![1, 1, 0]));
    for seed in [1, 7, 8] {
        let many = monte_carlo(&hands, &b, &[], 25, seed);
        assert_eq!(many.trials, 25);
        for i in 0..3 {
            assert_eq!(many.wins[i], 25 * one.wins[i]);
            assert_eq!(many.ties[i], 25 * one.ties[i]);
            assert_eq!(many.equity[i], 25 * one.equity[i]);
        }
    }
}

#[test]
fn ranges_that_hardly_go_together_are_still_dealt() {
    // Ten players, five pairs: every rank must serve two of them.
    let ranges: Vec<Range> = (0..10).map(|_| Range::parse("TT+").unwrap()).collect();
    let eq = try_range_vs_range(&ranges, &[], &[], 3, 1).expect("five pairs serve ten players");
    assert_eq!(eq.trials, 3);
    assert_eq!(eq.wins.len(), 10);
}

#[test]
fn the_seed_decides_which_ten_comes() {
    // Two royal draws, and only the two tens are left.
    let hands = [hand("AsKs"), hand("AhKh")];
    let b = board("QsJsQhJh");
    let out = board("AsKsAhKhQsJsQhJhTsTh");
    let dead: Vec<u8> = (0..52).filter(|c| !out.contains(c)).collect();
    let one = monte_carlo(&hands, &b, &dead, 1, 1);
    let two = monte_carlo(&hands, &b, &dead, 1, 2);
    assert_eq!((one.trials, one.wins), (1, vec![1, 0]));
    assert_eq!((two.trials, two.wins), (1, vec![0, 1]));
    let all = exact(&hands, &b, &dead);
    assert_eq!((all.trials, all.wins), (2, vec![1, 1]));
}
