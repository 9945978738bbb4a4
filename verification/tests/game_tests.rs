use poker_engine::card::{parse, parse_many, NO_CARD};
use poker_engine::deck::{Deck, Rng};
use poker_engine::game::{Action, Game, Status, Street};

fn holdem(stacks: &[u32]) -> Game {
    Game::new(stacks, 0, 1, 2)
}

#[test]
fn blinds_are_posted_and_action_starts_utg() {
    let g = Game::new(&[100, 100, 100], 0, 1, 2);
    assert_eq!(g.players[1].committed, 1); // small blind
    assert_eq!(g.players[2].committed, 2); // big blind
    assert_eq!(g.to_act, 0); // button is UTG three-handed
    assert_eq!(g.bet, 2);
    assert_eq!(g.pot(), 3);
}

#[test]
fn heads_up_button_posts_small_blind_and_acts_first() {
    let g = holdem(&[100, 100]);
    assert_eq!(g.players[0].committed, 1);
    assert_eq!(g.players[1].committed, 2);
    assert_eq!(g.to_act, 0);
}

#[test]
fn big_blind_keeps_the_option() {
    let mut g = holdem(&[100, 100]);
    g.apply(Action::Call); // button limps
    assert!(!g.betting_done(), "big blind still has the option to raise");
    assert_eq!(g.to_act, 1);
    assert!(g.legal().check);
    assert!(g.legal().raise.is_some());
    g.apply(Action::Check);
    assert!(g.betting_done());
}

#[test]
fn min_raise_tracks_the_last_increment() {
    let mut g = holdem(&[200, 200]);
    assert_eq!(g.legal().raise, Some((4, 200))); // bet 2 + last raise 2
    g.apply(Action::RaiseTo(6));
    assert_eq!(g.legal().raise, Some((10, 200))); // bet 6 + increment 4
    g.apply(Action::RaiseTo(20));
    assert_eq!(g.legal().raise, Some((34, 200))); // bet 20 + increment 14
}

#[test]
fn short_all_in_does_not_reopen_the_action() {
    // Button raises to 20, the short big blind jams for 25. That is a
    // 5-chip increment against a last raise of 18: not a full raise, so
    // the original raiser may call or fold but must not raise again.
    let mut g = Game::new(&[200, 200, 25], 0, 1, 2);
    g.apply(Action::RaiseTo(20)); // seat 0
    g.apply(Action::Fold); // seat 1
    assert_eq!(g.to_act, 2);
    assert_eq!(g.legal().raise, Some((25, 25)), "short stack can only jam");
    g.apply(Action::RaiseTo(25)); // seat 2 jams short
    assert_eq!(g.players[2].status, Status::AllIn);
    assert_eq!(g.to_act, 0);
    let legal = g.legal();
    assert_eq!(legal.call, Some(5));
    assert!(legal.fold);
    assert!(legal.raise.is_none(), "short all-in must not reopen betting");
    // And the hand still resolves cleanly from there.
    g.apply(Action::Call);
    assert!(g.betting_done());
}

#[test]
fn short_all_in_does_not_reopen_even_with_live_opponents() {
    // Four-handed, so the opener still faces players with chips after the
    // jam. That isolates the reopening rule from the all-opponents-all-in
    // guard below: with only two seats live, either one alone would block
    // the raise and a regression in the other would go unnoticed.
    let mut g = Game::new(&[200, 200, 200, 25], 3, 1, 2);
    assert_eq!(g.to_act, 2);
    g.apply(Action::RaiseTo(20)); // seat 2 opens
    g.apply(Action::RaiseTo(25)); // seat 3 jams, a 5-chip increment
    assert_eq!(g.players[3].status, Status::AllIn);
    g.apply(Action::Call); // seat 0
    g.apply(Action::Call); // seat 1
    assert_eq!(g.to_act, 2, "the opener still owes the difference");

    let legal = g.legal();
    assert_eq!(legal.call, Some(5));
    assert!(
        legal.raise.is_none(),
        "a short all-in must not reopen betting for a player who already acted"
    );
    // Both callers still have chips, so what blocked the raise above is the
    // reopening rule and not the all-in guard.
    assert_eq!(g.players[0].status, Status::Active);
    assert_eq!(g.players[1].status, Status::Active);
}

#[test]
fn cannot_raise_when_every_opponent_is_all_in() {
    // Seat 1 jams for less than seat 0 has behind. Seat 0 has every other
    // right to raise here: the full jam reopened the action: but there is
    // nobody left to call, so raising would only put in chips that come
    // straight back as an uncalled bet.
    let mut g = Game::new(&[200, 40], 0, 1, 2);
    g.apply(Action::RaiseTo(10)); // seat 0 opens
    g.apply(Action::RaiseTo(40)); // seat 1 jams, a full re-raise
    assert_eq!(g.players[1].status, Status::AllIn);
    assert_eq!(g.to_act, 0);

    let legal = g.legal();
    assert_eq!(legal.call, Some(30));
    assert!(legal.fold);
    assert!(
        legal.raise.is_none(),
        "no opponent has chips behind, so there is nothing to raise into"
    );
}

#[test]
fn all_opponents_all_in_ends_every_later_street() {
    // Once seat 1 is all-in and covered, no street has any action left in
    // it. Requiring `acted` here used to reopen a dead betting round on
    // each new street, because `next_street` clears that flag for everyone.
    let mut g = Game::new(&[200, 50], 0, 1, 2);
    g.apply(Action::RaiseTo(50));
    g.apply(Action::Call); // seat 1 calls all-in
    assert_eq!(g.players[1].status, Status::AllIn);
    assert!(g.betting_done());

    for street in ["2c7d9h", "3s", "4d"] {
        g.next_street(&parse_many(street).unwrap());
        assert!(
            g.betting_done(),
            "no opponent can call, so {:?} needs no action",
            g.street
        );
    }
    assert!(g.hand_done());
}

#[test]
fn full_reraise_does_reopen_the_action() {
    let mut g = Game::new(&[200, 200, 200], 0, 1, 2);
    g.apply(Action::RaiseTo(6));
    g.apply(Action::Fold);
    g.apply(Action::RaiseTo(18)); // full re-raise
    assert!(g.legal().raise.is_some());
}

#[test]
fn street_advances_and_resets_the_betting() {
    let mut g = holdem(&[100, 100]);
    g.apply(Action::Call);
    g.apply(Action::Check);
    g.next_street(&parse_many("2c7d9h").unwrap());
    assert_eq!(g.street, Street::Flop);
    assert_eq!(g.bet, 0);
    assert_eq!(g.board.len(), 3);
    // Heads-up the button acts last postflop.
    assert_eq!(g.to_act, 1);
    assert!(g.legal().check);
    assert!(!g.legal().fold);
}

#[test]
fn folding_to_one_player_ends_the_hand() {
    let mut g = holdem(&[100, 100]);
    g.apply(Action::Fold);
    assert!(g.hand_done());
    let pay = g.payouts();
    assert_eq!(pay[1], 3);
    assert_eq!(pay[0], 0);
}

#[test]
fn side_pots_split_at_each_all_in_level() {
    let mut g = Game::new(&[50, 100, 100], 0, 1, 2);
    g.apply(Action::RaiseTo(50)); // seat 0 jams for 50
    g.apply(Action::RaiseTo(100)); // seat 1 jams for 100
    g.apply(Action::Call); // seat 2 calls 100
    let pots = g.side_pots();
    assert_eq!(pots.len(), 2);
    assert_eq!(pots[0].amount, 150); // 50 x 3
    assert_eq!(pots[0].eligible, vec![0, 1, 2]);
    assert_eq!(pots[1].amount, 100); // 50 x 2
    assert_eq!(pots[1].eligible, vec![1, 2]);
    assert_eq!(pots.iter().map(|p| p.amount).sum::<u32>(), g.pot());
}

#[test]
fn dead_money_from_folders_lands_in_the_main_pot() {
    let mut g = Game::new(&[100, 100, 100], 0, 1, 2);
    g.apply(Action::RaiseTo(10)); // seat 0
    g.apply(Action::Call); // seat 1 puts in 10
    g.apply(Action::Fold); // seat 2 forfeits its 2
    let pots = g.side_pots();
    assert_eq!(pots.len(), 1);
    assert_eq!(pots[0].amount, 22, "the folded big blind is dead money");
    assert_eq!(pots[0].eligible, vec![0, 1]);
}

#[test]
fn showdown_pays_the_best_hand() {
    let mut g = holdem(&[100, 100]);
    g.set_hole(0, [parse("As").unwrap(), parse("Ah").unwrap()]);
    g.set_hole(1, [parse("Kc").unwrap(), parse("Kd").unwrap()]);
    g.apply(Action::Call);
    g.apply(Action::Check);
    g.next_street(&parse_many("2c7d9h").unwrap());
    g.apply(Action::Check);
    g.apply(Action::Check);
    g.next_street(&parse_many("3s").unwrap());
    g.apply(Action::Check);
    g.apply(Action::Check);
    g.next_street(&parse_many("4d").unwrap());
    g.apply(Action::Check);
    g.apply(Action::Check);
    assert!(g.hand_done());
    let pay = g.payouts();
    assert_eq!(pay[0], 4, "aces win the four-chip pot");
    assert_eq!(pay[1], 0);
}

#[test]
fn split_pot_is_even_and_conserves_chips() {
    let mut g = holdem(&[100, 100]);
    g.set_hole(0, [parse("As").unwrap(), parse("Kh").unwrap()]);
    g.set_hole(1, [parse("Ad").unwrap(), parse("Kc").unwrap()]);
    g.apply(Action::Call);
    g.apply(Action::Check);
    g.next_street(&parse_many("2c7d9h").unwrap());
    g.apply(Action::Check);
    g.apply(Action::Check);
    g.next_street(&parse_many("3s").unwrap());
    g.apply(Action::Check);
    g.apply(Action::Check);
    g.next_street(&parse_many("4d").unwrap());
    g.apply(Action::Check);
    g.apply(Action::Check);
    let pay = g.payouts();
    assert_eq!(pay, vec![2, 2]);
    assert_eq!(pay.iter().sum::<u32>(), g.pot());
}

#[test]
fn chips_are_conserved_across_a_random_walk() {
    // Play many hands with arbitrary legal actions and assert no chips are
    // created or destroyed. Conservation is the invariant most likely to
    // catch a subtle pot-arithmetic bug.
    let mut rng = Rng::new(2024);
    let mut deck = Deck::new(7);
    for _ in 0..2000 {
        deck.shuffle();
        let stacks = [
            20 + rng.below(180) as u32,
            20 + rng.below(180) as u32,
            20 + rng.below(180) as u32,
        ];
        let total: u32 = stacks.iter().sum();
        let mut g = Game::new(&stacks, rng.below(3) as usize, 1, 2);
        for seat in 0..3 {
            let c = deck.deal(2);
            g.set_hole(seat, [c[0], c[1]]);
        }

        while !g.hand_done() {
            if g.betting_done() {
                let n = if g.street == Street::Preflop { 3 } else { 1 };
                let c: Vec<u8> = deck.deal(n).to_vec();
                g.next_street(&c);
                continue;
            }
            let legal = g.legal();
            let mut choices: Vec<Action> = Vec::new();
            if legal.check {
                choices.push(Action::Check);
            }
            if legal.call.is_some() {
                choices.push(Action::Call);
            }
            if legal.fold {
                choices.push(Action::Fold);
            }
            if let Some((lo, hi)) = legal.raise {
                let to = lo + rng.below((hi - lo + 1) as u64) as u32;
                choices.push(Action::RaiseTo(to));
            }
            assert!(!choices.is_empty(), "player to act had no legal action");
            let pick = choices[rng.below(choices.len() as u64) as usize];
            g.apply(pick);
        }

        // A hand that reaches showdown needs a full board to be paid out.
        while g.live_seats().len() > 1 && g.board.len() < 5 {
            let n = if g.board.is_empty() { 3 } else { 1 };
            let c: Vec<u8> = deck.deal(n).to_vec();
            g.board.extend_from_slice(&c);
        }

        let pay = g.payouts();
        assert_eq!(pay.iter().sum::<u32>(), g.pot(), "pot did not balance");
        let final_total: u32 =
            g.players.iter().map(|p| p.stack).sum::<u32>() + pay.iter().sum::<u32>();
        assert_eq!(final_total, total, "chips were created or destroyed");
    }
}

#[test]
fn a_hand_starts_with_the_blinds_and_nobody_marked_as_having_acted() {
    let g = Game::new(&[50, 60, 70, 80], 2, 5, 10);
    assert_eq!(g.players[3].committed, 5);
    assert_eq!(g.players[0].committed, 10);
    assert_eq!(g.to_act, 1);
    assert_eq!((g.bet, g.last_raise, g.bb, g.button), (10, 10, 10, 2));
    assert_eq!(g.street, Street::Preflop);
    assert!(g.board.is_empty());
    for (p, stack) in g.players.iter().zip([50u32, 60, 70, 80]) {
        assert!(!p.acted);
        assert_eq!(p.status, Status::Active);
        assert_eq!(p.stack + p.committed, stack);
        assert_eq!(p.street_committed, p.committed);
        assert_eq!(p.hole, [NO_CARD, NO_CARD]);
    }
}

#[test]
fn a_short_blind_is_all_in_and_the_bet_is_what_was_posted() {
    let g = Game::new(&[100, 1, 3], 0, 2, 5);
    assert_eq!(g.players[1].status, Status::AllIn);
    assert_eq!(g.players[2].status, Status::AllIn);
    assert_eq!(g.bet, 3);
    assert_eq!(g.last_raise, 5);
    assert_eq!(g.to_act, 0);
    assert!(!g.betting_done());
    let legal = g.legal();
    assert_eq!(legal.call, Some(3));
    assert!(legal.fold && !legal.check);
    assert_eq!(legal.raise, None);
}

#[test]
fn the_bet_is_the_larger_of_the_blinds_posted() {
    let g = Game::new(&[100, 100, 1], 0, 5, 10);
    assert_eq!(g.bet, 5);
    assert_eq!(g.to_act, 0);
    let legal = g.legal();
    assert_eq!(legal.call, Some(5));
    assert_eq!(legal.raise, Some((15, 100)));
    assert_eq!(Game::new(&[100, 100, 7], 0, 5, 10).bet, 7);
    assert_eq!(Game::new(&[100, 1, 100], 0, 5, 10).bet, 10);
}

#[test]
fn a_seat_without_chips_is_no_one_to_raise() {
    let g = Game::new(&[0, 1, 2, 100], 0, 1, 2);
    assert_eq!(g.to_act, 3);
    assert_eq!(g.players[0].status, Status::Active);
    let legal = g.legal();
    assert_eq!(legal.call, Some(2));
    assert_eq!(legal.raise, None);
}

#[test]
fn a_call_is_capped_at_the_stack() {
    let mut g = Game::new(&[100, 30], 0, 1, 2);
    g.apply(Action::RaiseTo(80));
    assert_eq!(g.legal().call, Some(28));
    assert_eq!(g.legal().raise, None);
    g.apply(Action::Call);
    assert_eq!(g.players[1].status, Status::AllIn);
    assert_eq!((g.players[1].stack, g.players[1].committed), (0, 30));
    assert!(g.betting_done());
    assert!(!g.hand_done());
}

#[test]
fn nobody_folds_where_checking_is_free() {
    let mut g = holdem(&[100, 100]);
    g.apply(Action::Call);
    let legal = g.legal();
    assert!(legal.check && !legal.fold);
    assert_eq!(legal.call, None);
}

#[test]
fn raises_near_the_machine_limit_are_capped_at_the_stack() {
    let mut g = Game::new(&[u32::MAX, u32::MAX], 0, 1, 2);
    assert_eq!(g.legal().raise, Some((4, u32::MAX)));
    g.apply(Action::RaiseTo(3_000_000_000));
    assert_eq!(g.legal().raise, Some((u32::MAX, u32::MAX)));
}

#[test]
fn a_full_reraise_lets_the_opener_raise_again() {
    let mut g = Game::new(&[200, 200, 200], 0, 1, 2);
    g.apply(Action::RaiseTo(6));
    assert!(g.players[0].acted);
    g.apply(Action::RaiseTo(10)); // a full raise of 4
    assert!(!g.players[0].acted);
    g.apply(Action::Fold);
    assert_eq!(g.to_act, 0);
    assert_eq!(g.legal().raise, Some((14, 200)));
}

#[test]
fn the_turn_skips_folded_and_all_in_seats() {
    let mut g = Game::new(&[100, 100, 4, 100], 3, 1, 2);
    assert_eq!(g.to_act, 2);
    g.apply(Action::RaiseTo(4)); // all-in
    g.apply(Action::Fold); // seat 3
    g.apply(Action::Call); // seat 0
    g.apply(Action::Call); // seat 1
    assert!(g.betting_done());
    g.next_street(&parse_many("2c7d9h").unwrap());
    assert_eq!(g.to_act, 0);
    g.apply(Action::Check);
    assert_eq!(g.to_act, 1);
    g.apply(Action::RaiseTo(10));
    assert_eq!(g.to_act, 0, "seats 2 and 3 cannot act");
    assert_eq!(g.live_seats(), vec![0, 1, 2]);
}

#[test]
fn a_lone_player_who_owes_nothing_is_done() {
    // The blinds are all-in for less than seat 0 has called.
    let mut g = Game::new(&[100, 1, 2], 0, 1, 2);
    g.apply(Action::Call);
    assert!(g.betting_done());
    for street in ["2c7d9h", "3s", "4d"] {
        g.next_street(&parse_many(street).unwrap());
        assert!(g.betting_done());
    }
    assert!(g.hand_done());
    assert_eq!(g.street, Street::River);
    assert_eq!(g.board.len(), 5);
}

fn showdown(stacks: &[u32], button: usize, holes: &[&str], board: &str) -> Game {
    let mut g = Game::new(stacks, button, 1, 2);
    for (seat, hole) in holes.iter().enumerate() {
        let c = parse_many(hole).unwrap();
        g.set_hole(seat, [c[0], c[1]]);
    }
    g.board = parse_many(board).unwrap();
    g
}

#[test]
fn odd_chips_go_one_by_one_from_the_left_of_the_button() {
    // Three tied winners and two chips of a folded seat: a pot of 14 is 4 each
    // and two odd chips, for the first two winners after the button.
    let mut g = showdown(
        &[100, 100, 100, 100],
        1,
        &["2c3c", "4d5d", "6h7h", "8c9c"],
        "AsKsQsJsTs",
    );
    for (seat, chips) in [4, 2, 4, 4].iter().enumerate() {
        g.players[seat].committed = *chips;
    }
    g.players[1].status = Status::Folded;
    assert_eq!(g.pot(), 14);
    assert_eq!(g.payouts(), vec![4, 0, 5, 5]);
    g.button = 3;
    assert_eq!(g.payouts(), vec![5, 0, 5, 4]);
    g.button = 2;
    assert_eq!(g.payouts(), vec![5, 0, 4, 5]);
}

#[test]
fn a_short_stack_wins_only_the_main_pot() {
    let mut g = showdown(&[50, 100, 100], 0, &["AsAh", "KcKd", "QcQd"], "2c7d9h3s4d");
    g.apply(Action::RaiseTo(50));
    g.apply(Action::RaiseTo(100));
    g.apply(Action::Call);
    assert_eq!(g.payouts(), vec![150, 100, 0]);
}

#[test]
fn an_uncalled_bet_comes_back_through_its_own_pot() {
    let mut g = showdown(&[200, 50], 0, &["2c3d", "AsAh"], "KcKd9h8s4d");
    g.apply(Action::RaiseTo(200));
    g.apply(Action::Call);
    let pots = g.side_pots();
    assert_eq!(pots.len(), 2);
    assert_eq!((pots[0].amount, pots[0].eligible.clone()), (100, vec![0, 1]));
    assert_eq!((pots[1].amount, pots[1].eligible.clone()), (150, vec![0]));
    assert_eq!(g.payouts(), vec![150, 100]);
}

#[test]
fn the_best_hand_takes_every_pot_it_is_in() {
    let mut g = showdown(&[30, 60, 90], 0, &["2c3c", "KcKd", "AsAh"], "4c7d9h3s5d");
    g.apply(Action::RaiseTo(30));
    g.apply(Action::RaiseTo(60));
    g.apply(Action::Call);
    assert_eq!(g.side_pots().len(), 2);
    assert_eq!(g.payouts(), vec![0, 0, 150]);
    assert_eq!(g.pot(), 150);
}

#[test]
fn chips_of_a_folder_above_every_live_player_join_the_last_pot() {
    let mut g = showdown(&[3, 100, 1], 0, &["AsAh", "QcQd", "KcKd"], "2c7d9h3s4d");
    for (p, chips) in g.players.iter_mut().zip([3u32, 5, 1]) {
        p.committed = chips;
    }
    g.players[1].status = Status::Folded;
    assert_eq!(g.pot(), 9);
    let pots = g.side_pots();
    assert_eq!(pots.len(), 2);
    assert_eq!((pots[0].amount, pots[0].eligible.clone()), (3, vec![0, 2]));
    assert_eq!((pots[1].amount, pots[1].eligible.clone()), (6, vec![0]));
    assert_eq!(g.payouts(), vec![9, 0, 0]);
    g.players[0].status = Status::Folded;
    g.players[1].status = Status::AllIn;
    g.players[1].committed = 1;
    let pots = g.side_pots();
    assert_eq!(pots.len(), 1);
    assert_eq!((pots[0].amount, pots[0].eligible.clone()), (5, vec![1, 2]));
    assert_eq!(g.payouts(), vec![0, 0, 5]);
}

#[test]
fn pots_sum_to_the_pot_after_a_short_big_blind() {
    let mut g = Game::new(&[3, 100, 1], 0, 5, 10);
    assert_eq!(g.bet, 5);
    g.apply(Action::Call); // seat 0, all-in for 3
    assert!(g.betting_done()); // the small blind owes nothing
    assert_eq!(g.pot(), 9);
    let pots = g.side_pots();
    assert_eq!(pots.iter().map(|p| p.amount).collect::<Vec<u32>>(), vec![3, 4, 2]);
    assert_eq!(pots[0].eligible, vec![0, 1, 2]);
    assert_eq!(pots[1].eligible, vec![0, 1]);
    assert_eq!(pots[2].eligible, vec![1]);
}

#[test]
fn a_player_left_alone_takes_the_pot_unseen() {
    let mut g = Game::new(&[100, 100, 100], 0, 1, 2);
    g.apply(Action::Fold);
    g.apply(Action::Fold);
    assert!(g.hand_done());
    assert_eq!(g.live_seats(), vec![2]);
    assert_eq!(g.payouts(), vec![0, 0, 3]);
}

#[test]
fn heads_up_the_other_seat_may_be_the_button() {
    let mut g = Game::new(&[100, 100], 1, 1, 2);
    assert_eq!((g.players[0].committed, g.players[1].committed), (2, 1));
    assert_eq!(g.to_act, 1);
    g.apply(Action::Call);
    g.apply(Action::Check);
    g.next_street(&parse_many("2c7d9h").unwrap());
    assert_eq!(g.to_act, 0);
}

#[test]
fn hands_balance_however_short_the_stacks() {
    // Stacks down to a single chip, short of either blind, four-handed.
    let mut rng = Rng::new(77);
    let mut deck = Deck::new(8);
    for _ in 0..3000 {
        deck.shuffle();
        let stacks: Vec<u32> = (0..4).map(|_| 1 + rng.below(14) as u32).collect();
        let total: u32 = stacks.iter().sum();
        let mut g = Game::new(&stacks, rng.below(4) as usize, 2, 3);
        for seat in 0..4 {
            let c = deck.deal(2);
            g.set_hole(seat, [c[0], c[1]]);
        }
        while !g.hand_done() {
            if g.betting_done() {
                let n = if g.street == Street::Preflop { 3 } else { 1 };
                let c: Vec<u8> = deck.deal(n).to_vec();
                g.next_street(&c);
                continue;
            }
            let p = &g.players[g.to_act];
            assert_eq!(p.status, Status::Active);
            assert!(!p.acted || p.street_committed != g.bet, "asked twice");
            let legal = g.legal();
            let roll = rng.below(4);
            let action = match legal.raise {
                Some((lo, hi)) if roll == 0 => {
                    Action::RaiseTo(lo + rng.below((hi - lo + 1) as u64) as u32)
                }
                _ if legal.check => Action::Check,
                _ if roll == 1 => Action::Fold,
                _ => Action::Call,
            };
            g.apply(action);
            let chips: u32 = g.players.iter().map(|p| p.stack + p.committed).sum();
            assert_eq!(chips, total);
        }
        let pots = g.side_pots();
        if g.live_seats().len() > 1 {
            assert_eq!(pots.iter().map(|p| p.amount).sum::<u32>(), g.pot());
        }
        assert_eq!(g.payouts().iter().sum::<u32>(), g.pot());
    }
}

#[test]
fn a_raise_is_to_a_total() {
    let mut g = holdem(&[100, 100]);
    g.apply(Action::RaiseTo(7));
    assert_eq!(g.players[0].street_committed, 7);
    assert_eq!(g.players[0].stack, 93);
    assert_eq!(g.bet, 7);
    assert_eq!(g.last_raise, 5);
    g.apply(Action::RaiseTo(20));
    assert_eq!(g.players[1].street_committed, 20);
    assert_eq!(g.bet, 20);
}

#[test]
fn a_new_street_starts_left_of_the_button_with_nothing_owed() {
    let mut g = Game::new(&[100, 100, 100], 1, 1, 2);
    assert_eq!(g.to_act, 1);
    g.apply(Action::Call);
    g.apply(Action::Call);
    g.apply(Action::Check);
    let pot = g.pot();
    g.next_street(&parse_many("2c7d9h").unwrap());
    assert_eq!(g.to_act, 2);
    assert_eq!(g.pot(), pot);
    assert_eq!(g.last_raise, 2);
    assert!(g.players.iter().all(|p| p.street_committed == 0 && !p.acted));
    assert_eq!(g.legal().raise, Some((2, 98)));
}
