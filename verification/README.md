# poker-engine

Foundation layer for a hold'em solver: cards, hand evaluation, a seeded deck, a
no-limit betting engine, and equity. No dependencies. Everything under `src/`
is verified with Verus; nothing is trusted.

| Module | Contents |
| --- | --- |
| `card` | `u8` cards encoded `rank * 4 + suit`, parsing and formatting |
| `ranks`, `eval` | sets of ranks; the 5/6/7-card evaluator returning a comparable `u32` |
| `strength`, `fives` | what scores mean: the best five cards, ties, categories, how five cards compare |
| `rng`, `deck` | xoshiro256++ generator, unbiased Fisher-Yates shuffle, card removal |
| `shuffles`, `seeds` | laws of shuffles and samples: every order comes from one sequence of choices; the seed matters |
| `table`, `pots` | the betting rules, side pots and payouts as mathematical models |
| `game` | the no-limit state machine, proved to follow those models |
| `rounds`, `settle` | laws of a hand: chips are conserved, turns, reopening, payouts |
| `combinations`, `tally` | boards enumerated in order; wins, ties and pot shares counted |
| `range` | range notation and card removal |
| `equity` | exact enumeration, Monte Carlo, range against range |
| `runouts` | laws of equity: what is enumerated, what is sampled |

Each public function states in its contract what it returns, over the models.
Functions named `law_..` state what holds of several of them together.

Pot shares are counted in whole units (`POT_UNITS` to a pot) so that ties are
split exactly; `app/` turns them into fractions. `app/` is the throughput check.

## Worth knowing

- The evaluator returns a flush before it looks for quads or a full house. That
  is correct at five to seven cards, and proved:
  `strength::law_flush_rules_out_quads_and_full_houses`.
- Actions are "raise **to**", never "raise **by**".
- An all-in for less than a full raise raises the bet but does not reopen the
  action for players who have acted.
- Range sampling restarts the whole draw on a conflict. An attempt is kept if
  and only if the holdings drawn can be dealt together, which is what makes the
  joint distribution right: `runouts::law_attempts_accept_what_can_be_dealt` and
  `runouts::law_joint_holdings_come_up_alike`.
  After many conflicts the holdings are searched in order: ranges that cannot be
  dealt together are refused, and for all others the draws go on.
- A blind may be posted short. The bet to match is the larger of the two posted.
- Chips of a folded player above what every remaining player has put in go to
  the last pot, so the pots sum to the pot wherever a remaining player has chips
  in: `settle::law_side_pots_split_the_pot`. Every hand pays out all of its pot:
  `rounds::law_hands_conserve_chips`.
- A seat without chips counts as all-in when it is asked whether anyone is left
  to raise.
