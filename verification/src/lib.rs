//! Core primitives for a hold'em solver: cards, a hand evaluator, a deck,
//! and a no-limit betting engine.
//!
//! Everything here is deterministic: the deck takes an explicit seed and the
//! betting engine never deals for you. Solver work needs to replay the exact
//! same hand millions of times, so hidden nondeterminism is a bug, not a
//! convenience.

pub mod card;
pub mod combinations;
pub mod deck;
pub mod equity;
pub mod eval;
pub mod fives;
pub mod game;
pub mod notation;
pub mod outcomes;
pub mod play;
pub mod pots;
pub mod range;
pub mod ranks;
pub mod rng;
pub mod rounds;
pub mod runouts;
pub mod seeds;
pub mod settle;
pub mod showdown;
pub mod shuffles;
pub mod strength;
pub mod table;
pub mod tally;
