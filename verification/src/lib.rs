//! Solver for a partner-matching deduction game.
//!
//! A hidden perfect pairing over an even number of contestants is probed in
//! two ways: a ceremony, where a full guessed pairing is answered only with a
//! count of correct pairs, and a truth booth, where a single pair is answered
//! exactly. The solver tracks which pairs are still possible, records ceremony
//! feedback as rounds for probabilistic inference, and proposes pairings and
//! booth queries until the hidden pairing is found.

pub mod bruteforce;
pub mod contestant;
pub mod gamemaster;
pub mod gamestrategy;
pub mod possibility;
pub mod round;
pub mod roundmanager;
pub mod utils;

pub use crate::contestant::ContestantPair;
pub use crate::contestant::Player;
