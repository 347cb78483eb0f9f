//! The interface a solving strategy offers to the driving loop, and the
//! errors it can surface.

use vstd::prelude::*;

use crate::contestant::ContestantPair;

verus! {

/// A broken-invariant or bad-input condition surfaced as a value instead of
/// an abort. None of these is recoverable: they mean the caller fed the
/// solver something inconsistent with the game it was set up for.
#[derive(Debug, Clone, Copy, PartialEq, Eq, Structural)]
pub enum SolverError {
    /// A pair named a player that is not part of the game.
    UnknownPlayer,
    /// A pair to confirm involves a contestant that is already settled.
    PlayerResolved,
    /// A ceremony reported fewer correct pairs than are already confirmed.
    FeedbackMismatch,
    /// No full pairing is reachable from the current possibility map.
    Unsatisfiable,
    /// More guesses were requested from a round than are still live.
    NotEnoughGuesses,
}

/// The truth booth's answer for a single queried pair.
#[derive(Debug, PartialEq)]
pub enum Feedback {
    Correct(ContestantPair),
    Wrong(ContestantPair),
}

/// A strategy playing the game: it proposes full pairings for the ceremony,
/// digests the count that comes back, picks single pairs for the truth booth,
/// and digests the exact answer.
pub trait GameStrategy {
    /// The strategy's internal consistency condition, maintained by every
    /// call of the four methods.
    spec fn strategy_wf(&self) -> bool;

    /// A full pairing to submit to the ceremony.
    fn ceremony_pairs(&mut self) -> (r: Result<Vec<ContestantPair>, SolverError>)
        requires
            old(self).strategy_wf(),
        ensures
            final(self).strategy_wf(),
    ;

    /// Digest the ceremony's count of correct pairs for the submitted guess.
    fn ceremony_feedback(&mut self, num_right: usize, guess: Vec<ContestantPair>) -> (r: Result<
        (),
        SolverError,
    >)
        requires
            old(self).strategy_wf(),
        ensures
            final(self).strategy_wf(),
    ;

    /// A single pair to query at the truth booth.
    fn send_to_booth(&mut self) -> (r: Result<ContestantPair, SolverError>)
        requires
            old(self).strategy_wf(),
        ensures
            final(self).strategy_wf(),
    ;

    /// Digest the truth booth's exact answer.
    fn booth_feedback(&mut self, feedback: Feedback) -> (r: Result<(), SolverError>)
        requires
            old(self).strategy_wf(),
        ensures
            final(self).strategy_wf(),
    ;
}

} // verus!
