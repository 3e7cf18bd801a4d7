//! Ranked-choice (instant-runoff) election tabulation.
//!
//! A [`Poll`] is created over a fixed set of candidates, identified by `u64`
//! ids. Voters submit ballots — complete, duplicate-free rankings of exactly
//! the candidate set — which are validated on submission. Tabulation then
//! repeatedly eliminates the candidate with the fewest first-preference votes,
//! yielding one [`PollResult`] per round until no candidates remain; the last
//! candidate whose elimination is reported is the implicit winner.

pub mod ballot;
pub mod poll;
pub mod rounds;

pub use ballot::BallotError;
pub use poll::Poll;
pub use rounds::PollResult;
pub use rounds::PollRound;
pub use rounds::RoundIterator;
