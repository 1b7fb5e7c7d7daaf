//! A single-election vote tally: candidate registration, one vote per voter,
//! running totals and per-day vote series for charting.

pub mod types;
pub mod series;
pub mod voting;

pub use types::{Ballot, CallerContext, Candidate, CandidateChart, CandidateStats, PairTime, VotingError};
pub use series::day_start_millis;
pub use voting::Voting;
