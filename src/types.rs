use vstd::prelude::*;

verus! {

/// A registered option that can receive votes.
#[derive(Clone, Debug, PartialEq, Eq)]
pub struct Candidate {
    pub candidate_id: String,
    pub name: String,
}

/// A candidate together with its running vote total.
#[derive(Clone, Debug, PartialEq, Eq)]
pub struct CandidateStats {
    pub candidate_id: String,
    pub name: String,
    pub total_vote: i32,
}

/// One point of a daily series: `x` is the start of a UTC day in
/// milliseconds, `y` the number of votes counted on that day.
#[derive(Clone, Copy, Debug, PartialEq, Eq, Structural)]
pub struct PairTime {
    pub x: i64,
    pub y: i32,
}

/// A candidate together with its daily vote series, ordered by day.
#[derive(Clone, Debug, PartialEq, Eq)]
pub struct CandidateChart {
    pub candidate_id: String,
    pub name: String,
    pub data: Vec<PairTime>,
}

/// The record that `voter_id` has voted for `candidate_id`.
#[derive(Clone, Debug, PartialEq, Eq)]
pub struct Ballot {
    pub voter_id: String,
    pub candidate_id: String,
}

/// What the host supplies with each call: who signed it, and when
/// (nanoseconds since the Unix epoch).
#[derive(Clone, Debug, PartialEq, Eq)]
pub struct CallerContext {
    pub signer_account_id: String,
    pub block_timestamp: u64,
}

/// Why an operation was refused. A refused operation changes nothing.
#[derive(Clone, Copy, Debug, PartialEq, Eq, Structural)]
pub enum VotingError {
    /// A required text field was empty.
    InvalidArgument,
    /// A candidate with this id is already registered.
    DuplicateCandidate,
    /// No candidate with this id is registered.
    CandidateNotFound,
    /// The caller has already cast a vote.
    AlreadyVoted,
    /// The caller is not the account allowed to back-fill votes.
    Unauthorized,
    /// Stored state breaks the store's invariants: it was corrupted.
    InternalInconsistency,
}

impl VotingError {
    /// A short human-readable description of the error.
    pub fn message(&self) -> (r: String) {
        match self {
            VotingError::InvalidArgument => String::from_str("empty candidate id or name"),
            VotingError::DuplicateCandidate => String::from_str("candidate already exists"),
            VotingError::CandidateNotFound => String::from_str("candidate not found"),
            VotingError::AlreadyVoted => String::from_str("already voted"),
            VotingError::Unauthorized => String::from_str("caller may not back-fill votes"),
            VotingError::InternalInconsistency => String::from_str("stored state is inconsistent"),
        }
    }
}

} // verus!
