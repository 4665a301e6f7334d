//! The Schulze method
//!
//! Candidates are nominated, voters fill in ballots that rank them, and the
//! election computes, for every ordered pair of candidates, the strength of
//! the strongest path of direct wins from one to the other. The candidates
//! are then ordered so that none comes after a candidate it beats.
pub mod ballot;
pub mod candidate;
pub mod election;
pub mod nomination;
pub mod paths;
pub mod rank;
pub mod widest;

pub use candidate::Candidate;
pub use nomination::Nomination;
