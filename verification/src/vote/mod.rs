//! Voting bookkeeping: visited maps and results of the edge linking, the
//! children of a segment, vote tallying and seed ordering.

pub mod linking;
pub mod vote;
