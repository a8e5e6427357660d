//! First-past-the-post (plurality) tally over a set of weighted ballots.
//!
//! Every voter's ballot is an ordered list of `(candidate, weight)` preferences.
//! The voter's single effective vote goes to the first preference that carries
//! the greatest weight. The votes are counted per candidate and ranked, and a
//! per-voter audit record says which of the listed candidates was counted.
//!
//! The result is a function of the ballots alone: equal weights go to the
//! preference listed first, and candidates with equally many votes are ranked
//! by ascending identifier.
//!
//! - [`choice`]: the single effective vote of one ballot;
//! - [`ballot`]: the ballot set, one ballot per voter;
//! - [`tally`]: the votes counted per candidate;
//! - [`audit`]: the audit record of one voter;
//! - [`rank`]: the counts in ranking order;
//! - [`aggregate`]: all of it for a ballot set;
//! - [`theorems`]: what holds of every aggregation.

pub mod aggregate;
pub mod audit;
pub mod ballot;
pub mod choice;
pub mod rank;
pub mod tally;
pub mod theorems;

pub use aggregate::{calculate, FPTP};
pub use audit::FPTPIntermediate;
pub use ballot::BallotSet;
pub use choice::{select_candidate, select_choice, CandidateId, Preference, VoterId, Weight};
pub use tally::Count;
