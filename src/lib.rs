//! Tallies ballots of a single-winner, first-past-the-post contest: a registry of choices read
//! from a definition document, ballots read one JSON record per line, and a result that lists
//! the votes of each choice, most voted first, with the winner.
pub mod contest;
pub mod json;
pub mod tally;

pub use contest::{Ballot, Choice, ChoiceResult, Contest, ContestResult, PollError};
pub use tally::{count_choices, ranked_counts};
