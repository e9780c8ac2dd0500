//! Validation failures: a malformed entry list or winner count rejects the
//! whole draw with a distinguishable tag.
use vstd::prelude::*;

verus! {

#[derive(Clone, Copy, Debug, PartialEq, Eq, Structural)]
pub enum RaffleError {
    TooFewEntries,
    FirstStartNonzero,
    InvalidEntry,
    NonAdjacentEntries,
    UnorderedAddresses,
    NumWinnersZero,
    NumWinnersTooMany,
}

impl RaffleError {
    /// The stable tag for this failure.
    pub open spec fn message_spec(self) -> Seq<char> {
        match self {
            RaffleError::TooFewEntries => "<2 entries"@,
            RaffleError::FirstStartNonzero => "first entry must start at 0"@,
            RaffleError::InvalidEntry => "invalid entry"@,
            RaffleError::NonAdjacentEntries => "non-adjacent entries"@,
            RaffleError::UnorderedAddresses => "entries must be ordered (asc) by addresses"@,
            RaffleError::NumWinnersZero => "num_winners == 0"@,
            RaffleError::NumWinnersTooMany => "num_winners > |entries|"@,
        }
    }

    pub fn message(&self) -> (m: &'static str)
        ensures
            m@ == self.message_spec(),
    {
        match self {
            RaffleError::TooFewEntries => "<2 entries",
            RaffleError::FirstStartNonzero => "first entry must start at 0",
            RaffleError::InvalidEntry => "invalid entry",
            RaffleError::NonAdjacentEntries => "non-adjacent entries",
            RaffleError::UnorderedAddresses => "entries must be ordered (asc) by addresses",
            RaffleError::NumWinnersZero => "num_winners == 0",
            RaffleError::NumWinnersTooMany => "num_winners > |entries|",
        }
    }
}

} // verus!
