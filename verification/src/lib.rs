//! A verifiable weighted raffle: a public entry list and a public seed
//! deterministically select a set of unique winners, together with
//! Keccak-256 Merkle commitments to the input list and the winner set, so
//! an outside verifier can recompute both roots.
use vstd::prelude::*;

pub mod bytes;
pub mod cycle;
pub mod errors;
pub mod feistel;
pub mod keccak;
pub mod merkle;
pub mod raffle;

use crate::errors::RaffleError;
use crate::feistel::MAX_SQUARE_DOMAIN;
use crate::merkle::{
    commitment_root_spec, get_commitment_root, get_winners_root, lemma_validate_iff, validate,
    winners_root_spec,
};
use crate::raffle::{seg_domain, Entry};

verus! {

/// The public output of one draw: the commitment to the entry list, the
/// seed echoed back, and the commitment to the winner set.
#[derive(Debug)]
pub struct RaffleOutput {
    pub commit_root: [u8; 32],
    pub seed: [u8; 32],
    pub winners_root: [u8; 32],
}

impl RaffleOutput {
    /// The 96-byte wire form: `commit_root || seed || winners_root`.
    pub fn encode(&self) -> (out: Vec<u8>)
        ensures
            out@ == self.commit_root@ + self.seed@ + self.winners_root@,
            out@.len() == 96,
    {
        let mut out: Vec<u8> = Vec::new();
        crate::bytes::push_array(&mut out, &self.commit_root);
        crate::bytes::push_array(&mut out, &self.seed);
        crate::bytes::push_array(&mut out, &self.winners_root);
        proof {
            assert(out@ =~= self.commit_root@ + self.seed@ + self.winners_root@);
        }
        out
    }
}

/// One complete draw: validates and commits to the entry list, draws
/// `num_winners` distinct winners, and commits to them. The entry-list
/// violations are reported first, then the winner-count violations.
pub fn run_raffle(seed: [u8; 32], entries: &Vec<Entry>, num_winners: u64) -> (res: Result<
    RaffleOutput,
    RaffleError,
>)
    requires
        entries@.len() > 0 ==> seg_domain(entries@) <= MAX_SQUARE_DOMAIN,
    ensures
        res is Ok <==> (validate(entries@) is None && 0 < num_winners <= entries@.len()),
        match res {
            Ok(out) => out.commit_root@ == commitment_root_spec(entries@) && out.seed == seed
                && out.winners_root@ == winners_root_spec(entries@, seed@, num_winners as int),
            Err(e) => if validate(entries@) is Some {
                validate(entries@) == Some(e)
            } else {
                (num_winners == 0 && e == RaffleError::NumWinnersZero) || (num_winners
                    > entries@.len() && e == RaffleError::NumWinnersTooMany)
            },
        },
{
    let commit_root = match get_commitment_root(entries) {
        Ok(root) => root,
        Err(e) => {
            return Err(e);
        },
    };
    proof {
        lemma_validate_iff(entries@);
    }
    let winners_root = match get_winners_root(num_winners, seed, entries) {
        Ok(root) => root,
        Err(e) => {
            return Err(e);
        },
    };
    Ok(RaffleOutput { commit_root, seed, winners_root })
}

} // verus!
