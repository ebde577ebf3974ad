//! Governance and upgrade-safety core of a stake-weighted community service:
//! a ledger view, a proposal store with stake-weighted voting, an emergency
//! upgrade path, and the snapshot format that carries the state across a
//! code replacement.

pub mod ledger;
pub mod digest;
pub mod proposals;
pub mod state;
pub mod emergency;
pub mod snapshot;
pub mod backup;

use vstd::prelude::*;

verus! {

/// Errors that the governance operations return to their callers.
#[derive(Clone, Copy, Debug, PartialEq, Eq, Structural)]
pub enum GovError {
    /// The actor lacks the minimum balance that the action asks for.
    InsufficientStake,
    /// A code release without a binary.
    InvalidPayload,
    /// A vote or confirmation from an account that holds nothing.
    NoVotingPower,
    /// The proposal is no longer open.
    ProposalClosed,
    /// No proposal has the given id.
    ProposalNotFound,
    /// Only the proposer may cancel a proposal.
    NotProposer,
    /// An emergency confirmation named another binary than the pending one.
    DigestMismatch,
    /// The emergency confirmations do not reach the supermajority of the supply.
    SupermajorityNotReached,
    /// The treasury cannot pay an approved funding proposal.
    InsufficientTreasury,
    /// A transfer from an account holding less than the amount.
    InsufficientFunds,
    /// Minting would take the total supply past the largest amount.
    SupplyOverflow,
    /// No proposal id is left to assign.
    StoreFull,
    /// A snapshot that does not decode.
    CorruptSnapshot,
}

} // verus!
