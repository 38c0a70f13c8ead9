//! Errors of the FROST signing layer.

use vstd::prelude::*;

verus! {

#[derive(Clone, Copy, Debug, PartialEq, Eq)]
pub enum FrostError {
    /// The valid members no longer hold enough shares for the threshold.
    NotEnoughSigningShares,
    /// Fewer than two members have an unused pre-committed nonce left.
    NotEnoughUnusedPreCommit,
    /// A first pre-commit arrived after the epoch started.
    TooLatePreCommit,
    /// The epoch's first round has not been started.
    EpochNotStart,
    /// The member was ejected from the signer group.
    EjectedNode,
    /// No open task carries this identifier.
    UnknownSignTask,
    /// The signer is not a participant of the task.
    UnknownSigner,
    /// The member is not part of the epoch's committee.
    UnknownNodeID,
    /// The signature share fails its verification equation.
    InvalidSignatureShare,
    /// The signer already handed in its share.
    DuplicatedSignatureShare,
    /// A pre-committed nonce commitment is the identity point.
    IdentityNonceCommitment,
    /// A pre-commit does not match its announced commitments.
    InconsistentNonceCommitment,
}

} // verus!
