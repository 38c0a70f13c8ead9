//! A proactively-secure threshold Schnorr signing service over the
//! secp256k1 curve. A fixed, weighted committee establishes a shared
//! signing key by verifiable distributed key generation, periodically
//! refreshes its shares without moving the public key, and produces
//! FROST-style Schnorr signatures under a configurable vote threshold.
//!
//! The verified logic models every scalar by the field value it holds
//! and every curve point by its discrete logarithm; the curve and hash
//! primitives of the outside crates stand behind trusted wrappers in
//! `curve` and `frost_hash`.

use vstd::prelude::*;

verus! {

pub mod curve;
pub mod modmath;
pub mod ids;
pub mod poly;
pub mod interpolate;
pub mod matrix;
pub mod dkg;
pub mod dkg_state;
pub mod frost_context;
pub mod dpss;
pub mod frost_hash;
pub mod frost_error;
pub mod sign_task;
pub mod signer_group;
pub mod nonce_commitments;
pub mod sign_task_manager;
pub mod frost_state;
pub mod sign_manager;
pub mod laws;
pub mod share_sender;
pub mod payloads;
pub mod share_manager;

/// Total number of shares (votes) held by the whole committee in one epoch.
pub const TOTAL_VOTES: usize = 300;
/// Votes needed for a FROST signature (Byzantine threshold over the total).
pub const FROST_SIGN_VOTES: usize = 126;
/// Columns of the proactive resharing matrix.
pub const PROACTIVE_COL_VOTES: usize = 126;
/// Rows of the proactive resharing matrix that must be filled by resharing.
pub const PROACTIVE_ROW_VOTES: usize = 126;
/// Votes needed to close the key-generation stage of a resharing round.
pub const PROACTIVE_DKG_VOTES: usize = 126;
/// Reshare dealings needed to complete a resharing round.
pub const PROACTIVE_RESHARE_VOTES: usize = 126;

} // verus!
