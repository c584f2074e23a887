//! Error taxonomy for vault operations.

use vstd::prelude::*;

verus! {

/// The ways a vault operation can fail.
///
/// Deserialization failure at load time is deliberately absent: a stored
/// record that cannot be parsed degrades to an empty vault instead of
/// surfacing an error.
#[derive(Clone, Copy, Debug, PartialEq, Eq, Structural)]
pub enum VaultError {
    /// The underlying store could not be opened or read at startup.
    StorageOpen,
    /// A persist or flush operation failed; the in-memory state is unchanged.
    StorageWrite,
    /// Collision-avoidance retries were exhausted while minting a token.
    TokenSpaceExhausted,
    /// The operating system's secure randomness source failed, so no token
    /// candidate could be drawn.
    RandomnessUnavailable,
}

} // verus!
