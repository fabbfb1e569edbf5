//! A small durable key-value persistence layer.
//!
//! A named bundle of settings is held by a single owning process at a time,
//! guarded by a lock file whose staleness is judged against the live process
//! table.  The whole bundle is rewritten atomically on every mutation.
//!
//! This crate holds the verified core: the lock-token codec ([`token`]),
//! the liveness oracle and lock-acquisition decisions ([`liveness`],
//! [`lock`]), the key-value state with its disjointness invariant
//! ([`model`], [`entries`]), and the manifest codec with its round-trip
//! guarantee ([`manifest`], [`store`]).  [`host`] holds the three trusted
//! calls into the machine — process table, own pid, random nonce — whose
//! answers every decision takes as plain arguments.  The filesystem shell
//! that drives it all lives outside the verified library.

use vstd::prelude::*;

pub mod entries;
pub mod host;
pub mod liveness;
pub mod lock;
pub mod manifest;
pub mod model;
pub mod numerals;
pub mod store;
pub mod text;
pub mod token;

verus! {

/// The failure taxonomy of the library.
#[derive(Clone, Copy, Debug, PartialEq, Eq, Structural)]
pub enum Error {
    /// Another live process owns the bundle's lock.
    LockContended,
    /// The self-check after writing a lock file did not see our own token.
    LockInvariantViolation,
    /// No bundle (or no preserved entry) of the requested name exists.
    NotFound,
    /// A key collides across the `items` and `preserved` namespaces.
    NameConflict,
    /// A manifest failed to decode.
    Corrupt,
    /// An underlying filesystem operation failed.
    Io,
}

} // verus!
