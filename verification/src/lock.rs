//! Lock-acquisition decisions.
//!
//! The lock protocol itself is: read whatever token is on disk, judge
//! ownership, and either proceed, fail, or write our token and judge again.
//! The reads, writes and the settle delay are the shell's; every judgement
//! stands here, verified, over the values the shell read.

use vstd::prelude::*;

use crate::host::ProcessRecord;
use crate::liveness::{match_state_id, owner_alive, spec_owner_decision, WhoOwns};
use crate::token::{
    lemma_token_roundtrip, newline_free, spec_encode_token, spec_parse_token,
};
use crate::Error;

verus! {

/// The acquisition decision over the lock-file text the shell read
/// (`None`: no lock file stands there, or not as a regular file): ours
/// already, free to take, or contended by a live owner.
pub open spec fn spec_lock_decision(
    my: Seq<char>,
    contents: Option<Seq<char>>,
    table: Seq<ProcessRecord>,
) -> Result<bool, Error> {
    match contents {
        None => Ok(false),
        Some(c) => match spec_owner_decision(my, c, table) {
            WhoOwns::Me => Ok(true),
            WhoOwns::Other => Err(Error::LockContended),
            WhoOwns::Nobody => Ok(false),
        },
    }
}

/// The verdict after our token was written and ownership re-checked: only
/// seeing our own token back counts as success.
pub open spec fn spec_acquire_verdict(
    my: Seq<char>,
    contents: Option<Seq<char>>,
    table: Seq<ProcessRecord>,
) -> Result<(), Error> {
    match spec_lock_decision(my, contents, table) {
        Ok(true) => Ok(()),
        Ok(false) => Err(Error::LockInvariantViolation),
        Err(e) => Err(e),
    }
}

/// Judge whether the lock is already ours.
///
/// `Ok(true)`: the stored token is ours (idempotent re-acquire).
/// `Ok(false)`: nobody owns the lock; the caller may write its token.
/// `Err(LockContended)`: a live process owns it; the caller must stop.
pub fn get_lock_acquired(
    state_id: &str,
    lock_contents: Option<&String>,
    table: &Vec<ProcessRecord>,
) -> (r: Result<bool, Error>)
    ensures
        r == spec_lock_decision(
            state_id@,
            match lock_contents {
                Some(c) => Some(c@),
                None => None,
            },
            table@,
        ),
{
    match lock_contents {
        None => Ok(false),
        Some(c) => match match_state_id(state_id, c.as_str(), table) {
            WhoOwns::Me => Ok(true),
            WhoOwns::Other => Err(Error::LockContended),
            WhoOwns::Nobody => Ok(false),
        },
    }
}

/// Judge the re-check that follows writing our token: anything short of
/// seeing our own token back is a failure.
pub fn verify_acquired(
    state_id: &str,
    lock_contents: Option<&String>,
    table: &Vec<ProcessRecord>,
) -> (r: Result<(), Error>)
    ensures
        r == spec_acquire_verdict(
            state_id@,
            match lock_contents {
                Some(c) => Some(c@),
                None => None,
            },
            table@,
        ),
{
    match get_lock_acquired(state_id, lock_contents, table) {
        Ok(true) => Ok(()),
        Ok(false) => Err(Error::LockInvariantViolation),
        Err(e) => Err(e),
    }
}

/// Re-entry: a lock file holding our own token is already acquired.
pub proof fn lemma_reacquire_own_lock(my: Seq<char>, table: Seq<ProcessRecord>)
    ensures
        spec_lock_decision(my, Some(my), table) == Ok::<bool, Error>(true),
{
}

/// A missing lock file never blocks acquisition.
pub proof fn lemma_absent_lock(my: Seq<char>, table: Seq<ProcessRecord>)
    ensures
        spec_lock_decision(my, None, table) == Ok::<bool, Error>(false),
{
}

/// Exclusivity: a lock file holding another incarnation's token is
/// contended exactly as long as that incarnation is alive.
pub proof fn lemma_live_owner_excludes(
    my: Seq<char>,
    pid: nat,
    nonce: nat,
    exe: Seq<char>,
    table: Seq<ProcessRecord>,
)
    requires
        pid <= u32::MAX,
        newline_free(exe),
        spec_encode_token(pid, nonce, exe) != my,
        owner_alive(table, pid, exe),
    ensures
        spec_lock_decision(my, Some(spec_encode_token(pid, nonce, exe)), table) == Err::<
            bool,
            Error,
        >(Error::LockContended),
{
    lemma_token_roundtrip(pid, nonce, exe);
}

/// Stale-lock recovery: a token whose process is no longer in the live
/// table does not block acquisition, whatever its pid reads.
pub proof fn lemma_stale_lock_recovered(
    my: Seq<char>,
    pid: nat,
    nonce: nat,
    exe: Seq<char>,
    table: Seq<ProcessRecord>,
)
    requires
        pid <= u32::MAX,
        newline_free(exe),
        spec_encode_token(pid, nonce, exe) != my,
        !owner_alive(table, pid, exe),
    ensures
        spec_lock_decision(my, Some(spec_encode_token(pid, nonce, exe)), table) == Ok::<
            bool,
            Error,
        >(false),
{
    lemma_token_roundtrip(pid, nonce, exe);
}

/// Corrupt or foreign lock data is treated as abandoned, not as a block.
pub proof fn lemma_garbage_lock_recovered(
    my: Seq<char>,
    c: Seq<char>,
    table: Seq<ProcessRecord>,
)
    requires
        c != my,
        spec_parse_token(c) is None,
    ensures
        spec_lock_decision(my, Some(c), table) == Ok::<bool, Error>(false),
{
}

} // verus!
