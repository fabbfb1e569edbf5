//! The liveness oracle.
//!
//! Given our own identity, the text read back from a lock file, and the live
//! process table, decide who owns the bundle.  The pid and executable path
//! are checked together: a recycled pid under an unrelated executable does
//! not count as the owner, and a token of a dead process counts as nobody's.

use vstd::prelude::*;

use crate::host::ProcessRecord;
use crate::text::{opt_str_eq, str_eq};
use crate::token::{parse_token, spec_parse_token};

verus! {

/// Who owns a bundle, as judged from its lock file.
#[derive(Clone, Copy, Debug, PartialEq, Eq, Structural)]
pub enum WhoOwns {
    /// The stored token is ours, byte for byte.
    Me,
    /// The stored token names a process that is still alive.
    Other,
    /// The stored token is absent, corrupt, or names a dead process.
    Nobody,
}

/// `r` is a live process with id `pid` running the executable at `exe`.
pub open spec fn record_matches(r: ProcessRecord, pid: nat, exe: Seq<char>) -> bool {
    &&& r.pid == pid
    &&& match r.exe {
        Some(e) => e@ == exe,
        None => false,
    }
}

/// Some process in `table` has both the id `pid` and the executable `exe`.
pub open spec fn owner_alive(table: Seq<ProcessRecord>, pid: nat, exe: Seq<char>) -> bool {
    exists|k: int| 0 <= k < table.len() && record_matches(#[trigger] table[k], pid, exe)
}

/// The ownership decision of the liveness oracle.
///
/// Our own token, byte-identical, means we already hold the lock.  A stored
/// token that does not parse is treated as abandoned.  One that parses is
/// the owner's exactly when its pid and executable path are both live.
pub open spec fn spec_owner_decision(
    my: Seq<char>,
    read: Seq<char>,
    table: Seq<ProcessRecord>,
) -> WhoOwns {
    if my == read {
        WhoOwns::Me
    } else {
        match spec_parse_token(read) {
            None => WhoOwns::Nobody,
            Some(t) => if owner_alive(table, t.0, t.1) {
                WhoOwns::Other
            } else {
                WhoOwns::Nobody
            },
        }
    }
}

/// Judge, against the given process table, who owns the bundle whose lock
/// file holds `read_id`.
pub fn match_state_id(my_id: &str, read_id: &str, table: &Vec<ProcessRecord>) -> (r: WhoOwns)
    ensures
        r == spec_owner_decision(my_id@, read_id@, table@),
{
    if str_eq(my_id, read_id) {
        return WhoOwns::Me;
    }
    let owner = match parse_token(read_id) {
        Some(o) => o,
        None => {
            return WhoOwns::Nobody;
        },
    };
    let ghost t = spec_parse_token(read_id@)->Some_0;
    let mut k: usize = 0;
    while k < table.len()
        invariant
            k <= table@.len(),
            my_id@ != read_id@,
            owner.pid == t.0,
            owner.exe@ == t.1,
            spec_parse_token(read_id@) == Some(t),
            forall|m: int| 0 <= m < k ==> !record_matches(#[trigger] table@[m], t.0, t.1),
        decreases table@.len() - k,
    {
        let rec = &table[k];
        if rec.pid == owner.pid && opt_str_eq(&rec.exe, owner.exe.as_str()) {
            proof {
                assert(record_matches(table@[k as int], t.0, t.1));
            }
            return WhoOwns::Other;
        }
        k = k + 1;
    }
    WhoOwns::Nobody
}

} // verus!
