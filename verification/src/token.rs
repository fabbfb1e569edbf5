//! Lock tokens.
//!
//! A token names one process incarnation: its process id, a random 32-bit
//! nonce against pid reuse, and the path of its executable.  A token travels
//! through the lock file as three newline-delimited parts; two tokens are
//! equal exactly when all three fields match.

use vstd::prelude::*;
use vstd::string::StrSliceExecFns;
use vstd::string::StringExecFns;

use crate::host::{current_pid, live_process_table, random_nonce, ProcessRecord};
use crate::numerals::{
    all_digits, dec_digits, dec_value, digit_run_end, is_digit, lemma_dec_digits,
    lemma_dec_digits_injective, lemma_digit_run_end_bounds, lemma_digit_run_end_is, parse_u64,
    u64_to_string,
};
use crate::text::{find_char, find_from, lemma_find_from_bounds, lemma_find_from_is};
use crate::Error;

verus! {

/// No newline stands in `s`.
pub open spec fn newline_free(s: Seq<char>) -> bool {
    forall|i: int| 0 <= i < s.len() ==> #[trigger] s[i] != '\n'
}

/// The identity of one process incarnation.
pub struct LockToken {
    pub pid: u32,
    pub nonce: u32,
    pub exe: String,
}

/// The three fields of a token, newline-delimited.
pub open spec fn spec_encode_token(pid: nat, nonce: nat, exe: Seq<char>) -> Seq<char> {
    dec_digits(pid) + seq!['\n'] + dec_digits(nonce) + seq!['\n'] + exe
}

/// What a stored token denotes: its process id and executable path.
///
/// The text must fall into exactly three newline-delimited parts whose first
/// part is a decimal process id no wider than 32 bits; the middle part (the
/// nonce) is carried but not interpreted.  Anything else denotes no owner.
pub open spec fn spec_parse_token(s: Seq<char>) -> Option<(nat, Seq<char>)> {
    let i = find_from(s, 0, '\n');
    let j = find_from(s, i + 1, '\n');
    if i == s.len() || j == s.len() || find_from(s, j + 1, '\n') != s.len() {
        None
    } else {
        let part0 = s.subrange(0, i);
        if part0.len() > 0 && all_digits(part0) && dec_value(part0) <= u32::MAX {
            Some((dec_value(part0), s.subrange(j + 1, s.len() as int)))
        } else {
            None
        }
    }
}

/// The process id and executable path read back from a lock file.
pub struct StoredOwner {
    pub pid: u32,
    pub exe: String,
}

/// Render a token as lock-file text.
pub fn encode_token(t: &LockToken) -> (r: String)
    ensures
        r@ == spec_encode_token(t.pid as nat, t.nonce as nat, t.exe@),
{
    proof {
        reveal_strlit("\n");
        assert("\n"@ =~= seq!['\n']);
    }
    let mut r = u64_to_string(t.pid as u64);
    r.append("\n");
    let nonce = u64_to_string(t.nonce as u64);
    r.append(nonce.as_str());
    r.append("\n");
    r.append(t.exe.as_str());
    proof {
        assert(r@ =~= spec_encode_token(t.pid as nat, t.nonce as nat, t.exe@));
    }
    r
}

/// Read a stored token back from lock-file text.
pub fn parse_token(s: &str) -> (r: Option<StoredOwner>)
    ensures
        match spec_parse_token(s@) {
            Some(t) => match r {
                Some(o) => o.pid == t.0 && o.exe@ == t.1,
                None => false,
            },
            None => r is None,
        },
{
    let len = s.unicode_len();
    let i = match find_char(s, 0, '\n') {
        Some(i) => i,
        None => {
            return None;
        },
    };
    let j = match find_char(s, i + 1, '\n') {
        Some(j) => j,
        None => {
            return None;
        },
    };
    if find_char(s, j + 1, '\n').is_some() {
        return None;
    }
    proof {
        lemma_find_from_bounds(s@, 0, '\n');
        lemma_digit_run_end_bounds(s@, 0);
        let part0 = s@.subrange(0, i as int);
        assert(s@[i as int] == '\n');
        assert(!is_digit('\n'));
        if digit_run_end(s@, 0) > i as int {
            assert(is_digit(s@[i as int]));
            assert(false);
        }
        if part0.len() > 0 && all_digits(part0) {
            assert forall|k: int| 0 <= k < i implies is_digit(#[trigger] s@[k]) by {
                assert(part0[k] == s@[k]);
                assert(is_digit(part0[k]));
            }
            lemma_digit_run_end_is(s@, 0, i as int);
        }
        assert(s@.subrange(0, digit_run_end(s@, 0)).len() == digit_run_end(s@, 0));
    }
    let (v, e) = match parse_u64(s, 0) {
        Some(p) => p,
        None => {
            proof {
                let part0 = s@.subrange(0, i as int);
                if part0.len() > 0 && all_digits(part0) && dec_value(part0) <= u32::MAX {
                    assert(digit_run_end(s@, 0) == i);
                    assert(dec_value(s@.subrange(0, digit_run_end(s@, 0))) == dec_value(part0));
                    assert(is_digit(part0[0]));
                    assert(is_digit(s@[0]));
                    assert(false);
                }
            }
            return None;
        },
    };
    if e != i || v > u32::MAX as u64 {
        proof {
            let part0 = s@.subrange(0, i as int);
            if part0.len() > 0 && all_digits(part0) && dec_value(part0) <= u32::MAX {
                assert(digit_run_end(s@, 0) == i);
                assert(dec_value(s@.subrange(0, i as int)) == dec_value(part0));
                assert(false);
            }
        }
        return None;
    }
    let exe = s.substring_char(j + 1, len).to_owned();
    proof {
        let part0 = s@.subrange(0, i as int);
        assert(i == digit_run_end(s@, 0));
        assert(is_digit(s@[0]));
        assert(part0.len() > 0);
        assert(forall|k: int| 0 <= k < part0.len() ==> is_digit(#[trigger] part0[k])) by {
            assert(forall|k: int| 0 <= k < i ==> is_digit(#[trigger] s@[k]));
        }
        assert(all_digits(part0));
        assert(dec_value(part0) == v);
        assert(spec_parse_token(s@) == Some((v as nat, s@.subrange(j + 1, s@.len() as int))));
    }
    Some(StoredOwner { pid: v as u32, exe })
}

/// Where the encoding of a token stops: the first newline closes the pid,
/// the second closes the nonce, and the remainder is the executable path.
pub proof fn lemma_encode_token_parts(pid: nat, nonce: nat, exe: Seq<char>)
    requires
        newline_free(exe),
    ensures
        ({
            let s = spec_encode_token(pid, nonce, exe);
            let i = dec_digits(pid).len() as int;
            let j = i + 1 + dec_digits(nonce).len();
            &&& s.len() == i + 1 + dec_digits(nonce).len() + 1 + exe.len()
            &&& find_from(s, 0, '\n') == i
            &&& find_from(s, i + 1, '\n') == j
            &&& find_from(s, j + 1, '\n') == s.len()
            &&& s.subrange(0, i) == dec_digits(pid)
            &&& s.subrange(i + 1, j) == dec_digits(nonce)
            &&& s.subrange(j + 1, s.len() as int) == exe
        }),
{
    lemma_dec_digits(pid);
    lemma_dec_digits(nonce);
    let s = spec_encode_token(pid, nonce, exe);
    let dp = dec_digits(pid);
    let dn = dec_digits(nonce);
    let i = dp.len() as int;
    let j = i + 1 + dn.len();
    assert(s.subrange(0, i) =~= dp);
    assert(s.subrange(i + 1, j) =~= dn);
    assert(s.subrange(j + 1, s.len() as int) =~= exe);
    assert(s[i] == '\n');
    assert(s[j] == '\n');
    assert forall|k: int| 0 <= k < i implies s[k] != '\n' by {
        assert(s[k] == dp[k]);
        assert(is_digit(dp[k]));
    }
    assert forall|k: int| i + 1 <= k < j implies s[k] != '\n' by {
        assert(s[k] == dn[k - (i + 1)]);
        assert(is_digit(dn[k - (i + 1)]));
    }
    assert forall|k: int| j + 1 <= k < s.len() implies s[k] != '\n' by {
        assert(s[k] == exe[k - (j + 1)]);
    }
    lemma_find_from_is(s, 0, i, '\n');
    lemma_find_from_is(s, i + 1, j, '\n');
    lemma_find_from_is(s, j + 1, s.len() as int, '\n');
}

/// Round trip: a token whose executable path holds no newline is read back
/// from its encoding with its process id and path intact.
pub proof fn lemma_token_roundtrip(pid: nat, nonce: nat, exe: Seq<char>)
    requires
        pid <= u32::MAX,
        newline_free(exe),
    ensures
        spec_parse_token(spec_encode_token(pid, nonce, exe)) == Some((pid, exe)),
{
    lemma_encode_token_parts(pid, nonce, exe);
    lemma_dec_digits(pid);
    let s = spec_encode_token(pid, nonce, exe);
    let i = dec_digits(pid).len() as int;
    let j = i + 1 + dec_digits(nonce).len();
    assert(s.subrange(0, find_from(s, 0, '\n')) == dec_digits(pid));
    assert(s.subrange(j + 1, s.len() as int) == exe);
}

/// Two tokens encode to the same text exactly when all three fields match.
pub proof fn lemma_token_encoding_injective(
    pid1: nat,
    nonce1: nat,
    exe1: Seq<char>,
    pid2: nat,
    nonce2: nat,
    exe2: Seq<char>,
)
    requires
        newline_free(exe1),
        newline_free(exe2),
    ensures
        spec_encode_token(pid1, nonce1, exe1) == spec_encode_token(pid2, nonce2, exe2) <==> (pid1
            == pid2 && nonce1 == nonce2 && exe1 == exe2),
{
    if spec_encode_token(pid1, nonce1, exe1) == spec_encode_token(pid2, nonce2, exe2) {
        lemma_encode_token_parts(pid1, nonce1, exe1);
        lemma_encode_token_parts(pid2, nonce2, exe2);
        let s = spec_encode_token(pid1, nonce1, exe1);
        let i = find_from(s, 0, '\n');
        let j = find_from(s, i + 1, '\n');
        assert(dec_digits(pid1) == s.subrange(0, i));
        assert(dec_digits(pid2) == s.subrange(0, i));
        lemma_dec_digits_injective(pid1, pid2);
        assert(dec_digits(nonce1) == s.subrange(i + 1, j));
        assert(dec_digits(nonce2) == s.subrange(i + 1, j));
        lemma_dec_digits_injective(nonce1, nonce2);
        assert(exe1 == s.subrange(j + 1, s.len() as int));
        assert(exe2 == s.subrange(j + 1, s.len() as int));
    }
}

/// The entry at `k` names a live process with id `pid` and a known
/// executable path.
pub open spec fn table_names_pid(table: Seq<ProcessRecord>, pid: u32, k: int) -> bool {
    &&& 0 <= k < table.len()
    &&& table[k].pid == pid
    &&& table[k].exe is Some
}

/// Build the identity token for the process `pid`, with the nonce `nonce`,
/// from the executable path the given process table lists for `pid`.
///
/// Succeeds exactly when some table entry carries `pid` together with a
/// known executable path; the token is then the encoding of `pid`, `nonce`
/// and that path.  Fails with `Io` exactly when no entry does.
pub fn make_state_id(pid: u32, nonce: u32, table: &Vec<ProcessRecord>) -> (r: Result<
    String,
    Error,
>)
    ensures
        match r {
            Ok(id) => exists|k: int|
                table_names_pid(table@, pid, k) && id@ == spec_encode_token(
                    pid as nat,
                    nonce as nat,
                    (#[trigger] table@[k]).exe->Some_0@,
                ),
            Err(e) => e == Error::Io && forall|k: int| !table_names_pid(table@, pid, k),
        },
{
    let mut idx: usize = 0;
    while idx < table.len()
        invariant
            idx <= table@.len(),
            forall|k: int| 0 <= k < idx ==> !table_names_pid(table@, pid, k),
        decreases table@.len() - idx,
    {
        if table[idx].pid == pid {
            match &table[idx].exe {
                Some(e) => {
                    let token = LockToken { pid, nonce, exe: e.clone() };
                    let id = encode_token(&token);
                    proof {
                        assert(table_names_pid(table@, pid, idx as int));
                        assert(id@ == spec_encode_token(
                            pid as nat,
                            nonce as nat,
                            table@[idx as int].exe->Some_0@,
                        ));
                    }
                    return Ok(id);
                },
                None => {},
            }
        }
        idx = idx + 1;
    }
    Err(Error::Io)
}

/// Generate the identity of this process incarnation: its pid, a fresh
/// random nonce, and its executable path as the live process table reports
/// it.
///
/// The host's answers decide: the pid comes from the host, the nonce from
/// the random source, and the table from a scan, so this function promises
/// only the shape of the token.  `make_state_id` carries the exact
/// contract over those answers as arguments: what succeeds, what fails,
/// and how the token is built from them.
pub fn get_state_id() -> (r: Result<String, Error>)
    ensures
        match r {
            Ok(id) => exists|pid: nat, nonce: nat, exe: Seq<char>|
                pid <= u32::MAX && nonce <= u32::MAX && id@ == spec_encode_token(pid, nonce, exe),
            Err(e) => e == Error::Io,
        },
{
    let pid = match current_pid() {
        Some(p) => p,
        None => {
            return Err(Error::Io);
        },
    };
    let table = live_process_table();
    let nonce = random_nonce();
    let r = make_state_id(pid, nonce, &table);
    proof {
        if r is Ok {
            let id = r->Ok_0;
            let k = choose|k: int|
                table_names_pid(table@, pid, k) && id@ == spec_encode_token(
                    pid as nat,
                    nonce as nat,
                    (#[trigger] table@[k]).exe->Some_0@,
                );
            assert(id@ == spec_encode_token(pid as nat, nonce as nat, table@[k].exe->Some_0@));
            assert(pid as nat <= u32::MAX && nonce as nat <= u32::MAX);
        }
    }
    r
}

} // verus!
