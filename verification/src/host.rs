//! Calls into the host system.
//!
//! The liveness oracle and the identity generator need three facts the
//! machine alone can supply: the live process table, this process's id, and
//! a random nonce.  Each call stands behind a trusted wrapper that hands the
//! answer over as plain values; every decision taken on those values is made
//! in verified code that receives them as arguments.

use vstd::prelude::*;

verus! {

/// One live process: its id and, where the system knows it, the path of its
/// executable.
pub struct ProcessRecord {
    pub pid: u32,
    pub exe: Option<String>,
}

/// Relies on sysinfo's `System`: `refresh_processes` fills the process table
/// and `processes` hands it out.  The result depends on the machine's state
/// at the moment of the scan, so nothing is promised of it.
#[verifier::external_body]
pub fn live_process_table() -> (r: Vec<ProcessRecord>) {
    let mut system = sysinfo::System::new();
    system.refresh_processes(sysinfo::ProcessesToUpdate::All, true);
    let mut table = Vec::new();
    for (pid, process) in system.processes() {
        let exe = match process.exe() {
            Some(p) => Some(p.to_string_lossy().to_string()),
            None => None,
        };
        table.push(ProcessRecord { pid: pid.as_u32(), exe });
    }
    table
}

/// Relies on `sysinfo::get_current_pid`, which reports the running process's
/// id or fails with a message on platforms without one.
#[verifier::external_body]
pub fn current_pid() -> (r: Option<u32>) {
    match sysinfo::get_current_pid() {
        Ok(pid) => Some(pid.as_u32()),
        Err(_) => None,
    }
}

/// Relies on `rand::random`, which draws a value from the thread-local
/// generator.  A random result admits no promise.
#[verifier::external_body]
pub fn random_nonce() -> (r: u32) {
    rand::random::<u32>()
}

} // verus!
