use nonvolatile::host::{current_pid, live_process_table, random_nonce, ProcessRecord};
use nonvolatile::liveness::{match_state_id, WhoOwns};
use nonvolatile::lock::{get_lock_acquired, verify_acquired};
use nonvolatile::token::{get_state_id, make_state_id};
use nonvolatile::Error;

fn fake_table() -> Vec<ProcessRecord> {
    vec![
        ProcessRecord { pid: 1, exe: Some(String::from("/sbin/init")) },
        ProcessRecord { pid: 1234, exe: Some(String::from("/usr/bin/other")) },
        ProcessRecord { pid: 4321, exe: None },
    ]
}

#[test]
fn own_token_is_recognized() {
    let my = "77\n5\n/usr/bin/me";
    assert_eq!(match_state_id(my, my, &fake_table()), WhoOwns::Me);
}

#[test]
fn live_owner_is_detected() {
    let my = "77\n5\n/usr/bin/me";
    let other = "1234\n99\n/usr/bin/other";
    assert_eq!(match_state_id(my, other, &fake_table()), WhoOwns::Other);
}

#[test]
fn recycled_pid_under_other_executable_is_nobody() {
    let my = "77\n5\n/usr/bin/me";
    let stale = "1234\n99\n/usr/bin/something-else";
    assert_eq!(match_state_id(my, stale, &fake_table()), WhoOwns::Nobody);
}

#[test]
fn dead_pid_is_nobody() {
    let my = "77\n5\n/usr/bin/me";
    let stale = "999999\n99\n/usr/bin/other";
    assert_eq!(match_state_id(my, stale, &fake_table()), WhoOwns::Nobody);
}

#[test]
fn process_without_known_executable_is_nobody() {
    let my = "77\n5\n/usr/bin/me";
    let claim = "4321\n99\n";
    assert_eq!(match_state_id(my, claim, &fake_table()), WhoOwns::Nobody);
}

#[test]
fn corrupt_token_is_nobody() {
    let my = "77\n5\n/usr/bin/me";
    assert_eq!(match_state_id(my, "", &fake_table()), WhoOwns::Nobody);
    assert_eq!(match_state_id(my, "scribbles", &fake_table()), WhoOwns::Nobody);
    assert_eq!(match_state_id(my, "x\ny\nz", &fake_table()), WhoOwns::Nobody);
}

#[test]
fn missing_lock_file_is_free() {
    let my = "77\n5\n/usr/bin/me";
    assert_eq!(get_lock_acquired(my, None, &fake_table()), Ok(false));
}

#[test]
fn own_lock_file_reacquires() {
    let my = "77\n5\n/usr/bin/me";
    let contents = String::from("77\n5\n/usr/bin/me");
    assert_eq!(get_lock_acquired(my, Some(&contents), &fake_table()), Ok(true));
}

#[test]
fn contended_lock_errors() {
    let my = "77\n5\n/usr/bin/me";
    let contents = String::from("1234\n99\n/usr/bin/other");
    assert_eq!(
        get_lock_acquired(my, Some(&contents), &fake_table()),
        Err(Error::LockContended)
    );
}

#[test]
fn stale_lock_does_not_block() {
    let my = "77\n5\n/usr/bin/me";
    let contents = String::from("999999\n99\n/nonexistent/exe");
    assert_eq!(get_lock_acquired(my, Some(&contents), &fake_table()), Ok(false));
}

#[test]
fn stale_lock_against_real_process_table() {
    let my = "77\n5\n/usr/bin/me";
    let contents = String::from("999999\n99\n/surely/not/a/real/executable/path");
    let table = live_process_table();
    assert_eq!(get_lock_acquired(my, Some(&contents), &table), Ok(false));
}

#[test]
fn verify_sees_own_token_back() {
    let my = "77\n5\n/usr/bin/me";
    let contents = String::from("77\n5\n/usr/bin/me");
    assert_eq!(verify_acquired(my, Some(&contents), &fake_table()), Ok(()));
}

#[test]
fn verify_fails_when_token_vanished() {
    let my = "77\n5\n/usr/bin/me";
    assert_eq!(
        verify_acquired(my, None, &fake_table()),
        Err(Error::LockInvariantViolation)
    );
    let foreign_dead = String::from("999999\n99\n/nonexistent/exe");
    assert_eq!(
        verify_acquired(my, Some(&foreign_dead), &fake_table()),
        Err(Error::LockInvariantViolation)
    );
}

#[test]
fn verify_fails_when_another_owner_won() {
    let my = "77\n5\n/usr/bin/me";
    let winner = String::from("1234\n99\n/usr/bin/other");
    assert_eq!(
        verify_acquired(my, Some(&winner), &fake_table()),
        Err(Error::LockContended)
    );
}

#[test]
fn identity_is_built_from_the_tables_answer() {
    let id = make_state_id(1234, 99, &fake_table()).expect("the table lists pid 1234");
    assert_eq!(id, "1234\n99\n/usr/bin/other");
}

#[test]
fn identity_fails_for_a_pid_the_table_does_not_list() {
    assert_eq!(make_state_id(999999, 7, &fake_table()), Err(Error::Io));
}

#[test]
fn identity_fails_for_a_pid_without_a_known_executable() {
    assert_eq!(make_state_id(4321, 7, &fake_table()), Err(Error::Io));
}

#[test]
fn identity_names_this_process() {
    let pid = current_pid().expect("this process has a pid");
    let table = live_process_table();
    assert!(table.iter().any(|r| r.pid == pid));
    let id = get_state_id().expect("this process can name itself");
    let prefix = format!("{}\n", pid);
    assert!(id.starts_with(&prefix));
    let _ = random_nonce();
}

#[test]
fn own_identity_reacquires_against_real_table() {
    let id = get_state_id().expect("this process can name itself");
    let table = live_process_table();
    assert_eq!(match_state_id(&id, &id, &table), WhoOwns::Me);
}
