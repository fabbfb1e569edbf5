use nonvolatile::manifest::encode_manifest;
use nonvolatile::model::State;
use nonvolatile::store::load_state;
use nonvolatile::Error;

fn reload(st: &State, identifier: &str) -> State {
    let text = encode_manifest(st);
    load_state(st.name().as_str(), "/tmp/root", String::from(identifier), &text)
        .expect("a written manifest loads")
}

#[test]
fn fresh_state_is_empty() {
    let st = State::fresh("foo", "/tmp/root", String::from("id"));
    assert_eq!(st.name().as_str(), "foo");
    assert_eq!(st.path().as_str(), "/tmp/root/foo");
    assert_eq!(st.identifier().as_str(), "id");
    assert_eq!(st.lockfile_path().as_str(), "/tmp/root/foo/~rust_nonvolatile.lock");
    assert_eq!(st.manifest_path().as_str(), "/tmp/root/foo/.manifest");
    assert_eq!(st.tmp_manifest_path().as_str(), "/tmp/root/foo/.manifest_tmp");
    assert!(!st.has("anything"));
}

#[test]
fn test_has() {
    let mut s = State::fresh("test_has", "/tmp/root", String::from("id"));
    assert_eq!(s.has("something"), false);
    s.set("something", String::from("something")).unwrap();
    assert_eq!(s.has("something"), true);
    assert_eq!(s.has("something else"), false);
}

#[test]
fn test_delete_var() {
    let mut s = State::fresh("test_delete_var", "/tmp/root", String::from("id"));
    s.set("foo", String::from("bar")).unwrap();
    assert_eq!(s.has("foo"), true);
    let _ = s.delete("foo");
    assert_eq!(s.has("foo"), false);
}

#[test]
fn test_manifest_write() {
    let mut s = State::fresh("test_manifest_write", "/tmp/root", String::from("id1"));
    s.set("test manifest write", String::from("foobar")).unwrap();

    let mut s = reload(&s, "id2");
    assert_eq!(s.get("test manifest write"), Some(String::from("foobar")));
    let _ = s.delete("test manifest write");

    let s = reload(&s, "id3");
    assert_eq!(s.has("test manifest write"), false);
}

#[test]
fn test_example() {
    let mut state = State::fresh("foo", "/tmp/root", String::from("id1"));
    state.set("var", String::from("some value")).unwrap();
    state.set("user_wants_pie", String::from("true")).unwrap();

    let state = reload(&state, "id2");
    assert_eq!(state.get("user_wants_pie"), Some(String::from("true")));
    assert_eq!(state.get("var").unwrap(), "some value");
}

#[test]
fn set_overwrites() {
    let mut s = State::fresh("bundle", "/tmp/root", String::from("id"));
    s.set("k", String::from("v1")).unwrap();
    s.set("k", String::from("v2")).unwrap();
    assert_eq!(s.get("k"), Some(String::from("v2")));
    let s = reload(&s, "id2");
    assert_eq!(s.get("k"), Some(String::from("v2")));
}

#[test]
fn get_of_missing_key_is_none() {
    let s = State::fresh("bundle", "/tmp/root", String::from("id"));
    assert_eq!(s.get("missing"), None);
}

#[test]
fn delete_of_absent_key_is_a_noop() {
    let mut s = State::fresh("bundle", "/tmp/root", String::from("id"));
    s.set("kept", String::from("value")).unwrap();
    let before = encode_manifest(&s);
    assert_eq!(s.delete("never set"), None);
    let after = encode_manifest(&s);
    assert_eq!(before, after);
    assert_eq!(s.get("kept"), Some(String::from("value")));
}

#[test]
fn namespaces_stay_disjoint() {
    let mut s = State::fresh("bundle", "/tmp/root", String::from("id"));
    s.set("var", String::from("value")).unwrap();
    s.preserve_commit("saved", String::from("/etc/hosts")).unwrap();

    assert_eq!(s.set("saved", String::from("clash")), Err(Error::NameConflict));
    assert_eq!(
        s.preserve_commit("var", String::from("/etc/clash")),
        Err(Error::NameConflict)
    );
    assert!(matches!(s.preserve_stage("var"), Err(Error::NameConflict)));

    assert!(s.has("var"));
    assert!(s.has("saved"));
    let s = reload(&s, "id2");
    assert!(s.has("var"));
    assert!(s.has("saved"));
    assert_eq!(s.get("saved"), None);
}

#[test]
fn preserve_paths_and_restore() {
    let mut s = State::fresh("bundle", "/tmp/root", String::from("id"));
    let (staged, dest) = s.preserve_stage("snapshot").unwrap();
    assert_eq!(staged, "/tmp/root/bundle/tmp_snapshot");
    assert_eq!(dest, "/tmp/root/bundle/snapshot");
    s.preserve_commit("snapshot", String::from("/home/user/data")).unwrap();

    assert_eq!(
        s.restore_source("snapshot").unwrap(),
        "/tmp/root/bundle/snapshot"
    );
    assert_eq!(s.restore_origin("snapshot").unwrap(), "/home/user/data");
    assert_eq!(s.restore_source("unknown"), Err(Error::NotFound));
    assert_eq!(s.restore_origin("unknown"), Err(Error::NotFound));
}

#[test]
fn delete_of_preserved_entry_names_the_stored_copy() {
    let mut s = State::fresh("bundle", "/tmp/root", String::from("id"));
    s.preserve_commit("snapshot", String::from("/home/user/data")).unwrap();
    assert_eq!(s.delete("snapshot"), Some(String::from("/tmp/root/bundle/snapshot")));
    assert!(!s.has("snapshot"));
    assert_eq!(s.restore_source("snapshot"), Err(Error::NotFound));
}

#[test]
fn load_recomputes_identity_and_paths() {
    let mut s = State::fresh("bundle", "/old/root", String::from("old-id"));
    s.set("k", String::from("v")).unwrap();
    let text = encode_manifest(&s);
    let loaded = load_state("bundle", "/new/root", String::from("new-id"), &text).unwrap();
    assert_eq!(loaded.identifier().as_str(), "new-id");
    assert_eq!(loaded.path().as_str(), "/new/root/bundle");
    assert_eq!(loaded.lockfile_path().as_str(), "/new/root/bundle/~rust_nonvolatile.lock");
    assert_eq!(loaded.get("k"), Some(String::from("v")));
}

#[test]
fn load_rejects_corrupt_text() {
    assert_eq!(
        load_state("b", "/tmp/root", String::from("id"), "scribbles")
            .map(|_| ())
            .unwrap_err(),
        Error::Corrupt
    );
}

fn field(s: &str) -> String {
    format!("{}\n{}\n", s.chars().count(), s)
}

#[test]
fn load_rejects_overlapping_namespaces() {
    let text = format!(
        "{}{}{}{}{}{}1\n{}{}1\n{}{}",
        field("b"),
        field("/tmp/root/b"),
        field("id"),
        field("/tmp/root/b/~rust_nonvolatile.lock"),
        field("/tmp/root/b/.manifest"),
        field("/tmp/root/b/.manifest_tmp"),
        field("clash"),
        field("value"),
        field("clash"),
        field("/etc/hosts"),
    );
    assert_eq!(
        load_state("b", "/tmp/root", String::from("id"), &text)
            .map(|_| ())
            .unwrap_err(),
        Error::Corrupt
    );
}

#[test]
fn load_rejects_duplicate_keys() {
    let text = format!(
        "{}{}{}{}{}{}2\n{}{}{}{}0\n",
        field("b"),
        field("/tmp/root/b"),
        field("id"),
        field("/tmp/root/b/~rust_nonvolatile.lock"),
        field("/tmp/root/b/.manifest"),
        field("/tmp/root/b/.manifest_tmp"),
        field("twin"),
        field("one"),
        field("twin"),
        field("two"),
    );
    assert_eq!(
        load_state("b", "/tmp/root", String::from("id"), &text)
            .map(|_| ())
            .unwrap_err(),
        Error::Corrupt
    );
}

#[test]
fn interrupted_write_leaves_previous_manifest_valid() {
    let mut s = State::fresh("bundle", "/tmp/root", String::from("id1"));
    s.set("k", String::from("committed")).unwrap();
    let committed = encode_manifest(&s);

    s.set("k", String::from("half-written")).unwrap();
    let _staged_but_never_renamed = encode_manifest(&s);

    let recovered = load_state("bundle", "/tmp/root", String::from("id2"), &committed)
        .expect("the committed manifest still loads");
    assert_eq!(recovered.get("k"), Some(String::from("committed")));
}

#[test]
fn create_set_reload_get_scenario() {
    let mut s = State::fresh("foo", "/tmp/root", String::from("id1"));
    s.set("var", String::from("hello")).unwrap();
    let text = encode_manifest(&s);
    let loaded = load_state("foo", "/tmp/root", String::from("id2"), &text).unwrap();
    assert_eq!(loaded.get("var"), Some(String::from("hello")));
}
