use nonvolatile::manifest::{encode_manifest, parse_manifest};
use nonvolatile::model::State;
use nonvolatile::numerals::{parse_u64, u64_to_string};
use nonvolatile::text::{find_char, path_join, str_eq};
use nonvolatile::token::{encode_token, parse_token, LockToken};

#[test]
fn numeral_rendering() {
    assert_eq!(u64_to_string(0), "0");
    assert_eq!(u64_to_string(7), "7");
    assert_eq!(u64_to_string(12345), "12345");
    assert_eq!(u64_to_string(u64::MAX), "18446744073709551615");
}

#[test]
fn numeral_parsing() {
    assert_eq!(parse_u64("12345", 0), Some((12345, 5)));
    assert_eq!(parse_u64("007", 0), Some((7, 3)));
    assert_eq!(parse_u64("42x", 0), Some((42, 2)));
    assert_eq!(parse_u64("x42", 0), None);
    assert_eq!(parse_u64("", 0), None);
    assert_eq!(parse_u64("18446744073709551615", 0), Some((u64::MAX, 20)));
    assert_eq!(parse_u64("18446744073709551616", 0), None);
    assert_eq!(parse_u64("99999999999999999999999", 0), None);
    assert_eq!(parse_u64("ab123", 2), Some((123, 5)));
}

#[test]
fn numeral_roundtrip() {
    for n in [0u64, 1, 9, 10, 99, 100, 4294967295, u64::MAX] {
        let s = u64_to_string(n);
        let len = s.chars().count();
        assert_eq!(parse_u64(&s, 0), Some((n, len)));
    }
}

#[test]
fn text_helpers() {
    assert!(str_eq("", ""));
    assert!(str_eq("abc", "abc"));
    assert!(!str_eq("abc", "abd"));
    assert!(!str_eq("abc", "abcd"));
    assert_eq!(find_char("a\nb\n", 0, '\n'), Some(1));
    assert_eq!(find_char("a\nb\n", 2, '\n'), Some(3));
    assert_eq!(find_char("abc", 0, '\n'), None);
    assert_eq!(path_join("/tmp/root", "foo"), "/tmp/root/foo");
}

#[test]
fn token_roundtrip() {
    let t = LockToken { pid: 999999, nonce: 42, exe: String::from("/usr/bin/foo") };
    let text = encode_token(&t);
    assert_eq!(text, "999999\n42\n/usr/bin/foo");
    let o = parse_token(&text).expect("an encoded token parses");
    assert_eq!(o.pid, 999999);
    assert_eq!(o.exe, "/usr/bin/foo");
}

#[test]
fn token_rejects_garbage() {
    assert!(parse_token("").is_none());
    assert!(parse_token("no newlines here").is_none());
    assert!(parse_token("one\ntwo").is_none());
    assert!(parse_token("one\ntwo\nthree\nfour").is_none());
    assert!(parse_token("abc\n42\n/usr/bin/foo").is_none());
    assert!(parse_token("\n42\n/usr/bin/foo").is_none());
    assert!(parse_token("5000000000\n42\n/usr/bin/foo").is_none());
}

#[test]
fn token_with_newline_in_exe_does_not_roundtrip() {
    let t = LockToken { pid: 1, nonce: 2, exe: String::from("/odd\npath") };
    let text = encode_token(&t);
    assert!(parse_token(&text).is_none());
}

#[test]
fn manifest_roundtrip_empty() {
    let st = State::fresh("foo", "/tmp/root", String::from("1\n2\n/exe"));
    let text = encode_manifest(&st);
    let back = parse_manifest(&text).expect("an encoded manifest parses");
    assert_eq!(back.name, "foo");
    assert_eq!(back.path, "/tmp/root/foo");
    assert_eq!(back.identifier, "1\n2\n/exe");
    assert_eq!(back.lockfile_path, "/tmp/root/foo/~rust_nonvolatile.lock");
    assert_eq!(back.manifest_path, "/tmp/root/foo/.manifest");
    assert_eq!(back.tmp_manifest_path, "/tmp/root/foo/.manifest_tmp");
    assert!(back.items.is_empty());
    assert!(back.preserved.is_empty());
}

#[test]
fn manifest_roundtrip_values_with_newlines() {
    let mut st = State::fresh("bundle", "/data", String::from("id"));
    st.set("weird", String::from("line1\nline2\n\n7\n")).unwrap();
    st.set("empty", String::new()).unwrap();
    st.set("unicode", String::from("snowman \u{2603} and \u{1f642}")).unwrap();
    st.preserve_commit("saved", String::from("/etc/hosts")).unwrap();
    let text = encode_manifest(&st);
    let back = parse_manifest(&text).expect("an encoded manifest parses");
    assert_eq!(back.items, st.items);
    assert_eq!(back.preserved, st.preserved);
}

#[test]
fn manifest_rejects_non_canonical_lengths() {
    let st = State::fresh("foo", "/tmp/root", String::from("id"));
    let text = encode_manifest(&st);
    assert_eq!(&text[0..2], "3\n");
    let padded = format!("03\n{}", &text[2..]);
    assert!(parse_manifest(&padded).is_none());
}

#[test]
fn manifest_rejects_garbage() {
    assert!(parse_manifest("").is_none());
    assert!(parse_manifest("not a manifest").is_none());
    assert!(parse_manifest("3\nfoo").is_none());
    let st = State::fresh("foo", "/tmp/root", String::from("id"));
    let text = encode_manifest(&st);
    let truncated: String = text.chars().take(text.chars().count() - 2).collect();
    assert!(parse_manifest(&truncated).is_none());
    let padded = format!("{}x", text);
    assert!(parse_manifest(&padded).is_none());
}
