//! The manifest codec.
//!
//! The whole bundle is serialized into one text: six length-prefixed
//! scalar fields (name, bundle directory, identifier, and the three file
//! paths), then the two namespaces, each as an entry count followed by
//! length-prefixed key and value fields.  A field is written as the decimal
//! character count, a newline, the field's characters, and a newline, so
//! every string round-trips exactly, newlines included.  Parsing accepts a
//! text exactly as far as this shape carries and proves the round trip:
//! parsing an encoding gives back the bundle that was written.

use vstd::prelude::*;
use vstd::string::StrSliceExecFns;
use vstd::string::StringExecFns;

use crate::entries::{entries_map, entries_view};
use crate::model::{State, StateModel};
use crate::numerals::{
    dec_digits, dec_value, digit_run_end, is_digit, lemma_canonical_digits, lemma_dec_digits,
    lemma_digit_run_end_bounds, lemma_digit_run_end_is, parse_u64, u64_to_string,
};

verus! {

/// One field: its length in decimal, a newline, the field, a newline.
pub open spec fn spec_encode_field(f: Seq<char>) -> Seq<char> {
    dec_digits(f.len() as nat) + seq!['\n'] + f + seq!['\n']
}

/// The fields of the entries in order, keys before values.
pub open spec fn spec_encode_pairs(es: Seq<(Seq<char>, Seq<char>)>) -> Seq<char>
    decreases es.len(),
{
    if es.len() == 0 {
        Seq::empty()
    } else {
        spec_encode_field(es[0].0) + spec_encode_field(es[0].1) + spec_encode_pairs(
            es.drop_first(),
        )
    }
}

/// A namespace: its entry count in decimal, a newline, then its pairs.
pub open spec fn spec_encode_entries(es: Seq<(Seq<char>, Seq<char>)>) -> Seq<char> {
    dec_digits(es.len() as nat) + seq!['\n'] + spec_encode_pairs(es)
}

/// The whole bundle as manifest text.
pub open spec fn spec_encode_manifest(m: StateModel) -> Seq<char> {
    spec_encode_field(m.name) + spec_encode_field(m.path) + spec_encode_field(m.identifier)
        + spec_encode_field(m.lockfile_path) + spec_encode_field(m.manifest_path)
        + spec_encode_field(m.tmp_manifest_path) + spec_encode_entries(m.items)
        + spec_encode_entries(m.preserved)
}

/// A number before a newline: the value and the position after the newline.
/// Only the canonical numeral is accepted: a zero digit opens no longer run.
pub open spec fn spec_parse_number(s: Seq<char>, pos: int) -> Option<(nat, int)> {
    let e = digit_run_end(s, pos);
    if pos < 0 || pos >= s.len() {
        None
    } else if e == pos {
        None
    } else if s[pos] == '0' && e > pos + 1 {
        None
    } else if dec_value(s.subrange(pos, e)) > u64::MAX {
        None
    } else if e >= s.len() || s[e] != '\n' {
        None
    } else {
        Some((dec_value(s.subrange(pos, e)), e + 1))
    }
}

/// A length-prefixed field: its characters and the position after its
/// closing newline.
pub open spec fn spec_parse_field(s: Seq<char>, pos: int) -> Option<(Seq<char>, int)> {
    match spec_parse_number(s, pos) {
        None => None,
        Some((n, p)) => if p + n >= s.len() {
            None
        } else if s[p + n] != '\n' {
            None
        } else {
            Some((s.subrange(p, p + n), p + n + 1))
        },
    }
}

/// `count` key-value pairs of fields.
pub open spec fn spec_parse_pairs(s: Seq<char>, pos: int, count: nat) -> Option<
    (Seq<(Seq<char>, Seq<char>)>, int),
>
    decreases count,
{
    if count == 0 {
        Some((Seq::empty(), pos))
    } else {
        match spec_parse_field(s, pos) {
            None => None,
            Some((k, p1)) => match spec_parse_field(s, p1) {
                None => None,
                Some((v, p2)) => match spec_parse_pairs(s, p2, (count - 1) as nat) {
                    None => None,
                    Some((rest, p3)) => Some((seq![(k, v)] + rest, p3)),
                },
            },
        }
    }
}

/// A namespace: an entry count, then that many pairs.
pub open spec fn spec_parse_entries(s: Seq<char>, pos: int) -> Option<
    (Seq<(Seq<char>, Seq<char>)>, int),
> {
    match spec_parse_number(s, pos) {
        None => None,
        Some((n, p)) => spec_parse_pairs(s, p, n),
    }
}

/// The whole manifest; the text must be consumed exactly.
pub open spec fn spec_parse_manifest(s: Seq<char>) -> Option<StateModel> {
    match spec_parse_field(s, 0) {
        None => None,
        Some((name, p1)) => match spec_parse_field(s, p1) {
            None => None,
            Some((path, p2)) => match spec_parse_field(s, p2) {
                None => None,
                Some((identifier, p3)) => match spec_parse_field(s, p3) {
                    None => None,
                    Some((lockfile_path, p4)) => match spec_parse_field(s, p4) {
                        None => None,
                        Some((manifest_path, p5)) => match spec_parse_field(s, p5) {
                            None => None,
                            Some((tmp_manifest_path, p6)) => match spec_parse_entries(s, p6) {
                                None => None,
                                Some((items, p7)) => match spec_parse_entries(s, p7) {
                                    None => None,
                                    Some((preserved, p8)) => if p8 == s.len() {
                                        Some(
                                            StateModel {
                                                name,
                                                path,
                                                identifier,
                                                lockfile_path,
                                                manifest_path,
                                                tmp_manifest_path,
                                                items,
                                                preserved,
                                            },
                                        )
                                    } else {
                                        None
                                    },
                                },
                            },
                        },
                    },
                },
            },
        },
    }
}

/// Append one encoded field to `out`.
fn encode_field(out: &mut String, f: &str)
    ensures
        final(out)@ == old(out)@ + spec_encode_field(f@),
{
    proof {
        reveal_strlit("\n");
        assert("\n"@ =~= seq!['\n']);
    }
    let n = f.unicode_len();
    let num = u64_to_string(n as u64);
    out.append(num.as_str());
    out.append("\n");
    out.append(f);
    out.append("\n");
    proof {
        assert(final(out)@ =~= old(out)@ + spec_encode_field(f@));
    }
}

/// The encodings of a prefix extend by the pair at its end.
proof fn lemma_encode_pairs_snoc(es: Seq<(Seq<char>, Seq<char>)>, i: int)
    requires
        0 <= i < es.len(),
    ensures
        spec_encode_pairs(es.subrange(0, i + 1)) == spec_encode_pairs(es.subrange(0, i))
            + spec_encode_field(es[i].0) + spec_encode_field(es[i].1),
    decreases i,
{
    let a = es.subrange(0, i + 1);
    if i == 0 {
        assert(a.drop_first() =~= es.subrange(0, 0));
        assert(spec_encode_pairs(es.subrange(0, 0)) == Seq::<char>::empty());
        assert(a[0] == es[0]);
        assert(spec_encode_pairs(a) =~= spec_encode_pairs(es.subrange(0, 0)) + spec_encode_field(
            es[0].0,
        ) + spec_encode_field(es[0].1));
    } else {
        lemma_encode_pairs_snoc(es.drop_first(), i - 1);
        assert(a.drop_first() =~= es.drop_first().subrange(0, i));
        assert(es.subrange(0, i).drop_first() =~= es.drop_first().subrange(0, i - 1));
        assert(a[0] == es[0]);
        assert(es.subrange(0, i)[0] == es[0]);
        assert(spec_encode_pairs(a) == spec_encode_field(es[0].0) + spec_encode_field(es[0].1)
            + spec_encode_pairs(es.drop_first().subrange(0, i)));
        assert(spec_encode_pairs(es.subrange(0, i)) == spec_encode_field(es[0].0)
            + spec_encode_field(es[0].1) + spec_encode_pairs(es.drop_first().subrange(0, i - 1)));
        assert(es.drop_first()[i - 1] == es[i]);
        assert(spec_encode_pairs(a) =~= spec_encode_pairs(es.subrange(0, i)) + spec_encode_field(
            es[i].0,
        ) + spec_encode_field(es[i].1));
    }
}

/// Append one encoded namespace to `out`.
fn encode_entries(out: &mut String, es: &Vec<(String, String)>)
    ensures
        final(out)@ == old(out)@ + spec_encode_entries(entries_view(es@)),
{
    proof {
        reveal_strlit("\n");
        assert("\n"@ =~= seq!['\n']);
    }
    let count = u64_to_string(es.len() as u64);
    out.append(count.as_str());
    out.append("\n");
    let ghost header = old(out)@ + dec_digits(es@.len() as nat) + seq!['\n'];
    proof {
        assert(out@ =~= header);
        assert(entries_view(es@).len() == es@.len());
        assert(entries_view(es@).subrange(0, 0) =~= Seq::<(Seq<char>, Seq<char>)>::empty());
    }
    let mut i: usize = 0;
    while i < es.len()
        invariant
            i <= es@.len(),
            out@ == header + spec_encode_pairs(entries_view(es@).subrange(0, i as int)),
        decreases es@.len() - i,
    {
        let ghost ev = entries_view(es@);
        encode_field(out, es[i].0.as_str());
        encode_field(out, es[i].1.as_str());
        proof {
            lemma_encode_pairs_snoc(ev, i as int);
            assert(ev[i as int] == (es@[i as int].0@, es@[i as int].1@));
            assert(out@ =~= header + spec_encode_pairs(ev.subrange(0, i + 1)));
        }
        i = i + 1;
    }
    proof {
        assert(entries_view(es@).subrange(0, es@.len() as int) =~= entries_view(es@));
        assert(out@ =~= old(out)@ + spec_encode_entries(entries_view(es@)));
    }
}

/// Render the whole bundle as manifest text.
pub fn encode_manifest(st: &State) -> (r: String)
    ensures
        r@ == spec_encode_manifest(st@),
{
    let mut out = String::new();
    encode_field(&mut out, st.name.as_str());
    encode_field(&mut out, st.path.as_str());
    encode_field(&mut out, st.identifier.as_str());
    encode_field(&mut out, st.lockfile_path.as_str());
    encode_field(&mut out, st.manifest_path.as_str());
    encode_field(&mut out, st.tmp_manifest_path.as_str());
    encode_entries(&mut out, &st.items);
    encode_entries(&mut out, &st.preserved);
    proof {
        assert(out@ =~= spec_encode_manifest(st@));
    }
    out
}

/// Every key and value is short enough for its length prefix.
pub open spec fn fields_bounded(es: Seq<(Seq<char>, Seq<char>)>) -> bool {
    forall|i: int|
        0 <= i < es.len() ==> ((#[trigger] es[i]).0.len() <= u64::MAX && es[i].1.len()
            <= u64::MAX)
}

/// Every piece of the bundle fits its length prefix.  Anything that ever
/// stood in memory does: each length is bounded by the address space.
pub open spec fn manifest_encodable(m: StateModel) -> bool {
    &&& m.name.len() <= u64::MAX
    &&& m.path.len() <= u64::MAX
    &&& m.identifier.len() <= u64::MAX
    &&& m.lockfile_path.len() <= u64::MAX
    &&& m.manifest_path.len() <= u64::MAX
    &&& m.tmp_manifest_path.len() <= u64::MAX
    &&& m.items.len() <= u64::MAX
    &&& m.preserved.len() <= u64::MAX
    &&& fields_bounded(m.items)
    &&& fields_bounded(m.preserved)
}

proof fn lemma_parse_number_at(s: Seq<char>, pos: int, n: nat)
    requires
        0 <= pos,
        n <= u64::MAX,
        pos + dec_digits(n).len() + 1 <= s.len(),
        s.subrange(pos, pos + dec_digits(n).len() + 1) == dec_digits(n) + seq!['\n'],
    ensures
        spec_parse_number(s, pos) == Some((n, pos + dec_digits(n).len() + 1)),
{
    lemma_dec_digits(n);
    let d = dec_digits(n).len() as int;
    let enc = dec_digits(n) + seq!['\n'];
    assert forall|k: int| pos <= k < pos + d implies is_digit(s[k]) by {
        assert(s.subrange(pos, pos + d + 1)[k - pos] == s[k]);
        assert(enc[k - pos] == dec_digits(n)[k - pos]);
        assert(is_digit(dec_digits(n)[k - pos]));
    }
    assert(s.subrange(pos, pos + d + 1)[d] == s[pos + d]);
    assert(enc[d] == '\n');
    assert(s[pos + d] == '\n');
    assert(!is_digit('\n'));
    lemma_digit_run_end_is(s, pos, pos + d);
    assert(s.subrange(pos, pos + d) =~= dec_digits(n)) by {
        assert forall|k: int| 0 <= k < d implies s.subrange(pos, pos + d)[k] == dec_digits(n)[k] by {
            assert(s.subrange(pos, pos + d + 1)[k] == s[pos + k]);
            assert(enc[k] == dec_digits(n)[k]);
        }
    }
    assert(dec_value(s.subrange(pos, pos + d)) == n);
    assert(s[pos] == dec_digits(n)[0]) by {
        assert(s.subrange(pos, pos + d + 1)[0] == s[pos]);
        assert(enc[0] == dec_digits(n)[0]);
    }
    if s[pos] == '0' && d > 1 {
        assert(n < 10);
        assert(false);
    }
}

proof fn lemma_parse_field_at(s: Seq<char>, pos: int, f: Seq<char>)
    requires
        0 <= pos,
        f.len() <= u64::MAX,
        pos + spec_encode_field(f).len() <= s.len(),
        s.subrange(pos, pos + spec_encode_field(f).len()) == spec_encode_field(f),
    ensures
        spec_parse_field(s, pos) == Some((f, pos + spec_encode_field(f).len())),
{
    let n = f.len() as nat;
    lemma_dec_digits(n);
    let d = dec_digits(n).len() as int;
    let enc = spec_encode_field(f);
    let el = enc.len() as int;
    assert(el == d + 1 + f.len() + 1);
    assert forall|t: int| 0 <= t < el implies s[pos + t] == enc[t] by {
        assert(s.subrange(pos, pos + el)[t] == s[pos + t]);
    }
    assert(s.subrange(pos, pos + d + 1) =~= dec_digits(n) + seq!['\n']) by {
        assert forall|t: int| 0 <= t < d + 1 implies s.subrange(pos, pos + d + 1)[t] == (dec_digits(
            n,
        ) + seq!['\n'])[t] by {
            assert(s.subrange(pos, pos + d + 1)[t] == s[pos + t]);
            assert(enc[t] == (dec_digits(n) + seq!['\n'])[t]);
        }
    }
    lemma_parse_number_at(s, pos, n);
    let p = pos + d + 1;
    assert(p + n < s.len());
    assert(s[p + n] == enc[d + 1 + f.len()]);
    assert(enc[d + 1 + f.len()] == '\n');
    assert(s.subrange(p, p + n) =~= f) by {
        assert forall|t: int| 0 <= t < n implies s.subrange(p, p + n)[t] == f[t] by {
            assert(s.subrange(p, p + n)[t] == s[p + t]);
            assert(s[p + t] == enc[d + 1 + t]);
            assert(enc[d + 1 + t] == f[t]);
        }
    }
}

proof fn lemma_parse_pairs_at(s: Seq<char>, pos: int, es: Seq<(Seq<char>, Seq<char>)>)
    requires
        0 <= pos,
        fields_bounded(es),
        pos + spec_encode_pairs(es).len() <= s.len(),
        s.subrange(pos, pos + spec_encode_pairs(es).len()) == spec_encode_pairs(es),
    ensures
        spec_parse_pairs(s, pos, es.len() as nat) == Some(
            (es, pos + spec_encode_pairs(es).len()),
        ),
    decreases es.len(),
{
    if es.len() == 0 {
        assert(es =~= Seq::<(Seq<char>, Seq<char>)>::empty());
    } else {
        let k = es[0].0;
        let v = es[0].1;
        let e0 = spec_encode_field(k);
        let e1 = spec_encode_field(v);
        let rest = spec_encode_pairs(es.drop_first());
        let enc = spec_encode_pairs(es);
        assert(enc == e0 + e1 + rest);
        let el = enc.len() as int;
        assert forall|t: int| 0 <= t < el implies s[pos + t] == enc[t] by {
            assert(s.subrange(pos, pos + el)[t] == s[pos + t]);
        }
        assert(s.subrange(pos, pos + e0.len()) =~= e0) by {
            assert forall|t: int| 0 <= t < e0.len() implies s.subrange(pos, pos + e0.len() as int)[t]
                == e0[t] by {
                assert(s.subrange(pos, pos + e0.len() as int)[t] == s[pos + t]);
                assert(enc[t] == e0[t]);
            }
        }
        lemma_parse_field_at(s, pos, k);
        let p1 = pos + e0.len() as int;
        assert(s.subrange(p1, p1 + e1.len()) =~= e1) by {
            assert forall|t: int| 0 <= t < e1.len() implies s.subrange(p1, p1 + e1.len() as int)[t]
                == e1[t] by {
                assert(s.subrange(p1, p1 + e1.len() as int)[t] == s[p1 + t]);
                assert(enc[e0.len() + t] == e1[t]);
            }
        }
        lemma_parse_field_at(s, p1, v);
        let p2 = p1 + e1.len() as int;
        assert(s.subrange(p2, p2 + rest.len()) =~= rest) by {
            assert forall|t: int| 0 <= t < rest.len() implies s.subrange(p2, p2 + rest.len() as int)[t]
                == rest[t] by {
                assert(s.subrange(p2, p2 + rest.len() as int)[t] == s[p2 + t]);
                assert(enc[e0.len() + e1.len() + t] == rest[t]);
            }
        }
        assert(fields_bounded(es.drop_first())) by {
            assert forall|i: int|
                0 <= i < es.drop_first().len() implies ((#[trigger] es.drop_first()[i]).0.len()
                <= u64::MAX && es.drop_first()[i].1.len() <= u64::MAX) by {
                assert(es.drop_first()[i] == es[i + 1]);
            }
        }
        lemma_parse_pairs_at(s, p2, es.drop_first());
        assert(seq![(k, v)] + es.drop_first() =~= es);
        assert((es.len() - 1) as nat == es.drop_first().len() as nat);
    }
}

proof fn lemma_parse_entries_at(s: Seq<char>, pos: int, es: Seq<(Seq<char>, Seq<char>)>)
    requires
        0 <= pos,
        fields_bounded(es),
        es.len() <= u64::MAX,
        pos + spec_encode_entries(es).len() <= s.len(),
        s.subrange(pos, pos + spec_encode_entries(es).len()) == spec_encode_entries(es),
    ensures
        spec_parse_entries(s, pos) == Some((es, pos + spec_encode_entries(es).len())),
{
    let n = es.len() as nat;
    lemma_dec_digits(n);
    let d = dec_digits(n).len() as int;
    let enc = spec_encode_entries(es);
    let el = enc.len() as int;
    let pairs = spec_encode_pairs(es);
    assert forall|t: int| 0 <= t < el implies s[pos + t] == enc[t] by {
        assert(s.subrange(pos, pos + el)[t] == s[pos + t]);
    }
    assert(s.subrange(pos, pos + d + 1) =~= dec_digits(n) + seq!['\n']) by {
        assert forall|t: int| 0 <= t < d + 1 implies s.subrange(pos, pos + d + 1)[t] == (dec_digits(
            n,
        ) + seq!['\n'])[t] by {
            assert(s.subrange(pos, pos + d + 1)[t] == s[pos + t]);
            assert(enc[t] == (dec_digits(n) + seq!['\n'])[t]);
        }
    }
    lemma_parse_number_at(s, pos, n);
    let p = pos + d + 1;
    assert(s.subrange(p, p + pairs.len()) =~= pairs) by {
        assert forall|t: int| 0 <= t < pairs.len() implies s.subrange(p, p + pairs.len() as int)[t]
            == pairs[t] by {
            assert(s.subrange(p, p + pairs.len() as int)[t] == s[p + t]);
            assert(enc[d + 1 + t] == pairs[t]);
        }
    }
    lemma_parse_pairs_at(s, p, es);
}

/// Round trip: parsing the encoding of any bundle gives that bundle back,
/// field for field and entry for entry.
#[verifier::rlimit(100)]
pub proof fn lemma_manifest_roundtrip(m: StateModel)
    requires
        manifest_encodable(m),
    ensures
        spec_parse_manifest(spec_encode_manifest(m)) == Some(m),
{
    let s = spec_encode_manifest(m);
    let e1 = spec_encode_field(m.name);
    let e2 = spec_encode_field(m.path);
    let e3 = spec_encode_field(m.identifier);
    let e4 = spec_encode_field(m.lockfile_path);
    let e5 = spec_encode_field(m.manifest_path);
    let e6 = spec_encode_field(m.tmp_manifest_path);
    let e7 = spec_encode_entries(m.items);
    let e8 = spec_encode_entries(m.preserved);
    let q1 = e1.len() as int;
    let q2 = q1 + e2.len();
    let q3 = q2 + e3.len();
    let q4 = q3 + e4.len();
    let q5 = q4 + e5.len();
    let q6 = q5 + e6.len();
    let q7 = q6 + e7.len();
    let q8 = q7 + e8.len();
    assert(s.len() == q8);
    assert(s.subrange(0, q1) =~= e1);
    assert(s.subrange(q1, q2) =~= e2);
    assert(s.subrange(q2, q3) =~= e3);
    assert(s.subrange(q3, q4) =~= e4);
    assert(s.subrange(q4, q5) =~= e5);
    assert(s.subrange(q5, q6) =~= e6);
    assert(s.subrange(q6, q7) =~= e7);
    assert(s.subrange(q7, q8) =~= e8);
    lemma_parse_field_at(s, 0, m.name);
    lemma_parse_field_at(s, q1, m.path);
    lemma_parse_field_at(s, q2, m.identifier);
    lemma_parse_field_at(s, q3, m.lockfile_path);
    lemma_parse_field_at(s, q4, m.manifest_path);
    lemma_parse_field_at(s, q5, m.tmp_manifest_path);
    lemma_parse_entries_at(s, q6, m.items);
    lemma_parse_entries_at(s, q7, m.preserved);
}

proof fn lemma_parse_number_sound(s: Seq<char>, pos: int, n: nat, p: int)
    requires
        spec_parse_number(s, pos) == Some((n, p)),
    ensures
        n <= u64::MAX,
        0 <= pos,
        p == pos + dec_digits(n).len() + 1,
        p <= s.len(),
        s.subrange(pos, p) == dec_digits(n) + seq!['\n'],
{
    let e = digit_run_end(s, pos);
    lemma_digit_run_end_bounds(s, pos);
    let run = s.subrange(pos, e);
    assert(run.len() == e - pos);
    assert(run.len() >= 1);
    assert(forall|k: int| 0 <= k < run.len() ==> is_digit(#[trigger] run[k]));
    assert(run[0] == s[pos]);
    lemma_canonical_digits(run);
    assert(run == dec_digits(n));
    assert(s[e] == '\n');
    assert(s.subrange(pos, e + 1) =~= dec_digits(n) + seq!['\n']) by {
        assert forall|t: int| 0 <= t < e + 1 - pos implies s.subrange(pos, e + 1)[t] == (dec_digits(
            n,
        ) + seq!['\n'])[t] by {
            assert(s.subrange(pos, e + 1)[t] == s[pos + t]);
            if t < run.len() {
                assert(s[pos + t] == run[t]);
            }
        }
    }
}

proof fn lemma_parse_field_sound(s: Seq<char>, pos: int, f: Seq<char>, p: int)
    requires
        spec_parse_field(s, pos) == Some((f, p)),
    ensures
        f.len() <= u64::MAX,
        0 <= pos < p <= s.len(),
        p == pos + spec_encode_field(f).len(),
        s.subrange(pos, p) == spec_encode_field(f),
{
    let q = spec_parse_number(s, pos)->Some_0;
    let n = q.0;
    let pn = q.1;
    lemma_parse_number_sound(s, pos, n, pn);
    assert(f == s.subrange(pn, pn + n));
    assert(f.len() == n);
    assert(p == pn + n + 1);
    assert(s[pn + n] == '\n');
    let d = dec_digits(n).len() as int;
    let enc = spec_encode_field(f);
    assert(enc.len() == d + 1 + n + 1);
    assert(s.subrange(pos, p) =~= enc) by {
        assert forall|t: int| 0 <= t < p - pos implies s.subrange(pos, p)[t] == enc[t] by {
            assert(s.subrange(pos, p)[t] == s[pos + t]);
            if t < d + 1 {
                assert(s[pos + t] == s.subrange(pos, pn)[t]);
                assert((dec_digits(n) + seq!['\n'])[t] == enc[t]);
            } else if t < d + 1 + n {
                assert(s[pos + t] == s.subrange(pn, pn + n)[t - (d + 1)]);
                assert(f[t - (d + 1)] == enc[t]);
            } else {
                assert(pos + t == pn + n);
            }
        }
    }
}

proof fn lemma_parse_pairs_sound(
    s: Seq<char>,
    pos: int,
    count: nat,
    es: Seq<(Seq<char>, Seq<char>)>,
    p: int,
)
    requires
        0 <= pos <= s.len(),
        spec_parse_pairs(s, pos, count) == Some((es, p)),
    ensures
        es.len() == count,
        fields_bounded(es),
        pos <= p <= s.len(),
        s.subrange(pos, p) == spec_encode_pairs(es),
    decreases count,
{
    if count == 0 {
        assert(es =~= Seq::<(Seq<char>, Seq<char>)>::empty());
        assert(s.subrange(pos, pos) =~= spec_encode_pairs(es));
    } else {
        let qk = spec_parse_field(s, pos)->Some_0;
        let k = qk.0;
        let p1 = qk.1;
        let qv = spec_parse_field(s, p1)->Some_0;
        let v = qv.0;
        let p2 = qv.1;
        let qr = spec_parse_pairs(s, p2, (count - 1) as nat)->Some_0;
        let rest = qr.0;
        assert(es == seq![(k, v)] + rest);
        assert(p == qr.1);
        lemma_parse_field_sound(s, pos, k, p1);
        lemma_parse_field_sound(s, p1, v, p2);
        lemma_parse_pairs_sound(s, p2, (count - 1) as nat, rest, p);
        assert(es.len() == count);
        assert(es[0] == (k, v));
        assert(es.drop_first() =~= rest);
        assert(fields_bounded(es)) by {
            assert forall|i: int|
                0 <= i < es.len() implies ((#[trigger] es[i]).0.len() <= u64::MAX
                && es[i].1.len() <= u64::MAX) by {
                if i > 0 {
                    assert(es[i] == rest[i - 1]);
                }
            }
        }
        let e0 = spec_encode_field(k);
        let e1 = spec_encode_field(v);
        let er = spec_encode_pairs(rest);
        assert(spec_encode_pairs(es) == e0 + e1 + er);
        assert(s.subrange(pos, p) =~= e0 + e1 + er) by {
            assert forall|t: int| 0 <= t < p - pos implies s.subrange(pos, p)[t] == (e0 + e1
                + er)[t] by {
                assert(s.subrange(pos, p)[t] == s[pos + t]);
                if t < e0.len() {
                    assert(s[pos + t] == s.subrange(pos, p1)[t]);
                } else if t < e0.len() + e1.len() {
                    assert(s[pos + t] == s.subrange(p1, p2)[t - e0.len()]);
                } else {
                    assert(s[pos + t] == s.subrange(p2, p)[t - e0.len() - e1.len()]);
                }
            }
        }
    }
}

proof fn lemma_parse_entries_sound(
    s: Seq<char>,
    pos: int,
    es: Seq<(Seq<char>, Seq<char>)>,
    p: int,
)
    requires
        0 <= pos <= s.len(),
        spec_parse_entries(s, pos) == Some((es, p)),
    ensures
        es.len() <= u64::MAX,
        fields_bounded(es),
        pos <= p <= s.len(),
        s.subrange(pos, p) == spec_encode_entries(es),
{
    let q = spec_parse_number(s, pos)->Some_0;
    let n = q.0;
    let pn = q.1;
    lemma_parse_number_sound(s, pos, n, pn);
    lemma_parse_pairs_sound(s, pn, n, es, p);
    assert(es.len() == n);
    let d = dec_digits(n).len() as int;
    let ep = spec_encode_pairs(es);
    let enc = spec_encode_entries(es);
    assert(enc == dec_digits(n) + seq!['\n'] + ep);
    assert(s.subrange(pos, p) =~= enc) by {
        assert forall|t: int| 0 <= t < p - pos implies s.subrange(pos, p)[t] == enc[t] by {
            assert(s.subrange(pos, p)[t] == s[pos + t]);
            if t < d + 1 {
                assert(s[pos + t] == s.subrange(pos, pn)[t]);
            } else {
                assert(s[pos + t] == s.subrange(pn, p)[t - (d + 1)]);
            }
        }
    }
}

/// Soundness of the parser: whatever parses as a bundle is, character for
/// character, that bundle's encoding.  Together with the round trip this
/// makes the format unambiguous.
#[verifier::rlimit(100)]
pub proof fn lemma_parse_manifest_sound(s: Seq<char>, m: StateModel)
    requires
        spec_parse_manifest(s) == Some(m),
    ensures
        manifest_encodable(m),
        s == spec_encode_manifest(m),
{
    let q1 = spec_parse_field(s, 0)->Some_0;
    let p1 = q1.1;
    let q2 = spec_parse_field(s, p1)->Some_0;
    let p2 = q2.1;
    let q3 = spec_parse_field(s, p2)->Some_0;
    let p3 = q3.1;
    let q4 = spec_parse_field(s, p3)->Some_0;
    let p4 = q4.1;
    let q5 = spec_parse_field(s, p4)->Some_0;
    let p5 = q5.1;
    let q6 = spec_parse_field(s, p5)->Some_0;
    let p6 = q6.1;
    let q7 = spec_parse_entries(s, p6)->Some_0;
    let p7 = q7.1;
    let q8 = spec_parse_entries(s, p7)->Some_0;
    let p8 = q8.1;
    assert(m.name == q1.0 && m.path == q2.0 && m.identifier == q3.0 && m.lockfile_path == q4.0
        && m.manifest_path == q5.0 && m.tmp_manifest_path == q6.0 && m.items == q7.0
        && m.preserved == q8.0);
    assert(p8 == s.len());
    lemma_parse_field_sound(s, 0, m.name, p1);
    lemma_parse_field_sound(s, p1, m.path, p2);
    lemma_parse_field_sound(s, p2, m.identifier, p3);
    lemma_parse_field_sound(s, p3, m.lockfile_path, p4);
    lemma_parse_field_sound(s, p4, m.manifest_path, p5);
    lemma_parse_field_sound(s, p5, m.tmp_manifest_path, p6);
    lemma_parse_entries_sound(s, p6, m.items, p7);
    lemma_parse_entries_sound(s, p7, m.preserved, p8);
    let e1 = spec_encode_field(m.name);
    let e2 = spec_encode_field(m.path);
    let e3 = spec_encode_field(m.identifier);
    let e4 = spec_encode_field(m.lockfile_path);
    let e5 = spec_encode_field(m.manifest_path);
    let e6 = spec_encode_field(m.tmp_manifest_path);
    let e7 = spec_encode_entries(m.items);
    let e8 = spec_encode_entries(m.preserved);
    assert(s =~= spec_encode_manifest(m)) by {
        assert forall|t: int| 0 <= t < s.len() implies s[t] == spec_encode_manifest(m)[t] by {
            if t < p1 {
                assert(s[t] == s.subrange(0, p1)[t]);
                assert(e1[t] == spec_encode_manifest(m)[t]);
            } else if t < p2 {
                assert(s[t] == s.subrange(p1, p2)[t - p1]);
                assert(e2[t - p1] == spec_encode_manifest(m)[t]);
            } else if t < p3 {
                assert(s[t] == s.subrange(p2, p3)[t - p2]);
                assert(e3[t - p2] == spec_encode_manifest(m)[t]);
            } else if t < p4 {
                assert(s[t] == s.subrange(p3, p4)[t - p3]);
                assert(e4[t - p3] == spec_encode_manifest(m)[t]);
            } else if t < p5 {
                assert(s[t] == s.subrange(p4, p5)[t - p4]);
                assert(e5[t - p4] == spec_encode_manifest(m)[t]);
            } else if t < p6 {
                assert(s[t] == s.subrange(p5, p6)[t - p5]);
                assert(e6[t - p5] == spec_encode_manifest(m)[t]);
            } else if t < p7 {
                assert(s[t] == s.subrange(p6, p7)[t - p6]);
                assert(e7[t - p6] == spec_encode_manifest(m)[t]);
            } else {
                assert(s[t] == s.subrange(p7, p8)[t - p7]);
                assert(e8[t - p7] == spec_encode_manifest(m)[t]);
            }
        }
    }
}

/// Round trip across a reload: where a bundle's items map sends `k` to
/// `v`, the manifest text written for the bundle parses back to a bundle
/// whose items map still sends `k` to `v`.
pub proof fn lemma_set_reload_get(m: StateModel, k: Seq<char>, v: Seq<char>)
    requires
        manifest_encodable(m),
        entries_map(m.items).contains_key(k),
        entries_map(m.items)[k] == v,
    ensures
        spec_parse_manifest(spec_encode_manifest(m)) matches Some(m2)
            && entries_map(m2.items).contains_key(k) && entries_map(m2.items)[k] == v,
{
    lemma_manifest_roundtrip(m);
}

/// The codec is exact: a text is the encoding of a bundle if and only if it
/// parses as that bundle.
pub proof fn lemma_manifest_codec_exact(s: Seq<char>, m: StateModel)
    requires
        manifest_encodable(m),
    ensures
        spec_parse_manifest(s) == Some(m) <==> s == spec_encode_manifest(m),
{
    if spec_parse_manifest(s) == Some(m) {
        lemma_parse_manifest_sound(s, m);
    }
    if s == spec_encode_manifest(m) {
        lemma_manifest_roundtrip(m);
    }
}

/// Parse a number field.
fn parse_number(s: &str, pos: usize) -> (r: Option<(u64, usize)>)
    requires
        pos <= s@.len(),
    ensures
        match r {
            Some(p) => spec_parse_number(s@, pos as int) == Some((p.0 as nat, p.1 as int)) && p.1
                <= s@.len(),
            None => spec_parse_number(s@, pos as int) is None,
        },
{
    let len = s.unicode_len();
    let (v, e) = match parse_u64(s, pos) {
        Some(p) => p,
        None => {
            return None;
        },
    };
    proof {
        lemma_digit_run_end_bounds(s@, pos as int);
    }
    if e > pos + 1 && s.get_char(pos) == '0' {
        return None;
    }
    if e == len {
        return None;
    }
    if s.get_char(e) != '\n' {
        return None;
    }
    Some((v, e + 1))
}

/// Parse one length-prefixed field.
fn parse_field(s: &str, pos: usize) -> (r: Option<(String, usize)>)
    requires
        pos <= s@.len(),
    ensures
        match r {
            Some(p) => spec_parse_field(s@, pos as int) == Some((p.0@, p.1 as int)) && p.1
                <= s@.len(),
            None => spec_parse_field(s@, pos as int) is None,
        },
{
    let len = s.unicode_len();
    let (n64, p) = match parse_number(s, pos) {
        Some(q) => q,
        None => {
            return None;
        },
    };
    let remaining = len - p;
    if n64 >= remaining as u64 {
        proof {
            assert(p + n64 >= s@.len());
        }
        return None;
    }
    let n = n64 as usize;
    if s.get_char(p + n) != '\n' {
        return None;
    }
    let f = s.substring_char(p, p + n).to_owned();
    Some((f, p + n + 1))
}

/// Parse one namespace.
fn parse_entries(s: &str, pos: usize) -> (r: Option<(Vec<(String, String)>, usize)>)
    requires
        pos <= s@.len(),
    ensures
        match r {
            Some(p) => spec_parse_entries(s@, pos as int) == Some(
                (entries_view(p.0@), p.1 as int),
            ) && p.1 <= s@.len(),
            None => spec_parse_entries(s@, pos as int) is None,
        },
{
    let (count, start) = match parse_number(s, pos) {
        Some(q) => q,
        None => {
            return None;
        },
    };
    let mut collected: Vec<(String, String)> = Vec::new();
    let mut cur: usize = start;
    let mut done: u64 = 0;
    proof {
        assert(entries_view(collected@) =~= Seq::<(Seq<char>, Seq<char>)>::empty());
    }
    while done < count
        invariant
            done <= count,
            cur <= s@.len(),
            spec_parse_number(s@, pos as int) == Some((count as nat, start as int)),
            match spec_parse_pairs(s@, cur as int, (count - done) as nat) {
                None => spec_parse_pairs(s@, start as int, count as nat) is None,
                Some(q) => spec_parse_pairs(s@, start as int, count as nat) == Some(
                    (entries_view(collected@) + q.0, q.1),
                ),
            },
        decreases count - done,
    {
        let ghost remaining0 = (count - done) as nat;
        let (k, p1) = match parse_field(s, cur) {
            Some(q) => q,
            None => {
                return None;
            },
        };
        let (v, p2) = match parse_field(s, p1) {
            Some(q) => q,
            None => {
                return None;
            },
        };
        let ghost before = collected@;
        collected.push((k, v));
        proof {
            assert(entries_view(collected@) =~= entries_view(before) + seq![
                (
                    collected@[before.len() as int].0@,
                    collected@[before.len() as int].1@,
                ),
            ]);
            match spec_parse_pairs(s@, p2 as int, (remaining0 - 1) as nat) {
                None => {},
                Some(q) => {
                    assert(entries_view(before) + (seq![
                        (
                            collected@[before.len() as int].0@,
                            collected@[before.len() as int].1@,
                        ),
                    ] + q.0) =~= entries_view(collected@) + q.0);
                },
            }
        }
        cur = p2;
        done = done + 1;
    }
    proof {
        assert(spec_parse_pairs(s@, cur as int, 0) == Some(
            (Seq::<(Seq<char>, Seq<char>)>::empty(), cur as int),
        ));
        assert(entries_view(collected@) + Seq::<(Seq<char>, Seq<char>)>::empty() =~= entries_view(
            collected@,
        ));
    }
    Some((collected, cur))
}

/// Parse manifest text back into a bundle.
///
/// The result's fields are exactly the file's; the caller decides what to
/// recompute and what to keep.
pub fn parse_manifest(s: &str) -> (r: Option<State>)
    ensures
        match spec_parse_manifest(s@) {
            Some(m) => match r {
                Some(st) => st@ == m,
                None => false,
            },
            None => r is None,
        },
{
    let len = s.unicode_len();
    let (name, p1) = match parse_field(s, 0) {
        Some(q) => q,
        None => {
            return None;
        },
    };
    let (path, p2) = match parse_field(s, p1) {
        Some(q) => q,
        None => {
            return None;
        },
    };
    let (identifier, p3) = match parse_field(s, p2) {
        Some(q) => q,
        None => {
            return None;
        },
    };
    let (lockfile_path, p4) = match parse_field(s, p3) {
        Some(q) => q,
        None => {
            return None;
        },
    };
    let (manifest_path, p5) = match parse_field(s, p4) {
        Some(q) => q,
        None => {
            return None;
        },
    };
    let (tmp_manifest_path, p6) = match parse_field(s, p5) {
        Some(q) => q,
        None => {
            return None;
        },
    };
    let (items, p7) = match parse_entries(s, p6) {
        Some(q) => q,
        None => {
            return None;
        },
    };
    let (preserved, p8) = match parse_entries(s, p7) {
        Some(q) => q,
        None => {
            return None;
        },
    };
    if p8 != len {
        return None;
    }
    let st = State {
        name,
        path,
        identifier,
        lockfile_path,
        manifest_path,
        tmp_manifest_path,
        items,
        preserved,
    };
    Some(st)
}

} // verus!
