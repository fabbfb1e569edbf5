//! Loading a bundle from manifest text.
//!
//! The manifest carries the whole serialized bundle, but only the two
//! namespaces survive a load: the identity is the loading process's own,
//! and every path is recomputed from the requested name and storage root.
//! Text that does not parse, or whose namespaces break the standing
//! invariant, is rejected as corrupt.
//!
//! A preserved entry is taken at its word: whether its stored copy still
//! stands on disk is not part of loading, and a copy lost to a crash
//! between the manifest commit and the final rename surfaces as a
//! filesystem error when the entry is next restored.

use vstd::prelude::*;

use crate::entries::{disjoint_keys, has_common_key, has_duplicate_key, unique_keys};
use crate::manifest::{parse_manifest, spec_parse_manifest};
use crate::model::{well_formed, State};
use crate::text::path_join;
use crate::Error;

verus! {

/// Rebuild a bundle from the manifest text the shell read.
///
/// On success the bundle carries the file's `items` and `preserved`
/// namespaces, the requested name, paths derived from the storage root, and
/// the given identity.  Fails with `Corrupt` exactly when the text does not
/// parse or its namespaces have duplicate or overlapping keys.
pub fn load_state(
    name: &str,
    storage_path: &str,
    identifier: String,
    manifest_text: &str,
) -> (r: Result<State, Error>)
    ensures
        match spec_parse_manifest(manifest_text@) {
            None => r == Err::<State, Error>(Error::Corrupt),
            Some(m) => {
                if unique_keys(m.items) && unique_keys(m.preserved) && disjoint_keys(
                    m.items,
                    m.preserved,
                ) {
                    match r {
                        Ok(st) => {
                            &&& st@.items == m.items
                            &&& st@.preserved == m.preserved
                            &&& st@.name == name@
                            &&& st@.path == storage_path@ + seq!['/'] + name@
                            &&& st@.identifier == identifier@
                            &&& well_formed(st@)
                        },
                        Err(_) => false,
                    }
                } else {
                    r == Err::<State, Error>(Error::Corrupt)
                }
            },
        },
{
    let mut st = match parse_manifest(manifest_text) {
        Some(st) => st,
        None => {
            return Err(Error::Corrupt);
        },
    };
    if has_duplicate_key(&st.items) || has_duplicate_key(&st.preserved) || has_common_key(
        &st.items,
        &st.preserved,
    ) {
        return Err(Error::Corrupt);
    }
    let path = path_join(storage_path, name);
    st.name = name.to_owned();
    st.lockfile_path = path_join(path.as_str(), "~rust_nonvolatile.lock");
    st.manifest_path = path_join(path.as_str(), ".manifest");
    st.tmp_manifest_path = path_join(path.as_str(), ".manifest_tmp");
    st.path = path;
    st.identifier = identifier;
    Ok(st)
}

} // verus!
