//! The state bundle.
//!
//! A `State` holds the two key-value namespaces (`items` for set values,
//! `preserved` for snapshotted files), the paths derived from its storage
//! root and name, and the transient identity of the process that holds the
//! lock.  The standing invariant: keys are unique within each namespace and
//! no key stands in both.

use vstd::prelude::*;
use vstd::string::StringExecFns;

use crate::entries::{
    contains_key, disjoint_keys, entries_map, entries_view, find_key, has_key, key_subset,
    lemma_disjoint_shrink, lemma_entries_map_contains, lemma_entries_map_push,
    lemma_entries_map_remove, lemma_entries_map_update, lemma_entries_map_value, unique_keys,
};
use crate::text::path_join;
use crate::Error;

verus! {

/// The file name of the lock inside a bundle directory.
pub open spec fn lock_file_name() -> Seq<char> {
    "~rust_nonvolatile.lock"@
}

/// The file name of the manifest inside a bundle directory.
pub open spec fn manifest_file_name() -> Seq<char> {
    ".manifest"@
}

/// The file name the manifest is staged under before the committing rename.
pub open spec fn tmp_manifest_file_name() -> Seq<char> {
    ".manifest_tmp"@
}

/// What a `State` denotes.
pub struct StateModel {
    pub name: Seq<char>,
    pub path: Seq<char>,
    pub identifier: Seq<char>,
    pub lockfile_path: Seq<char>,
    pub manifest_path: Seq<char>,
    pub tmp_manifest_path: Seq<char>,
    pub items: Seq<(Seq<char>, Seq<char>)>,
    pub preserved: Seq<(Seq<char>, Seq<char>)>,
}

/// The standing invariant of a bundle: unique keys in each namespace,
/// disjoint namespaces, and file paths derived from the bundle directory.
pub open spec fn well_formed(m: StateModel) -> bool {
    &&& unique_keys(m.items)
    &&& unique_keys(m.preserved)
    &&& disjoint_keys(m.items, m.preserved)
    &&& m.lockfile_path == m.path + seq!['/'] + lock_file_name()
    &&& m.manifest_path == m.path + seq!['/'] + manifest_file_name()
    &&& m.tmp_manifest_path == m.path + seq!['/'] + tmp_manifest_file_name()
}

/// A named bundle of settings.
#[derive(Debug)]
pub struct State {
    pub name: String,
    pub path: String,
    pub identifier: String,
    pub lockfile_path: String,
    pub manifest_path: String,
    pub tmp_manifest_path: String,
    pub items: Vec<(String, String)>,
    pub preserved: Vec<(String, String)>,
}

impl View for State {
    type V = StateModel;

    open spec fn view(&self) -> StateModel {
        StateModel {
            name: self.name@,
            path: self.path@,
            identifier: self.identifier@,
            lockfile_path: self.lockfile_path@,
            manifest_path: self.manifest_path@,
            tmp_manifest_path: self.tmp_manifest_path@,
            items: entries_view(self.items@),
            preserved: entries_view(self.preserved@),
        }
    }
}

/// The scalar fields of two models agree: everything but the namespaces.
pub open spec fn same_paths(a: StateModel, b: StateModel) -> bool {
    &&& a.name == b.name
    &&& a.path == b.path
    &&& a.identifier == b.identifier
    &&& a.lockfile_path == b.lockfile_path
    &&& a.manifest_path == b.manifest_path
    &&& a.tmp_manifest_path == b.tmp_manifest_path
}

impl State {
    /// A fresh, empty bundle for the given name under the given storage
    /// root, owned by the given identity.
    pub fn fresh(name: &str, storage_path: &str, identifier: String) -> (st: State)
        ensures
            st@.name == name@,
            st@.path == storage_path@ + seq!['/'] + name@,
            st@.identifier == identifier@,
            st@.items == Seq::<(Seq<char>, Seq<char>)>::empty(),
            st@.preserved == Seq::<(Seq<char>, Seq<char>)>::empty(),
            well_formed(st@),
    {
        let path = path_join(storage_path, name);
        let lockfile_path = path_join(path.as_str(), "~rust_nonvolatile.lock");
        let manifest_path = path_join(path.as_str(), ".manifest");
        let tmp_manifest_path = path_join(path.as_str(), ".manifest_tmp");
        let st = State {
            name: name.to_owned(),
            path,
            identifier,
            lockfile_path,
            manifest_path,
            tmp_manifest_path,
            items: Vec::new(),
            preserved: Vec::new(),
        };
        proof {
            assert(entries_view(st.items@) =~= Seq::<(Seq<char>, Seq<char>)>::empty());
            assert(entries_view(st.preserved@) =~= Seq::<(Seq<char>, Seq<char>)>::empty());
        }
        st
    }

    /// The bundle's name.
    pub fn name(&self) -> (r: &String)
        ensures
            r@ == self@.name,
    {
        &self.name
    }

    /// The bundle directory.
    pub fn path(&self) -> (r: &String)
        ensures
            r@ == self@.path,
    {
        &self.path
    }

    /// The identity of the process incarnation that opened this bundle.
    pub fn identifier(&self) -> (r: &String)
        ensures
            r@ == self@.identifier,
    {
        &self.identifier
    }

    /// Where the bundle's lock file stands.
    pub fn lockfile_path(&self) -> (r: &String)
        ensures
            r@ == self@.lockfile_path,
    {
        &self.lockfile_path
    }

    /// Where the bundle's manifest stands.
    pub fn manifest_path(&self) -> (r: &String)
        ensures
            r@ == self@.manifest_path,
    {
        &self.manifest_path
    }

    /// Where the manifest is staged before the committing rename.
    pub fn tmp_manifest_path(&self) -> (r: &String)
        ensures
            r@ == self@.tmp_manifest_path,
    {
        &self.tmp_manifest_path
    }

    /// Whether `item` names a set value or a preserved entry.
    pub fn has(&self, item: &str) -> (r: bool)
        ensures
            r == (has_key(self@.items, item@) || has_key(self@.preserved, item@)),
    {
        contains_key(&self.items, item) || contains_key(&self.preserved, item)
    }

    /// The value stored under `var`, if any.
    pub fn get(&self, var: &str) -> (r: Option<String>)
        requires
            well_formed(self@),
        ensures
            match r {
                Some(v) => has_key(self@.items, var@) && entries_map(self@.items)[var@] == v@,
                None => !has_key(self@.items, var@),
            },
    {
        match find_key(&self.items, var) {
            Some(i) => {
                proof {
                    lemma_entries_map_value(self@.items, i as int);
                }
                Some(self.items[i].1.clone())
            },
            None => None,
        }
    }

    /// Store `value` under `var`.
    ///
    /// Fails with `NameConflict`, leaving the bundle unchanged, exactly when
    /// `var` names a preserved entry; otherwise upserts into `items`.
    pub fn set(&mut self, var: &str, value: String) -> (r: Result<(), Error>)
        requires
            well_formed(old(self)@),
        ensures
            well_formed(final(self)@),
            match r {
                Ok(()) => {
                    &&& !has_key(old(self)@.preserved, var@)
                    &&& entries_map(final(self)@.items) == entries_map(old(self)@.items).insert(
                        var@,
                        value@,
                    )
                    &&& has_key(final(self)@.items, var@)
                    &&& final(self)@.preserved == old(self)@.preserved
                    &&& same_paths(final(self)@, old(self)@)
                },
                Err(e) => {
                    &&& e == Error::NameConflict
                    &&& has_key(old(self)@.preserved, var@)
                    &&& final(self)@ == old(self)@
                },
            },
    {
        if contains_key(&self.preserved, var) {
            return Err(Error::NameConflict);
        }
        let ghost m0 = self@;
        match find_key(&self.items, var) {
            Some(i) => {
                proof {
                    lemma_entries_map_update(self@.items, i as int, value@);
                }
                let ghost before = self@.items;
                self.items[i] = (var.to_owned(), value);
                proof {
                    assert(entries_view(self.items@) =~= before.update(
                        i as int,
                        (before[i as int].0, value@),
                    ));
                    assert forall|a: int, b: int|
                        #![trigger self@.items[a], self@.preserved[b]]
                        0 <= a < self@.items.len() && 0 <= b < self@.preserved.len() implies self@
                        .items[a].0 != self@.preserved[b].0 by {
                        assert(self@.items[a].0 == m0.items[a].0);
                        assert(m0.items[a].0 != m0.preserved[b].0);
                    }
                    assert(has_key(self@.items, var@)) by {
                        assert(self@.items[i as int].0 == var@);
                    }
                }
            },
            None => {
                proof {
                    lemma_entries_map_push(self@.items, var@, value@);
                }
                let ghost before = self@.items;
                self.items.push((var.to_owned(), value));
                proof {
                    assert(entries_view(self.items@) =~= before.push((var@, value@)));
                    assert forall|a: int, b: int|
                        #![trigger self@.items[a], self@.preserved[b]]
                        0 <= a < self@.items.len() && 0 <= b < self@.preserved.len() implies self@
                        .items[a].0 != self@.preserved[b].0 by {
                        if a < m0.items.len() {
                            assert(self@.items[a] == m0.items[a]);
                            assert(m0.items[a].0 != m0.preserved[b].0);
                        } else {
                            assert(self@.items[a].0 == var@);
                            assert(!has_key(m0.preserved, var@));
                            if m0.preserved[b].0 == var@ {
                                assert(has_key(m0.preserved, var@));
                            }
                        }
                    }
                }
            },
        }
        Ok(())
    }

    /// Remove `name` from the bundle.
    ///
    /// Removing an absent name succeeds and changes nothing.  Where `name`
    /// named a preserved entry, the returned path is the stored copy the
    /// caller must delete from disk.
    pub fn delete(&mut self, name: &str) -> (r: Option<String>)
        requires
            well_formed(old(self)@),
        ensures
            well_formed(final(self)@),
            entries_map(final(self)@.items) == entries_map(old(self)@.items).remove(name@),
            !has_key(final(self)@.items, name@),
            entries_map(final(self)@.preserved) == entries_map(old(self)@.preserved).remove(name@),
            !has_key(final(self)@.preserved, name@),
            same_paths(final(self)@, old(self)@),
            match r {
                Some(p) => has_key(old(self)@.preserved, name@) && p@ == old(self)@.path
                    + seq!['/'] + name@,
                None => !has_key(old(self)@.preserved, name@),
            },
            (!has_key(old(self)@.items, name@) && !has_key(old(self)@.preserved, name@))
                ==> final(self)@ == old(self)@,
    {
        let ghost m0 = self@;
        match find_key(&self.items, name) {
            Some(i) => {
                proof {
                    lemma_entries_map_remove(self@.items, i as int);
                }
                let ghost before = self@.items;
                let _ = self.items.remove(i);
                proof {
                    assert(entries_view(self.items@) =~= before.remove(i as int));
                    assert(key_subset(entries_view(self.items@), m0.items));
                }
            },
            None => {
                proof {
                    lemma_entries_map_contains(self@.items, name@);
                    assert(entries_map(self@.items).remove(name@) =~= entries_map(self@.items));
                    assert(key_subset(entries_view(self.items@), m0.items));
                }
            },
        }
        let r = match find_key(&self.preserved, name) {
            Some(j) => {
                proof {
                    lemma_entries_map_remove(self@.preserved, j as int);
                }
                let ghost before = self@.preserved;
                let _ = self.preserved.remove(j);
                proof {
                    assert(entries_view(self.preserved@) =~= before.remove(j as int));
                    assert(key_subset(entries_view(self.preserved@), m0.preserved));
                }
                Some(path_join(self.path.as_str(), name))
            },
            None => {
                proof {
                    lemma_entries_map_contains(self@.preserved, name@);
                    assert(entries_map(self@.preserved).remove(name@) =~= entries_map(
                        self@.preserved,
                    ));
                    assert(key_subset(entries_view(self.preserved@), m0.preserved));
                }
                None
            },
        };
        proof {
            lemma_disjoint_shrink(self@.items, m0.items, self@.preserved, m0.preserved);
            if !has_key(m0.items, name@) && !has_key(m0.preserved, name@) {
                assert(self@.items =~= m0.items);
                assert(self@.preserved =~= m0.preserved);
            }
        }
        r
    }

    /// Where a snapshot of `name` is staged and where it finally stands.
    ///
    /// Fails with `NameConflict` exactly when `name` names a set value.
    /// The copy is made to the staging path first; only after the manifest
    /// records the entry is it renamed to the final path.
    pub fn preserve_stage(&self, name: &str) -> (r: Result<(String, String), Error>)
        ensures
            match r {
                Ok(p) => {
                    &&& !has_key(self@.items, name@)
                    &&& p.0@ == self@.path + seq!['/'] + "tmp_"@ + name@
                    &&& p.1@ == self@.path + seq!['/'] + name@
                },
                Err(e) => e == Error::NameConflict && has_key(self@.items, name@),
            },
    {
        if contains_key(&self.items, name) {
            return Err(Error::NameConflict);
        }
        let mut staged_name = "tmp_".to_owned();
        staged_name.append(name);
        let staged = path_join(self.path.as_str(), staged_name.as_str());
        let dest = path_join(self.path.as_str(), name);
        proof {
            assert(staged@ =~= self@.path + seq!['/'] + "tmp_"@ + name@);
        }
        Ok((staged, dest))
    }

    /// Record that `name` snapshots the file or directory at `source`.
    ///
    /// Fails with `NameConflict`, leaving the bundle unchanged, exactly when
    /// `name` names a set value; otherwise upserts into `preserved`.
    pub fn preserve_commit(&mut self, name: &str, source: String) -> (r: Result<(), Error>)
        requires
            well_formed(old(self)@),
        ensures
            well_formed(final(self)@),
            match r {
                Ok(()) => {
                    &&& !has_key(old(self)@.items, name@)
                    &&& entries_map(final(self)@.preserved) == entries_map(
                        old(self)@.preserved,
                    ).insert(name@, source@)
                    &&& has_key(final(self)@.preserved, name@)
                    &&& final(self)@.items == old(self)@.items
                    &&& same_paths(final(self)@, old(self)@)
                },
                Err(e) => {
                    &&& e == Error::NameConflict
                    &&& has_key(old(self)@.items, name@)
                    &&& final(self)@ == old(self)@
                },
            },
    {
        if contains_key(&self.items, name) {
            return Err(Error::NameConflict);
        }
        let ghost m0 = self@;
        match find_key(&self.preserved, name) {
            Some(i) => {
                proof {
                    lemma_entries_map_update(self@.preserved, i as int, source@);
                }
                let ghost before = self@.preserved;
                self.preserved[i] = (name.to_owned(), source);
                proof {
                    assert(entries_view(self.preserved@) =~= before.update(
                        i as int,
                        (before[i as int].0, source@),
                    ));
                    assert forall|a: int, b: int|
                        #![trigger self@.items[a], self@.preserved[b]]
                        0 <= a < self@.items.len() && 0 <= b < self@.preserved.len() implies self@
                        .items[a].0 != self@.preserved[b].0 by {
                        assert(self@.preserved[b].0 == m0.preserved[b].0);
                        assert(m0.items[a].0 != m0.preserved[b].0);
                    }
                    assert(has_key(self@.preserved, name@)) by {
                        assert(self@.preserved[i as int].0 == name@);
                    }
                }
            },
            None => {
                proof {
                    lemma_entries_map_push(self@.preserved, name@, source@);
                }
                let ghost before = self@.preserved;
                self.preserved.push((name.to_owned(), source));
                proof {
                    assert(entries_view(self.preserved@) =~= before.push((name@, source@)));
                    assert forall|a: int, b: int|
                        #![trigger self@.items[a], self@.preserved[b]]
                        0 <= a < self@.items.len() && 0 <= b < self@.preserved.len() implies self@
                        .items[a].0 != self@.preserved[b].0 by {
                        if b < m0.preserved.len() {
                            assert(self@.preserved[b] == m0.preserved[b]);
                            assert(m0.items[a].0 != m0.preserved[b].0);
                        } else {
                            assert(self@.preserved[b].0 == name@);
                            assert(!has_key(m0.items, name@));
                            if m0.items[a].0 == name@ {
                                assert(has_key(m0.items, name@));
                            }
                        }
                    }
                }
            },
        }
        Ok(())
    }

    /// Round trip within one instance: a successful `set` of `k` to `v`
    /// leaves the bundle answering `get(k)` with exactly `v`, as the two
    /// contracts meet in the items map.
    pub proof fn lemma_set_then_get(m0: StateModel, m1: StateModel, k: Seq<char>, v: Seq<char>)
        requires
            entries_map(m1.items) == entries_map(m0.items).insert(k, v),
            has_key(m1.items, k),
        ensures
            entries_map(m1.items)[k] == v,
    {
    }

    /// The path of the stored copy of a preserved entry, to restore from.
    ///
    /// Fails with `NotFound` exactly when nothing was preserved under
    /// `name`.
    pub fn restore_source(&self, name: &str) -> (r: Result<String, Error>)
        ensures
            match r {
                Ok(p) => has_key(self@.preserved, name@) && p@ == self@.path + seq!['/'] + name@,
                Err(e) => e == Error::NotFound && !has_key(self@.preserved, name@),
            },
    {
        if contains_key(&self.preserved, name) {
            Ok(path_join(self.path.as_str(), name))
        } else {
            Err(Error::NotFound)
        }
    }

    /// The original path a preserved entry was copied from: the default
    /// destination of a restore.
    ///
    /// Fails with `NotFound` exactly when nothing was preserved under
    /// `name`.
    pub fn restore_origin(&self, name: &str) -> (r: Result<String, Error>)
        requires
            well_formed(self@),
        ensures
            match r {
                Ok(p) => has_key(self@.preserved, name@) && entries_map(self@.preserved)[name@]
                    == p@,
                Err(e) => e == Error::NotFound && !has_key(self@.preserved, name@),
            },
    {
        match find_key(&self.preserved, name) {
            Some(i) => {
                proof {
                    lemma_entries_map_value(self@.preserved, i as int);
                }
                Ok(self.preserved[i].1.clone())
            },
            None => Err(Error::NotFound),
        }
    }
}

} // verus!
