use vstd::prelude::*;

use crate::version::{
    patch_model, patches_get, patches_len, patches_of, repository_model, version_key, Patch, Repository,
    Version, VersionKey, VersionMessage,
};

verus! {

/// The name that always points at the newest version seen.
pub open spec fn latest_tag() -> Seq<char> {
    "latest"@
}

/// The name that always points at the newest version seen.
pub fn latest_tag_str() -> (out: &'static str)
    ensures
        out@ == latest_tag(),
{
    "latest"
}

// ---------------------------------------------------------------------------
// Lookups in lists of pairs.
// ---------------------------------------------------------------------------

/// The position of the version stored under `key`, if any.
pub open spec fn key_index(versions: Seq<(VersionKey, Version)>, key: VersionKey) -> Option<int> {
    if exists|i: int| 0 <= i < versions.len() && #[trigger] versions[i].0 == key {
        Some(choose|i: int| 0 <= i < versions.len() && #[trigger] versions[i].0 == key)
    } else {
        None
    }
}

/// The position of the entry for `name`, if any.
pub open spec fn name_index(names: Seq<(Seq<char>, VersionKey)>, name: Seq<char>) -> Option<int> {
    if exists|i: int| 0 <= i < names.len() && #[trigger] names[i].0 == name {
        Some(choose|i: int| 0 <= i < names.len() && #[trigger] names[i].0 == name)
    } else {
        None
    }
}

/// The key that `name` points at, if any.
pub open spec fn resolve_name(names: Seq<(Seq<char>, VersionKey)>, name: Seq<char>) -> Option<VersionKey> {
    match name_index(names, name) {
        Some(i) => Some(names[i].1),
        None => None,
    }
}

pub open spec fn unique_keys(versions: Seq<(VersionKey, Version)>) -> bool {
    forall|i: int, j: int|
        0 <= i < versions.len() && 0 <= j < versions.len() && #[trigger] versions[i].0 == #[trigger] versions[j].0
            ==> i == j
}

pub open spec fn unique_names(names: Seq<(Seq<char>, VersionKey)>) -> bool {
    forall|i: int, j: int|
        0 <= i < names.len() && 0 <= j < names.len() && #[trigger] names[i].0 == #[trigger] names[j].0 ==> i
            == j
}

/// `names` with `name` pointing at `key`: the entry for `name` changes in
/// place, or a new one is added at the end.
pub open spec fn set_name(names: Seq<(Seq<char>, VersionKey)>, name: Seq<char>, key: VersionKey) -> Seq<
    (Seq<char>, VersionKey),
> {
    match name_index(names, name) {
        Some(i) => names.update(i, (name, key)),
        None => names.push((name, key)),
    }
}

/// `names` with each of `new_names`, in turn, pointing at `key`.
pub open spec fn set_all(names: Seq<(Seq<char>, VersionKey)>, new_names: Seq<Seq<char>>, key: VersionKey) -> Seq<
    (Seq<char>, VersionKey),
>
    decreases new_names.len(),
{
    if new_names.len() == 0 {
        names
    } else {
        set_name(set_all(names, new_names.drop_last(), key), new_names.last(), key)
    }
}

/// The entries that do not point at `key`, in order.
pub open spec fn without_key(names: Seq<(Seq<char>, VersionKey)>, key: VersionKey) -> Seq<(Seq<char>, VersionKey)>
    decreases names.len(),
{
    if names.len() == 0 {
        names
    } else if names.last().1 == key {
        without_key(names.drop_last(), key)
    } else {
        without_key(names.drop_last(), key).push(names.last())
    }
}

/// The names of the entries that point at `key`, in order.
pub open spec fn names_for(names: Seq<(Seq<char>, VersionKey)>, key: VersionKey) -> Seq<Seq<char>>
    decreases names.len(),
{
    if names.len() == 0 {
        Seq::empty()
    } else if names.last().1 == key {
        names_for(names.drop_last(), key).push(names.last().0)
    } else {
        names_for(names.drop_last(), key)
    }
}

/// `versions` with `version` stored under `key`: in place of an earlier
/// version under that key, or added at the end.
pub open spec fn store(versions: Seq<(VersionKey, Version)>, key: VersionKey, version: Version) -> Seq<
    (VersionKey, Version),
> {
    match key_index(versions, key) {
        Some(i) => versions.update(i, (key, version)),
        None => versions.push((key, version)),
    }
}

/// `versions` with each pair stored in turn.
pub open spec fn store_all(versions: Seq<(VersionKey, Version)>, loaded: Seq<(VersionKey, Version)>) -> Seq<
    (VersionKey, Version),
>
    decreases loaded.len(),
{
    if loaded.len() == 0 {
        versions
    } else {
        let last = loaded.last();
        store(store_all(versions, loaded.drop_last()), last.0, last.1)
    }
}

/// `names` with each loaded name whose key is stored pointing at that key,
/// in turn; names of unknown keys are dropped.
pub open spec fn name_all(
    names: Seq<(Seq<char>, VersionKey)>,
    loaded: Seq<(Seq<char>, VersionKey)>,
    versions: Seq<(VersionKey, Version)>,
) -> Seq<(Seq<char>, VersionKey)>
    decreases loaded.len(),
{
    if loaded.len() == 0 {
        names
    } else {
        let earlier = name_all(names, loaded.drop_last(), versions);
        let last = loaded.last();
        if key_index(versions, last.1) is Some {
            set_name(earlier, last.0, last.1)
        } else {
            earlier
        }
    }
}

proof fn lemma_key_index(versions: Seq<(VersionKey, Version)>, key: VersionKey)
    ensures
        key_index(versions, key) matches Some(i) ==> 0 <= i < versions.len() && versions[i].0 == key,
        key_index(versions, key) is None ==> forall|i: int| 0 <= i < versions.len() ==> versions[i].0 != key,
{
}

proof fn lemma_name_index(names: Seq<(Seq<char>, VersionKey)>, name: Seq<char>)
    ensures
        name_index(names, name) matches Some(i) ==> 0 <= i < names.len() && names[i].0 == name,
        name_index(names, name) is None ==> forall|i: int| 0 <= i < names.len() ==> names[i].0 != name,
{
}

proof fn lemma_set_name(names: Seq<(Seq<char>, VersionKey)>, name: Seq<char>, key: VersionKey)
    requires
        unique_names(names),
    ensures
        unique_names(set_name(names, name, key)),
        resolve_name(set_name(names, name, key), name) == Some(key),
        forall|n: Seq<char>| n != name ==> resolve_name(set_name(names, name, key), n) == resolve_name(names, n),
{
    let r = set_name(names, name, key);
    lemma_name_index(names, name);
    assert forall|i: int, j: int|
        0 <= i < r.len() && 0 <= j < r.len() && #[trigger] r[i].0 == #[trigger] r[j].0 implies i == j by {
        if i < names.len() && j < names.len() {
            if r[i] != names[i] || r[j] != names[j] {
            } else {
                assert(names[i].0 == names[j].0);
            }
        }
    }
    lemma_name_index(r, name);
    assert(r.len() > 0);
    match name_index(names, name) {
        Some(k) => {
            assert(r[k].0 == name);
        },
        None => {
            assert(r[names.len() as int].0 == name);
        },
    }
    assert forall|n: Seq<char>| n != name implies resolve_name(r, n) == resolve_name(names, n) by {
        lemma_name_index(names, n);
        lemma_name_index(r, n);
        match name_index(names, n) {
            Some(k) => {
                assert(r[k] == names[k]);
            },
            None => {
                match name_index(r, n) {
                    Some(k) => {
                        if k < names.len() {
                            assert(r[k] == names[k]);
                        }
                    },
                    None => {},
                }
            },
        }
    }
}

proof fn lemma_store(versions: Seq<(VersionKey, Version)>, key: VersionKey, version: Version)
    requires
        unique_keys(versions),
    ensures
        unique_keys(store(versions, key, version)),
        key_index(store(versions, key, version), key) matches Some(i) && store(versions, key, version)[i].1
            == version,
        forall|k: VersionKey|
            k != key ==> #[trigger] key_index(store(versions, key, version), k) == key_index(versions, k),
        forall|k: VersionKey| (key_index(versions, k) is Some) ==> #[trigger] key_index(store(versions, key, version), k) is Some,
{
    let r = store(versions, key, version);
    lemma_key_index(versions, key);
    assert forall|i: int, j: int|
        0 <= i < r.len() && 0 <= j < r.len() && #[trigger] r[i].0 == #[trigger] r[j].0 implies i == j by {
        if i < versions.len() && j < versions.len() {
            if r[i] == versions[i] && r[j] == versions[j] {
                assert(versions[i].0 == versions[j].0);
            }
        }
    }
    lemma_key_index(r, key);
    match key_index(versions, key) {
        Some(k) => {
            assert(r[k].0 == key);
        },
        None => {
            assert(r[versions.len() as int].0 == key);
        },
    }
    assert forall|k: VersionKey| k != key implies #[trigger] key_index(r, k) == key_index(versions, k) by {
        lemma_key_index(versions, k);
        lemma_key_index(r, k);
        match key_index(versions, k) {
            Some(a) => {
                assert(r[a] == versions[a]);
                let b = key_index(r, k)->Some_0;
                if b < versions.len() {
                    assert(r[b] == versions[b]);
                }
            },
            None => {
                match key_index(r, k) {
                    Some(b) => {
                        if b < versions.len() {
                            assert(r[b] == versions[b]);
                        }
                    },
                    None => {},
                }
            },
        }
    }
    assert forall|k: VersionKey| (key_index(versions, k) is Some) implies #[trigger] key_index(r, k) is Some by {
        if k != key {
        } else {
        }
    }
}

/// The key stored at a position finds that position.
pub proof fn lemma_key_index_of(versions: Seq<(VersionKey, Version)>, i: int)
    requires
        unique_keys(versions),
        0 <= i < versions.len(),
    ensures
        key_index(versions, versions[i].0) == Some(i),
{
}

proof fn lemma_key_index_unique(versions: Seq<(VersionKey, Version)>, key: VersionKey, i: int)
    requires
        unique_keys(versions),
        0 <= i < versions.len(),
        versions[i].0 == key,
    ensures
        key_index(versions, key) == Some(i),
{
}

proof fn lemma_name_index_unique(names: Seq<(Seq<char>, VersionKey)>, name: Seq<char>, i: int)
    requires
        unique_names(names),
        0 <= i < names.len(),
        names[i].0 == name,
    ensures
        name_index(names, name) == Some(i),
{
}

proof fn lemma_without_key(names: Seq<(Seq<char>, VersionKey)>, key: VersionKey)
    requires
        unique_names(names),
    ensures
        unique_names(without_key(names, key)),
        forall|n: Seq<char>|
            #[trigger] resolve_name(without_key(names, key), n) == if resolve_name(names, n) == Some(key) {
                None
            } else {
                resolve_name(names, n)
            },
    decreases names.len(),
{
    let r = without_key(names, key);
    if names.len() > 0 {
        let p = names.drop_last();
        assert(unique_names(p)) by {
            assert forall|i: int, j: int| 0 <= i < p.len() && 0 <= j < p.len() && #[trigger] p[i].0 == #[trigger] p[j].0 implies i == j by {
                assert(names[i] == p[i] && names[j] == p[j]);
            }
        }
        lemma_without_key(p, key);
        let rp = without_key(p, key);
        let last = names.last();
        // The last name does not occur earlier.
        assert forall|n: Seq<char>| #[trigger] resolve_name(p, n) is Some implies n != last.0 by {
            lemma_name_index(p, n);
            let i = name_index(p, n)->Some_0;
            assert(names[i] == p[i]);
        }
        assert(resolve_name(rp, last.0) is None) by {
            lemma_name_index(p, last.0);
            if resolve_name(p, last.0) is Some {
                let i = name_index(p, last.0)->Some_0;
                assert(names[i] == p[i]);
            }
            assert(resolve_name(p, last.0) is None);
        }
        assert forall|n: Seq<char>| #[trigger] resolve_name(names, n) == if n == last.0 {
            Some(last.1)
        } else {
            resolve_name(p, n)
        } by {
            lemma_name_index(names, n);
            lemma_name_index(p, n);
            if n == last.0 {
                lemma_name_index_unique(names, n, names.len() - 1);
            } else {
                match name_index(names, n) {
                    Some(i) => {
                        assert(i < p.len());
                        assert(names[i] == p[i]);
                        lemma_name_index_unique(names, n, i);
                        assert(unique_names(p));
                        lemma_name_index_unique(p, n, i);
                    },
                    None => {
                        match name_index(p, n) {
                            Some(i) => {
                                assert(names[i] == p[i]);
                            },
                            None => {},
                        }
                    },
                }
            }
        }
        if last.1 == key {
            assert(r == rp);
        } else {
            assert(r == rp.push(last));
            lemma_set_name_push(rp, last.0, last.1);
        }
    }
}

proof fn lemma_set_name_push(names: Seq<(Seq<char>, VersionKey)>, name: Seq<char>, key: VersionKey)
    requires
        unique_names(names),
        resolve_name(names, name) is None,
    ensures
        set_name(names, name, key) == names.push((name, key)),
        unique_names(names.push((name, key))),
        forall|n: Seq<char>| #[trigger] resolve_name(names.push((name, key)), n) == if n == name {
            Some(key)
        } else {
            resolve_name(names, n)
        },
{
    lemma_name_index(names, name);
    lemma_set_name(names, name, key);
}

proof fn lemma_set_all(names: Seq<(Seq<char>, VersionKey)>, new_names: Seq<Seq<char>>, key: VersionKey)
    requires
        unique_names(names),
    ensures
        unique_names(set_all(names, new_names, key)),
        forall|n: Seq<char>|
            #[trigger] resolve_name(set_all(names, new_names, key), n) == if new_names.contains(n) {
                Some(key)
            } else {
                resolve_name(names, n)
            },
    decreases new_names.len(),
{
    if new_names.len() > 0 {
        let p = new_names.drop_last();
        lemma_set_all(names, p, key);
        let s0 = set_all(names, p, key);
        lemma_set_name(s0, new_names.last(), key);
        assert forall|n: Seq<char>| #[trigger] new_names.contains(n) == (p.contains(n) || n == new_names.last()) by {
            if new_names.contains(n) {
                let i = choose|i: int| 0 <= i < new_names.len() && new_names[i] == n;
                if i < p.len() {
                    assert(p[i] == n);
                }
            }
            if p.contains(n) {
                let i = choose|i: int| 0 <= i < p.len() && p[i] == n;
                assert(new_names[i] == n);
            }
            if n == new_names.last() {
                assert(new_names[new_names.len() - 1] == n);
            }
        }
        assert forall|n: Seq<char>|
            #[trigger] resolve_name(set_all(names, new_names, key), n) == if new_names.contains(n) {
                Some(key)
            } else {
                resolve_name(names, n)
            } by {
            assert(set_all(names, new_names, key) == set_name(s0, new_names.last(), key));
            assert(new_names.contains(n) == (p.contains(n) || n == new_names.last()));
            if n != new_names.last() {
                assert(resolve_name(set_name(s0, new_names.last(), key), n) == resolve_name(s0, n));
            }
        }
    }
}

// ---------------------------------------------------------------------------
// The registry of versions and their names.
// ---------------------------------------------------------------------------

/// The known versions of the game data, by key, and the names that point at
/// them.
pub struct Registry {
    versions: Vec<(VersionKey, Version)>,
    names: Vec<(String, VersionKey)>,
}

pub open spec fn names_model(names: Seq<(String, VersionKey)>) -> Seq<(Seq<char>, VersionKey)> {
    names.map_values(|e: (String, VersionKey)| (e.0@, e.1))
}

pub open spec fn strings_model(strings: Seq<String>) -> Seq<Seq<char>> {
    strings.map_values(|s: String| s@)
}

pub open spec fn keys_of(versions: Seq<(VersionKey, Version)>) -> Seq<VersionKey> {
    versions.map_values(|e: (VersionKey, Version)| e.0)
}

/// Whether a version is new under its key: no version is stored under it, or
/// a different one is.
pub open spec fn changes(versions: Seq<(VersionKey, Version)>, version: Version) -> bool {
    match key_index(versions, version_key(version)) {
        None => true,
        Some(i) => versions[i].1.model() != version.model(),
    }
}

impl Registry {
    /// The stored versions with their keys, in the order they were added.
    pub closed spec fn stored(&self) -> Seq<(VersionKey, Version)> {
        self.versions@
    }

    /// The names with the keys they point at.
    pub closed spec fn named(&self) -> Seq<(Seq<char>, VersionKey)> {
        names_model(self.names@)
    }

    /// No key is stored twice, and no name occurs twice.
    pub closed spec fn wf(&self) -> bool {
        unique_keys(self.versions@) && unique_names(names_model(self.names@))
    }

    /// What well-formedness means outside this module.
    pub proof fn lemma_wf(&self)
        requires
            self.wf(),
        ensures
            unique_keys(self.stored()),
            unique_names(self.named()),
    {
    }

    /// A registry with no versions and no names.
    pub fn new() -> (out: Registry)
        ensures
            out.wf(),
            out.stored() == Seq::<(VersionKey, Version)>::empty(),
            out.named() == Seq::<(Seq<char>, VersionKey)>::empty(),
    {
        let out = Registry { versions: Vec::new(), names: Vec::new() };
        assert(names_model(out.names@) =~= Seq::<(Seq<char>, VersionKey)>::empty());
        out
    }

    /// Ready once at least one version is known.
    pub fn ready(&self) -> (out: bool)
        ensures
            out == (self.stored().len() > 0),
    {
        self.versions.len() > 0
    }

    /// The keys of all known versions.
    pub fn keys(&self) -> (out: Vec<VersionKey>)
        ensures
            out@ == keys_of(self.stored()),
    {
        let mut out: Vec<VersionKey> = Vec::new();
        let mut i: usize = 0;
        while i < self.versions.len()
            invariant
                i <= self.versions@.len(),
                out@ == keys_of(self.versions@).take(i as int),
            decreases self.versions@.len() - i,
        {
            out.push(self.versions[i].0);
            assert(keys_of(self.versions@).take(i + 1) == keys_of(self.versions@).take(i as int).push(
                self.versions@[i as int].0,
            ));
            i = i + 1;
        }
        assert(keys_of(self.versions@).take(self.versions@.len() as int) == keys_of(self.versions@));
        out
    }

    fn find_name(&self, name: &String) -> (out: Option<usize>)
        requires
            self.wf(),
        ensures
            match out {
                Some(i) => name_index(self.named(), name@) == Some(i as int),
                None => name_index(self.named(), name@) is None,
            },
    {
        let ghost m = names_model(self.names@);
        let mut i: usize = 0;
        while i < self.names.len()
            invariant
                i <= self.names@.len(),
                m == names_model(self.names@),
                unique_names(m),
                forall|j: int| 0 <= j < i ==> m[j].0 != name@,
            decreases self.names@.len() - i,
        {
            if self.names[i].0 == *name {
                proof {
                    lemma_name_index_unique(m, name@, i as int);
                }
                return Some(i);
            }
            i = i + 1;
        }
        None
    }

    fn find_key(&self, key: VersionKey) -> (out: Option<usize>)
        requires
            self.wf(),
        ensures
            match out {
                Some(i) => key_index(self.stored(), key) == Some(i as int),
                None => key_index(self.stored(), key) is None,
            },
    {
        let mut i: usize = 0;
        while i < self.versions.len()
            invariant
                i <= self.versions@.len(),
                unique_keys(self.versions@),
                forall|j: int| 0 <= j < i ==> self.versions@[j].0 != key,
            decreases self.versions@.len() - i,
        {
            if self.versions[i].0 == key {
                proof {
                    lemma_key_index_unique(self.versions@, key, i as int);
                }
                return Some(i);
            }
            i = i + 1;
        }
        None
    }

    /// The key that `name` points at; with no name, the key of the version
    /// tagged latest.
    pub fn resolve(&self, name: Option<&str>) -> (out: Option<VersionKey>)
        requires
            self.wf(),
        ensures
            out == resolve_name(
                self.named(),
                match name {
                    Some(n) => n@,
                    None => latest_tag(),
                },
            ),
    {
        let wanted = match name {
            Some(n) => n.to_owned(),
            None => latest_tag_str().to_owned(),
        };
        match self.find_name(&wanted) {
            Some(i) => Some(self.names[i].1),
            None => None,
        }
    }

    /// All known names.
    pub fn all_names(&self) -> (out: Vec<String>)
        ensures
            strings_model(out@) == self.named().map_values(|e: (Seq<char>, VersionKey)| e.0),
    {
        let ghost target = names_model(self.names@).map_values(|e: (Seq<char>, VersionKey)| e.0);
        let mut out: Vec<String> = Vec::new();
        let mut i: usize = 0;
        while i < self.names.len()
            invariant
                i <= self.names@.len(),
                target == names_model(self.names@).map_values(|e: (Seq<char>, VersionKey)| e.0),
                strings_model(out@) == target.take(i as int),
            decreases self.names@.len() - i,
        {
            let ghost before = out@;
            out.push(self.names[i].0.clone());
            assert(strings_model(out@) =~= strings_model(before).push(self.names@[i as int].0@));
            assert(target.take(i + 1) =~= target.take(i as int).push(self.names@[i as int].0@));
            i = i + 1;
        }
        assert(target.take(self.names@.len() as int) =~= target);
        out
    }

    /// The names that point at `key`; `None` when no version is stored under
    /// it, to tell an unknown key from a key without names.
    pub fn names(&self, key: VersionKey) -> (out: Option<Vec<String>>)
        requires
            self.wf(),
        ensures
            key_index(self.stored(), key) is None ==> out is None,
            key_index(self.stored(), key) is Some ==> (out matches Some(v) && strings_model(v@) == names_for(
                self.named(),
                key,
            )),
    {
        if self.find_key(key).is_none() {
            return None;
        }
        let ghost m = names_model(self.names@);
        let mut out: Vec<String> = Vec::new();
        let mut i: usize = 0;
        while i < self.names.len()
            invariant
                i <= self.names@.len(),
                m == names_model(self.names@),
                strings_model(out@) == names_for(m.take(i as int), key),
            decreases self.names@.len() - i,
        {
            assert(m.take(i + 1).drop_last() =~= m.take(i as int));
            assert(m.take(i + 1).last() == m[i as int]);
            if self.names[i].1 == key {
                let ghost before = out@;
                out.push(self.names[i].0.clone());
                assert(strings_model(out@) =~= strings_model(before).push(self.names@[i as int].0@));
            }
            i = i + 1;
        }
        assert(m.take(self.names@.len() as int) =~= m);
        Some(out)
    }

    /// The version stored under `key`, if any.
    pub fn version(&self, key: VersionKey) -> (out: Option<&Version>)
        requires
            self.wf(),
        ensures
            match key_index(self.stored(), key) {
                Some(i) => out == Some(&self.stored()[i].1),
                None => out is None,
            },
    {
        match self.find_key(key) {
            Some(i) => Some(&self.versions[i].1),
            None => None,
        }
    }

    fn set_name_entry(&mut self, name: String, key: VersionKey)
        requires
            old(self).wf(),
        ensures
            final(self).wf(),
            final(self).stored() == old(self).stored(),
            final(self).named() == set_name(old(self).named(), name@, key),
    {
        proof {
            lemma_set_name(names_model(self.names@), name@, key);
        }
        let ghost before = names_model(self.names@);
        match self.find_name(&name) {
            Some(i) => {
                let ghost n = name@;
                self.names.set(i, (name, key));
                assert(names_model(self.names@) =~= before.update(i as int, (n, key)));
            },
            None => {
                let ghost n = name@;
                self.names.push((name, key));
                assert(names_model(self.names@) =~= before.push((n, key)));
            },
        }
    }

    /// Points exactly `new_names` at `key`: names that pointed at it before
    /// are dropped, and each new name now points at it, whatever it pointed
    /// at before.
    pub fn set_names(&mut self, key: VersionKey, new_names: Vec<String>)
        requires
            old(self).wf(),
        ensures
            final(self).wf(),
            final(self).stored() == old(self).stored(),
            final(self).named() == set_all(without_key(old(self).named(), key), strings_model(new_names@), key),
    {
        let ghost m0 = names_model(self.names@);
        let mut old_names: Vec<(String, VersionKey)> = Vec::new();
        std::mem::swap(&mut old_names, &mut self.names);
        assert(names_model(self.names@) =~= Seq::<(Seq<char>, VersionKey)>::empty());
        // Keep the entries that point elsewhere, in order.
        let mut kept: Vec<(String, VersionKey)> = Vec::new();
        let mut rest = old_names;
        let ghost all = rest@;
        let total = rest.len();
        let mut i: usize = 0;
        while rest.len() > 0
            invariant
                i + rest@.len() == all.len(),
                all.len() == total,
                rest@ == all.skip(i as int),
                names_model(all) == m0,
                names_model(kept@) == without_key(m0.take(i as int), key),
            decreases rest@.len(),
        {
            let entry = rest.remove(0);
            assert(rest@ =~= all.skip(i + 1));
            assert(entry == all[i as int]);
            assert(m0.take(i + 1).drop_last() =~= m0.take(i as int));
            assert(m0.take(i + 1).last() == (entry.0@, entry.1));
            if entry.1 != key {
                let ghost before = kept@;
                kept.push(entry);
                assert(names_model(kept@) =~= names_model(before).push((entry.0@, entry.1)));
            }
            i = i + 1;
        }
        assert(m0.take(all.len() as int) =~= m0);
        proof {
            lemma_without_key(m0, key);
        }
        self.names = kept;
        // Point each new name at the key.
        let ghost target = strings_model(new_names@);
        let ghost base = names_model(self.names@);
        let mut incoming = new_names;
        let ghost all_new = incoming@;
        let total_new = incoming.len();
        let mut j: usize = 0;
        while incoming.len() > 0
            invariant
                j + incoming@.len() == all_new.len(),
                all_new.len() == total_new,
                incoming@ == all_new.skip(j as int),
                target == strings_model(all_new),
                self.wf(),
                self.stored() == old(self).stored(),
                self.named() == set_all(base, target.take(j as int), key),
                base == without_key(m0, key),
                m0 == old(self).named(),
            decreases incoming@.len(),
        {
            let name = incoming.remove(0);
            assert(incoming@ =~= all_new.skip(j + 1));
            assert(name == all_new[j as int]);
            assert(target.take(j + 1).drop_last() =~= target.take(j as int));
            assert(target.take(j + 1).last() == name@);
            self.set_name_entry(name, key);
            j = j + 1;
        }
        assert(target.take(all_new.len() as int) =~= target);
    }

    fn store_version(&mut self, key: VersionKey, version: Version)
        requires
            old(self).wf(),
        ensures
            final(self).wf(),
            final(self).named() == old(self).named(),
            final(self).stored() == store(old(self).stored(), key, version),
    {
        proof {
            lemma_store(self.versions@, key, version);
        }
        match self.find_key(key) {
            Some(i) => {
                self.versions.set(i, (key, version));
            },
            None => {
                self.versions.push((key, version));
            },
        }
    }

    /// Records a freshly fetched version. When no version was stored under
    /// its key, or a different one was, the version is stored, `latest` is
    /// pointed at it, and its key is returned; otherwise nothing changes.
    pub fn update(&mut self, version: Version) -> (out: Option<VersionKey>)
        requires
            old(self).wf(),
        ensures
            final(self).wf(),
            changes(old(self).stored(), version) ==> out == Some(version_key(version)) && final(self).stored()
                == store(old(self).stored(), version_key(version), version) && final(self).named() == set_name(
                old(self).named(),
                latest_tag(),
                version_key(version),
            ),
            !changes(old(self).stored(), version) ==> out is None && final(self).stored() == old(self).stored()
                && final(self).named() == old(self).named(),
    {
        let key = VersionKey::from_version(&version);
        let changed = match self.find_key(key) {
            None => true,
            Some(i) => !same_version(&self.versions[i].1, &version),
        };
        if !changed {
            return None;
        }
        self.store_version(key, version);
        self.set_name_entry(latest_tag_str().to_owned(), key);
        Some(key)
    }

    /// Loads versions and names read back from disk: each version is stored
    /// under its key in turn, then each name whose key is stored points at
    /// it. Names of unknown keys are dropped. The message lists every stored
    /// key.
    pub fn hydrate(
        &mut self,
        loaded_versions: Vec<(VersionKey, Version)>,
        loaded_names: Vec<(String, VersionKey)>,
    ) -> (out: VersionMessage)
        requires
            old(self).wf(),
        ensures
            final(self).wf(),
            final(self).stored() == store_all(old(self).stored(), loaded_versions@),
            final(self).named() == name_all(old(self).named(), names_model(loaded_names@), final(self).stored()),
            out matches VersionMessage::Hydrate(keys) && keys@ == keys_of(final(self).stored()),
    {
        let ghost v0 = self.versions@;
        let mut incoming = loaded_versions;
        let ghost all = incoming@;
        let total = incoming.len();
        let mut i: usize = 0;
        while incoming.len() > 0
            invariant
                i + incoming@.len() == all.len(),
                all.len() == total,
                incoming@ == all.skip(i as int),
                self.wf(),
                self.named() == old(self).named(),
                self.stored() == store_all(v0, all.take(i as int)),
                v0 == old(self).stored(),
            decreases incoming@.len(),
        {
            let (key, version) = incoming.remove(0);
            assert(incoming@ =~= all.skip(i + 1));
            assert(all.take(i + 1).drop_last() =~= all.take(i as int));
            assert(all.take(i + 1).last() == (key, version));
            self.store_version(key, version);
            i = i + 1;
        }
        assert(all.take(all.len() as int) =~= all);
        let ghost n0 = names_model(self.names@);
        let ghost stored = self.versions@;
        let mut names_in = loaded_names;
        let ghost all_names = names_model(names_in@);
        let total_names = names_in.len();
        let mut j: usize = 0;
        while names_in.len() > 0
            invariant
                j + names_in@.len() == all_names.len(),
                all_names.len() == total_names,
                names_model(names_in@) == all_names.skip(j as int),
                self.wf(),
                self.stored() == stored,
                self.named() == name_all(n0, all_names.take(j as int), stored),
            decreases names_in@.len(),
        {
            let ghost before_in = names_in@;
            let (name, key) = names_in.remove(0);
            assert(names_model(names_in@) =~= names_model(before_in).drop_first());
            assert(names_model(before_in)[0] == (name@, key));
            assert(all_names.skip(j as int).drop_first() =~= all_names.skip(j + 1));
            assert(all_names.take(j + 1).drop_last() =~= all_names.take(j as int));
            assert(all_names.take(j + 1).last() == (name@, key));
            if self.find_key(key).is_some() {
                self.set_name_entry(name, key);
            }
            j = j + 1;
        }
        assert(all_names.take(all_names.len() as int) =~= all_names);
        VersionMessage::Hydrate(self.keys())
    }
}

// ---------------------------------------------------------------------------
// Laws.
// ---------------------------------------------------------------------------

/// After the names of a key are set, each new name points at that key, a
/// name that pointed at the key and is not among the new names points at
/// nothing, and every other name points where it pointed before.
pub proof fn lemma_set_names_resolve(named: Seq<(Seq<char>, VersionKey)>, key: VersionKey, new_names: Seq<Seq<char>>)
    requires
        unique_names(named),
    ensures
        forall|n: Seq<char>|
            #[trigger] resolve_name(set_all(without_key(named, key), new_names, key), n) == if new_names.contains(
                n,
            ) {
                Some(key)
            } else if resolve_name(named, n) == Some(key) {
                None
            } else {
                resolve_name(named, n)
            },
{
    lemma_without_key(named, key);
    lemma_set_all(without_key(named, key), new_names, key);
}

/// A version that an update stored is found under its key, and `latest`
/// points at it.
pub proof fn lemma_update_stores(
    stored: Seq<(VersionKey, Version)>,
    named: Seq<(Seq<char>, VersionKey)>,
    version: Version,
)
    requires
        unique_keys(stored),
        unique_names(named),
    ensures
        ({
            let key = version_key(version);
            let after = store(stored, key, version);
            &&& key_index(after, key) matches Some(i) && after[i].1 == version
            &&& resolve_name(set_name(named, latest_tag(), key), latest_tag()) == Some(key)
        }),
{
    lemma_store(stored, version_key(version), version);
    lemma_set_name(named, latest_tag(), version_key(version));
}

/// Updating with a version that holds the same repositories and patches as
/// the one just stored changes nothing.
pub proof fn lemma_update_idempotent(stored: Seq<(VersionKey, Version)>, first: Version, second: Version)
    requires
        unique_keys(stored),
        first.model() == second.model(),
        version_key(first) == version_key(second),
    ensures
        !changes(store(stored, version_key(first), first), second),
{
    lemma_store(stored, version_key(first), first);
}

/// After loading, a name points either where it pointed before or at a key
/// under which a version is stored.
pub proof fn lemma_hydrate_names_known(
    named: Seq<(Seq<char>, VersionKey)>,
    loaded: Seq<(Seq<char>, VersionKey)>,
    stored: Seq<(VersionKey, Version)>,
)
    requires
        unique_names(named),
    ensures
        unique_names(name_all(named, loaded, stored)),
        forall|n: Seq<char>|
            #[trigger] resolve_name(name_all(named, loaded, stored), n) matches Some(k) ==> resolve_name(named, n)
                == Some(k) || key_index(stored, k) is Some,
    decreases loaded.len(),
{
    if loaded.len() > 0 {
        let p = loaded.drop_last();
        lemma_hydrate_names_known(named, p, stored);
        let earlier = name_all(named, p, stored);
        let last = loaded.last();
        if key_index(stored, last.1) is Some {
            lemma_set_name(earlier, last.0, last.1);
            assert forall|n: Seq<char>|
                #[trigger] resolve_name(name_all(named, loaded, stored), n) matches Some(k) ==> resolve_name(
                    named,
                    n,
                ) == Some(k) || key_index(stored, k) is Some by {
                if n != last.0 {
                    assert(resolve_name(name_all(named, loaded, stored), n) == resolve_name(earlier, n));
                }
            }
        }
    }
}

/// Whether two versions hold the same repositories with the same patches.
pub fn same_version(a: &Version, b: &Version) -> (out: bool)
    ensures
        out == (a.model() == b.model()),
{
    if a.repositories.len() != b.repositories.len() {
        assert(a.model().len() != b.model().len());
        return false;
    }
    let mut i: usize = 0;
    while i < a.repositories.len()
        invariant
            i <= a.repositories@.len(),
            a.repositories@.len() == b.repositories@.len(),
            forall|j: int| 0 <= j < i ==> repository_model(#[trigger] a.repositories@[j]) == repository_model(
                b.repositories@[j],
            ),
        decreases a.repositories@.len() - i,
    {
        if !same_repository(&a.repositories[i], &b.repositories[i]) {
            assert(a.model()[i as int] != b.model()[i as int]);
            return false;
        }
        i = i + 1;
    }
    assert(a.model() =~= b.model());
    true
}

fn same_repository(a: &Repository, b: &Repository) -> (out: bool)
    ensures
        out == (repository_model(*a) == repository_model(*b)),
{
    let ghost pa = patches_of(a.patches).map_values(|p: Patch| patch_model(p));
    let ghost pb = patches_of(b.patches).map_values(|p: Patch| patch_model(p));
    if a.name != b.name {
        return false;
    }
    let n = patches_len(&a.patches);
    if n != patches_len(&b.patches) {
        assert(pa.len() != pb.len());
        return false;
    }
    let mut i: usize = 0;
    while i < n
        invariant
            i <= n,
            n == patches_of(a.patches).len(),
            n == patches_of(b.patches).len(),
            pa == patches_of(a.patches).map_values(|p: Patch| patch_model(p)),
            pb == patches_of(b.patches).map_values(|p: Patch| patch_model(p)),
            forall|j: int| 0 <= j < i ==> pa[j] == pb[j],
        decreases n - i,
    {
        let x = patches_get(&a.patches, i).unwrap();
        let y = patches_get(&b.patches, i).unwrap();
        if x.name != y.name || x.path != y.path {
            assert(pa[i as int] != pb[i as int]);
            return false;
        }
        i = i + 1;
    }
    assert(pa =~= pb);
    true
}

} // verus!
