use vstd::prelude::*;

use crate::text::{chars_of, split_at_commas, split_commas, string_from_chars, strings_view};
use crate::version::registry::{key_index, keys_of, names_for, strings_model, Registry};
use crate::version::{patches_get, patches_len, patches_of, Patch, Version, VersionKey};
use vstd::string::StringExecFns;

verus! {

// ---------------------------------------------------------------------------
// Names entered on the admin form.
// ---------------------------------------------------------------------------

/// Whether a character is white space, as `char::is_whitespace` has it (the
/// Unicode `White_Space` property).
pub open spec fn is_whitespace(c: char) -> bool {
    ('\u{9}' <= c <= '\u{d}') || c == ' ' || c == '\u{85}' || c == '\u{a0}' || c == '\u{1680}' || ('\u{2000}'
        <= c <= '\u{200a}') || c == '\u{2028}' || c == '\u{2029}' || c == '\u{202f}' || c == '\u{205f}' || c
        == '\u{3000}'
}

pub fn whitespace(c: char) -> (out: bool)
    ensures
        out == is_whitespace(c),
{
    ('\u{9}' <= c && c <= '\u{d}') || c == ' ' || c == '\u{85}' || c == '\u{a0}' || c == '\u{1680}' || ('\u{2000}'
        <= c && c <= '\u{200a}') || c == '\u{2028}' || c == '\u{2029}' || c == '\u{202f}' || c == '\u{205f}' || c
        == '\u{3000}'
}

pub open spec fn trim_start(s: Seq<char>) -> Seq<char>
    decreases s.len(),
{
    if s.len() > 0 && is_whitespace(s[0]) {
        trim_start(s.drop_first())
    } else {
        s
    }
}

pub open spec fn trim_end(s: Seq<char>) -> Seq<char>
    decreases s.len(),
{
    if s.len() > 0 && is_whitespace(s.last()) {
        trim_end(s.drop_last())
    } else {
        s
    }
}

/// Text without leading and trailing white space.
pub open spec fn trim(s: Seq<char>) -> Seq<char> {
    trim_end(trim_start(s))
}

proof fn lemma_trim_start(s: Seq<char>, i: int)
    requires
        0 <= i <= s.len(),
        forall|j: int| 0 <= j < i ==> is_whitespace(s[j]),
    ensures
        trim_start(s) == trim_start(s.skip(i)),
    decreases i,
{
    if i > 0 {
        lemma_trim_start(s.drop_first(), i - 1);
        assert(s.drop_first().skip(i - 1) =~= s.skip(i));
    } else {
        assert(s.skip(0) =~= s);
    }
}

proof fn lemma_trim_end(s: Seq<char>, j: int)
    requires
        0 <= j <= s.len(),
        forall|k: int| j <= k < s.len() ==> is_whitespace(s[k]),
    ensures
        trim_end(s) == trim_end(s.take(j)),
    decreases s.len() - j,
{
    if j < s.len() {
        lemma_trim_end(s.drop_last(), j);
        assert(s.drop_last().take(j) =~= s.take(j));
    } else {
        assert(s.take(j) =~= s);
    }
}

/// Removes leading and trailing white space.
pub fn trim_text(text: &str) -> (out: String)
    ensures
        out@ == trim(text@),
{
    let cs = chars_of(text);
    let mut i: usize = 0;
    while i < cs.len() && whitespace(cs[i])
        invariant
            i <= cs@.len(),
            forall|j: int| 0 <= j < i ==> is_whitespace(cs@[j]),
        decreases cs@.len() - i,
    {
        i = i + 1;
    }
    let mut j: usize = cs.len();
    while j > i && whitespace(cs[j - 1])
        invariant
            i <= j <= cs@.len(),
            forall|k: int| j <= k < cs@.len() ==> is_whitespace(cs@[k]),
        decreases j,
    {
        j = j - 1;
    }
    proof {
        lemma_trim_start(cs@, i as int);
        let rest = cs@.skip(i as int);
        assert(trim_start(rest) == rest);
        assert forall|k: int| j - i <= k < rest.len() implies is_whitespace(rest[k]) by {
            assert(rest[k] == cs@[i + k]);
        }
        lemma_trim_end(rest, j - i);
        assert(rest.take(j - i) =~= cs@.subrange(i as int, j as int));
        let kept = rest.take(j - i);
        if kept.len() > 0 {
            assert(kept.last() == cs@[j - 1]);
        }
    }
    string_from_chars(&cs, i, j)
}

/// The names entered on the admin form: the comma-separated pieces, trimmed.
pub open spec fn form_names(text: Seq<char>) -> Seq<Seq<char>> {
    split_commas(text).map_values(|piece: Seq<char>| trim(piece))
}

/// Reads the names entered on the admin form.
pub fn parse_names(text: &str) -> (out: Vec<String>)
    ensures
        strings_model(out@) == form_names(text@),
{
    let pieces = split_at_commas(text);
    let ghost target = form_names(text@);
    let mut out: Vec<String> = Vec::new();
    let mut i: usize = 0;
    while i < pieces.len()
        invariant
            i <= pieces@.len(),
            strings_view(pieces@) == split_commas(text@),
            target == form_names(text@),
            strings_model(out@) == target.take(i as int),
        decreases pieces@.len() - i,
    {
        let name = trim_text(pieces[i].as_str());
        let ghost before = out@;
        out.push(name);
        proof {
            assert(strings_view(pieces@)[i as int] == pieces@[i as int]@);
            assert(strings_model(out@) =~= strings_model(before).push(name@));
            assert(target.take(i + 1) =~= target.take(i as int).push(trim(pieces@[i as int]@)));
        }
        i = i + 1;
    }
    assert(target.take(pieces@.len() as int) =~= target);
    out
}

/// The names, separated by commas, as the admin pages list them.
pub open spec fn joined(names: Seq<Seq<char>>) -> Seq<char>
    decreases names.len(),
{
    if names.len() == 0 {
        Seq::empty()
    } else if names.len() == 1 {
        names[0]
    } else {
        joined(names.drop_last()) + ", "@ + names.last()
    }
}

/// Joins names with `, `.
pub fn join_names(names: &Vec<String>) -> (out: String)
    ensures
        out@ == joined(strings_model(names@)),
{
    let ghost m = strings_model(names@);
    let mut out = String::new();
    let mut i: usize = 0;
    while i < names.len()
        invariant
            i <= names@.len(),
            m == strings_model(names@),
            out@ == joined(m.take(i as int)),
        decreases names@.len() - i,
    {
        assert(m.take(i + 1).drop_last() =~= m.take(i as int));
        assert(m.take(i + 1).last() == names@[i as int]@);
        if i > 0 {
            out.append(", ");
        } else {
            assert(m.take(1) =~= seq![names@[0]@]);
        }
        out.append(names[i].as_str());
        i = i + 1;
    }
    assert(m.take(names@.len() as int) =~= m);
    out
}

// ---------------------------------------------------------------------------
// The page of one version.
// ---------------------------------------------------------------------------

/// The names of a repository's patches, newest first.
pub open spec fn newest_first(patches: Seq<Patch>) -> Seq<Seq<char>> {
    patches.reverse().map_values(|p: Patch| p.name@)
}

/// Each repository of a version with its patch names, newest first, as the
/// version page lists them.
pub fn patch_lists(version: &Version) -> (out: Vec<(String, Vec<String>)>)
    ensures
        out@.len() == version.repositories@.len(),
        forall|i: int|
            0 <= i < out@.len() ==> (#[trigger] out@[i]).0@ == version.repositories@[i].name@ && strings_model(
                out@[i].1@,
            ) == newest_first(patches_of(version.repositories@[i].patches)),
{
    let mut out: Vec<(String, Vec<String>)> = Vec::new();
    let mut i: usize = 0;
    while i < version.repositories.len()
        invariant
            i <= version.repositories@.len(),
            out@.len() == i,
            forall|k: int|
                0 <= k < i ==> (#[trigger] out@[k]).0@ == version.repositories@[k].name@ && strings_model(
                    out@[k].1@,
                ) == newest_first(patches_of(version.repositories@[k].patches)),
        decreases version.repositories@.len() - i,
    {
        let repository = &version.repositories[i];
        let ghost ps = patches_of(repository.patches);
        let n = patches_len(&repository.patches);
        let mut names: Vec<String> = Vec::new();
        let mut k = n;
        while k > 0
            invariant
                k <= n,
                n == ps.len(),
                ps == patches_of(repository.patches),
                strings_model(names@) == newest_first(ps).take(n - k),
            decreases k,
        {
            let p = patches_get(&repository.patches, k - 1).unwrap();
            let ghost before = names@;
            names.push(p.name.clone());
            proof {
                assert(strings_model(names@) =~= strings_model(before).push(ps[k - 1].name@));
                assert(newest_first(ps).take(n - k + 1) =~= newest_first(ps).take(n - k).push(ps[k - 1].name@));
            }
            k = k - 1;
        }
        assert(newest_first(ps).take(n as int) =~= newest_first(ps));
        out.push((repository.name.clone(), names));
        i = i + 1;
    }
    out
}

// ---------------------------------------------------------------------------
// Patch files that only one version uses.
// ---------------------------------------------------------------------------

/// The paths of a version's patch files, repository by repository.
pub open spec fn version_paths(version: Version) -> Seq<Seq<char>> {
    paths_of(version.repositories@)
}

pub open spec fn paths_of(repositories: Seq<crate::version::Repository>) -> Seq<Seq<char>>
    decreases repositories.len(),
{
    if repositories.len() == 0 {
        Seq::empty()
    } else {
        paths_of(repositories.drop_last()) + patches_of(repositories.last().patches).map_values(|p: Patch| p.path@)
    }
}

/// The paths used by the stored versions other than the one under `target`.
pub open spec fn other_paths(stored: Seq<(VersionKey, Version)>, target: VersionKey) -> Seq<Seq<char>>
    decreases stored.len(),
{
    if stored.len() == 0 {
        Seq::empty()
    } else if stored.last().0 == target {
        other_paths(stored.drop_last(), target)
    } else {
        other_paths(stored.drop_last(), target) + version_paths(stored.last().1)
    }
}

/// `paths` without those in `used`, each kept once, at its first place.
pub open spec fn unshared(paths: Seq<Seq<char>>, used: Seq<Seq<char>>) -> Seq<Seq<char>>
    decreases paths.len(),
{
    if paths.len() == 0 {
        Seq::empty()
    } else {
        let earlier = unshared(paths.drop_last(), used);
        if used.contains(paths.last()) || earlier.contains(paths.last()) {
            earlier
        } else {
            earlier.push(paths.last())
        }
    }
}

fn push_version_paths(out: &mut Vec<String>, version: &Version)
    ensures
        strings_model(final(out)@) == strings_model(old(out)@) + version_paths(*version),
{
    let ghost start = strings_model(out@);
    let mut i: usize = 0;
    while i < version.repositories.len()
        invariant
            i <= version.repositories@.len(),
            strings_model(out@) == start + paths_of(version.repositories@.take(i as int)),
        decreases version.repositories@.len() - i,
    {
        let repository = &version.repositories[i];
        let ghost ps = patches_of(repository.patches).map_values(|p: Patch| p.path@);
        let ghost mid = strings_model(out@);
        let n = patches_len(&repository.patches);
        let mut k: usize = 0;
        while k < n
            invariant
                k <= n,
                n == ps.len(),
                ps == patches_of(repository.patches).map_values(|p: Patch| p.path@),
                strings_model(out@) == mid + ps.take(k as int),
            decreases n - k,
        {
            let p = patches_get(&repository.patches, k).unwrap();
            let ghost before = out@;
            out.push(p.path.clone());
            proof {
                assert(strings_model(out@) =~= strings_model(before).push(p.path@));
                assert(ps.take(k + 1) =~= ps.take(k as int).push(p.path@));
            }
            k = k + 1;
        }
        proof {
            assert(ps.take(n as int) =~= ps);
            assert(version.repositories@.take(i + 1).drop_last() =~= version.repositories@.take(i as int));
            assert(version.repositories@.take(i + 1).last() == *repository);
        }
        i = i + 1;
    }
    assert(version.repositories@.take(version.repositories@.len() as int) =~= version.repositories@);
}

fn contains_text(list: &Vec<String>, text: &String) -> (out: bool)
    ensures
        out == strings_model(list@).contains(text@),
{
    let mut i: usize = 0;
    while i < list.len()
        invariant
            i <= list@.len(),
            forall|j: int| 0 <= j < i ==> list@[j]@ != text@,
        decreases list@.len() - i,
    {
        if list[i] == *text {
            assert(strings_model(list@)[i as int] == text@);
            return true;
        }
        i = i + 1;
    }
    assert forall|j: int| 0 <= j < strings_model(list@).len() implies strings_model(list@)[j] != text@ by {
        assert(strings_model(list@)[j] == list@[j]@);
    }
    false
}

/// The patch files that only the version under `target` uses: none when no
/// version is stored under it.
pub fn orphaned_paths(registry: &Registry, target: VersionKey) -> (out: Option<Vec<String>>)
    requires
        registry.wf(),
    ensures
        match key_index(registry.stored(), target) {
            None => out is None,
            Some(i) => out matches Some(v) && strings_model(v@) == unshared(
                version_paths(registry.stored()[i].1),
                other_paths(registry.stored(), target),
            ),
        },
{
    let target_version = match registry.version(target) {
        None => return None,
        Some(v) => v,
    };
    let mut own: Vec<String> = Vec::new();
    push_version_paths(&mut own, target_version);
    assert(strings_model(own@) =~= Seq::<Seq<char>>::empty() + version_paths(*target_version));
    let keys = registry.keys();
    let ghost stored = registry.stored();
    let mut used: Vec<String> = Vec::new();
    let mut i: usize = 0;
    assert(strings_model(used@) =~= other_paths(stored.take(0), target));
    while i < keys.len()
        invariant
            i <= keys@.len(),
            keys@ == keys_of(stored),
            stored == registry.stored(),
            registry.wf(),
            strings_model(used@) == other_paths(stored.take(i as int), target),
        decreases keys@.len() - i,
    {
        let key = keys[i];
        assert(stored.take(i + 1).drop_last() =~= stored.take(i as int));
        assert(stored.take(i + 1).last() == stored[i as int]);
        if key != target {
            proof {
                registry.lemma_wf();
                crate::version::registry::lemma_key_index_of(stored, i as int);
            }
            let other = registry.version(key).unwrap();
            push_version_paths(&mut used, other);
        }
        i = i + 1;
    }
    assert(stored.take(stored.len() as int) =~= stored);
    let ghost own_m = strings_model(own@);
    let ghost used_m = strings_model(used@);
    let mut out: Vec<String> = Vec::new();
    let mut k: usize = 0;
    while k < own.len()
        invariant
            k <= own@.len(),
            own_m == strings_model(own@),
            used_m == strings_model(used@),
            strings_model(out@) == unshared(own_m.take(k as int), used_m),
        decreases own@.len() - k,
    {
        assert(own_m.take(k + 1).drop_last() =~= own_m.take(k as int));
        assert(own_m.take(k + 1).last() == own@[k as int]@);
        let path = &own[k];
        if !contains_text(&used, path) && !contains_text(&out, path) {
            let ghost before = out@;
            out.push(path.clone());
            assert(strings_model(out@) =~= strings_model(before).push(path@));
        }
        k = k + 1;
    }
    assert(own_m.take(own@.len() as int) =~= own_m);
    Some(out)
}

/// A path is listed as orphaned exactly when the target version uses it and
/// no other stored version does; none is listed twice.
pub proof fn lemma_unshared(paths: Seq<Seq<char>>, used: Seq<Seq<char>>)
    ensures
        forall|p: Seq<char>| #[trigger] unshared(paths, used).contains(p) <==> paths.contains(p) && !used.contains(p),
        forall|i: int, j: int|
            0 <= i < j < unshared(paths, used).len() ==> unshared(paths, used)[i] != unshared(paths, used)[j],
    decreases paths.len(),
{
    if paths.len() > 0 {
        let p0 = paths.drop_last();
        let x = paths.last();
        lemma_unshared(p0, used);
        let e = unshared(p0, used);
        assert forall|p: Seq<char>| #[trigger] paths.contains(p) <==> p0.contains(p) || p == x by {
            if paths.contains(p) {
                let i = choose|i: int| 0 <= i < paths.len() && paths[i] == p;
                if i < p0.len() {
                    assert(p0[i] == p);
                }
            }
            if p0.contains(p) {
                let i = choose|i: int| 0 <= i < p0.len() && p0[i] == p;
                assert(paths[i] == p);
            }
            if p == x {
                assert(paths[paths.len() - 1] == p);
            }
        }
        if !(used.contains(x) || e.contains(x)) {
            let r = e.push(x);
            assert forall|p: Seq<char>| #[trigger] r.contains(p) <==> e.contains(p) || p == x by {
                if r.contains(p) {
                    let i = choose|i: int| 0 <= i < r.len() && r[i] == p;
                    if i < e.len() {
                        assert(e[i] == p);
                    }
                }
                if e.contains(p) {
                    let i = choose|i: int| 0 <= i < e.len() && e[i] == p;
                    assert(r[i] == p);
                }
                if p == x {
                    assert(r[e.len() as int] == p);
                }
            }
            assert forall|i: int, j: int| 0 <= i < j < r.len() implies r[i] != r[j] by {
                if j == e.len() {
                    assert(e[i] == r[i]);
                    assert(e.contains(r[i]));
                }
            }
        }
    }
}

} // verus!
