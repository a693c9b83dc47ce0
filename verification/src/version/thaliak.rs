use vstd::prelude::*;

use vstd::string::StringExecFns;

use crate::claims::{claim_spec, Claim, Claims};
use crate::text::chars_of;

verus! {

/// The query that asks Thaliak for the versions of one repository.
pub struct RepositoryQuery;

/// One patch file of a version, as Thaliak lists it.
#[derive(Debug)]
pub struct RepositoryPatch {
    pub url: String,
    pub size: i64,
}

/// One version of a repository, as Thaliak lists it.
#[derive(Debug)]
pub struct RepositoryVersion {
    pub version_string: String,
    pub is_active: bool,
    pub patches: Vec<RepositoryPatch>,
    /// The version strings of the versions this one applies on top of.
    pub prerequisite_versions: Vec<String>,
}

/// What Thaliak holds of one repository.
#[derive(Debug)]
pub struct RepositoryData {
    pub latest_version: String,
    pub versions: Vec<RepositoryVersion>,
}

/// A patch file to fetch: its version name, where it lives, and its size.
#[derive(Debug)]
pub struct Patch {
    pub name: String,
    pub url: String,
    pub size: u64,
}

/// Failures of the Thaliak provider.
#[derive(Debug)]
pub enum Error {
    /// No patch chain can be built from the requested patch.
    UnresolvablePatch(String),
    /// Any other failure, with its description.
    Failure(String),
}

impl Error {
    /// The message this error is reported with.
    pub fn message(&self) -> (out: String)
        ensures
            out@ == match self {
                Error::UnresolvablePatch(s) => "patch cannot be resolved: "@ + s@,
                Error::Failure(s) => s@,
            },
    {
        match self {
            Error::UnresolvablePatch(s) => {
                let mut out = "patch cannot be resolved: ".to_owned();
                out.append(s.as_str());
                out
            },
            Error::Failure(s) => s.clone(),
        }
    }
}

/// The mathematical value of a patch.
pub struct PatchModel {
    pub name: Seq<char>,
    pub url: Seq<char>,
    pub size: u64,
}

impl Patch {
    pub open spec fn model(self) -> PatchModel {
        PatchModel { name: self.name@, url: self.url@, size: self.size }
    }
}

/// The version that a version string names: the last one listed under it.
pub open spec fn lookup(versions: Seq<RepositoryVersion>, name: Seq<char>, k: int) -> Option<int>
    decreases k,
{
    if k <= 0 {
        None
    } else if versions[k - 1].version_string@ == name {
        Some(k - 1)
    } else {
        lookup(versions, name, k - 1)
    }
}

pub open spec fn find(versions: Seq<RepositoryVersion>, name: Seq<char>) -> Option<int> {
    lookup(versions, name, versions.len() as int)
}

/// Whether `a` comes before `b`, comparing characters in turn; a proper
/// prefix comes first.
pub open spec fn text_less(a: Seq<char>, b: Seq<char>) -> bool
    decreases a.len(),
{
    if b.len() == 0 {
        false
    } else if a.len() == 0 {
        true
    } else if a[0] != b[0] {
        (a[0] as u32) < (b[0] as u32)
    } else {
        text_less(a.drop_first(), b.drop_first())
    }
}

/// A prerequisite that the chain may continue with: one not seen yet whose
/// version is known and active.
pub open spec fn candidate(versions: Seq<RepositoryVersion>, name: Seq<char>, seen: Seq<Seq<char>>) -> Option<int> {
    if seen.contains(name) {
        None
    } else {
        match find(versions, name) {
            Some(j) => if versions[j].is_active {
                Some(j)
            } else {
                None
            },
            None => None,
        }
    }
}

/// Among the first `i` prerequisites, the candidate with the greatest version
/// string; the first such one on ties.
pub open spec fn best(
    versions: Seq<RepositoryVersion>,
    prerequisites: Seq<String>,
    seen: Seq<Seq<char>>,
    i: int,
) -> Option<int>
    decreases i,
{
    if i <= 0 {
        None
    } else {
        let earlier = best(versions, prerequisites, seen, i - 1);
        match candidate(versions, prerequisites[i - 1]@, seen) {
            None => earlier,
            Some(j) => match earlier {
                None => Some(j),
                Some(b) => if text_less(versions[b].version_string@, versions[j].version_string@) {
                    Some(j)
                } else {
                    Some(b)
                },
            },
        }
    }
}

/// The next version of the chain after version `c`, once `seen` holds the
/// names recorded so far (`c`'s among them).
pub open spec fn next_version(versions: Seq<RepositoryVersion>, c: int, seen: Seq<Seq<char>>) -> Option<int> {
    best(versions, versions[c].prerequisite_versions@, seen, versions[c].prerequisite_versions@.len() as int)
}

/// How many listed versions carry a name not in `seen`, among the first `k`.
pub open spec fn unseen(versions: Seq<RepositoryVersion>, seen: Seq<Seq<char>>, k: int) -> nat
    decreases k,
{
    if k <= 0 {
        0
    } else {
        unseen(versions, seen, k - 1) + if seen.contains(versions[k - 1].version_string@) {
            0nat
        } else {
            1nat
        }
    }
}

pub proof fn lemma_unseen_push(versions: Seq<RepositoryVersion>, seen: Seq<Seq<char>>, c: int, k: int)
    requires
        0 <= c < versions.len(),
        0 <= k <= versions.len(),
        !seen.contains(versions[c].version_string@),
    ensures
        unseen(versions, seen.push(versions[c].version_string@), k) <= unseen(versions, seen, k),
        k > c ==> unseen(versions, seen.push(versions[c].version_string@), k) < unseen(versions, seen, k),
    decreases k,
{
    let x = versions[c].version_string@;
    if k > 0 {
        lemma_unseen_push(versions, seen, c, k - 1);
        let n = versions[k - 1].version_string@;
        if seen.push(x).contains(n) && !seen.contains(n) {
            assert(n == x) by {
                let i = choose|i: int| 0 <= i < seen.push(x).len() && seen.push(x)[i] == n;
                if i < seen.len() {
                    assert(seen[i] == n);
                }
            }
        }
        if seen.contains(n) {
            let i = choose|i: int| 0 <= i < seen.len() && seen[i] == n;
            assert(seen.push(x)[i] == n);
        }
        if k - 1 == c {
            assert(seen.push(x)[seen.len() as int] == x);
        }
    }
}

/// The chain of patches from version `c` down to the oldest one, latest
/// first; `None` where a version does not have exactly one patch file of a
/// size that is not negative, which the code does not handle.
pub open spec fn chain(versions: Seq<RepositoryVersion>, c: int, seen: Seq<Seq<char>>) -> Option<Seq<PatchModel>>
    decreases unseen(versions, seen, versions.len() as int),
{
    if !(0 <= c < versions.len()) || seen.contains(versions[c].version_string@) {
        Some(Seq::empty())
    } else {
        let v = versions[c];
        if v.patches@.len() != 1 || v.patches@[0].size < 0 {
            None
        } else {
            let p = PatchModel { name: v.version_string@, url: v.patches@[0].url@, size: v.patches@[0].size as u64 };
            let seen2 = seen.push(v.version_string@);
            match next_version(versions, c, seen2) {
                None => Some(seq![p]),
                Some(j) => {
                    proof {
                        lemma_unseen_push(versions, seen, c, versions.len() as int);
                    }
                    match chain(versions, j, seen2) {
                        None => None,
                        Some(rest) => Some(seq![p] + rest),
                    }
                },
            }
        }
    }
}

/// The patch files that lead up to the version named `patch`, oldest first;
/// `None` for the chains that `chain` leaves out.
pub open spec fn patch_list_spec(versions: Seq<RepositoryVersion>, patch: Seq<char>) -> Option<
    Result<Seq<PatchModel>, Seq<char>>,
> {
    match find(versions, patch) {
        Some(c) if versions[c].is_active => match chain(versions, c, Seq::empty()) {
            None => None,
            Some(patches) => Some(Ok(patches.reverse())),
        },
        _ => Some(Err("patch \""@ + patch + "\" is inactive"@)),
    }
}

/// The names of a chain are new: none of them is in `seen`, none comes
/// twice, and the chain starts with the version it starts from.
proof fn lemma_chain_names(versions: Seq<RepositoryVersion>, c: int, seen: Seq<Seq<char>>)
    ensures
        chain(versions, c, seen) matches Some(l) ==> {
            &&& forall|i: int| 0 <= i < l.len() ==> !seen.contains(#[trigger] l[i].name)
            &&& forall|i: int, j: int| 0 <= i < j < l.len() ==> #[trigger] l[i].name != #[trigger] l[j].name
            &&& (0 <= c < versions.len() && !seen.contains(versions[c].version_string@)) ==> l.len() > 0
                && l[0].name == versions[c].version_string@
        },
    decreases unseen(versions, seen, versions.len() as int),
{
    if 0 <= c < versions.len() && !seen.contains(versions[c].version_string@) {
        let v = versions[c];
        if !(v.patches@.len() != 1 || v.patches@[0].size < 0) {
            let x = v.version_string@;
            let seen2 = seen.push(x);
            match next_version(versions, c, seen2) {
                None => {},
                Some(j) => {
                    lemma_unseen_push(versions, seen, c, versions.len() as int);
                    lemma_chain_names(versions, j, seen2);
                    match chain(versions, j, seen2) {
                        None => {},
                        Some(rest) => {
                            let p = PatchModel {
                                name: x,
                                url: v.patches@[0].url@,
                                size: v.patches@[0].size as u64,
                            };
                            let l = seq![p] + rest;
                            assert(chain(versions, c, seen) == Some(l));
                            assert forall|i: int| 0 <= i < rest.len() implies !seen.contains(
                                #[trigger] rest[i].name,
                            ) && rest[i].name != x by {
                                if seen.contains(rest[i].name) {
                                    let k = choose|k: int| 0 <= k < seen.len() && seen[k] == rest[i].name;
                                    assert(seen2[k] == rest[i].name);
                                }
                                assert(seen2[seen.len() as int] == x);
                            }
                            assert forall|i: int| 0 <= i < l.len() implies !seen.contains(#[trigger] l[i].name) by {
                                if i > 0 {
                                    assert(l[i] == rest[i - 1]);
                                }
                            }
                            assert forall|i: int, k: int| 0 <= i < k < l.len() implies #[trigger] l[i].name
                                != #[trigger] l[k].name by {
                                assert(l[k] == rest[k - 1]);
                                if i > 0 {
                                    assert(l[i] == rest[i - 1]);
                                }
                            }
                        },
                    }
                },
            }
        }
    }
}

/// A resolved patch list runs from the oldest patch up to the requested one,
/// and names no patch twice: following prerequisites never loops.
pub proof fn lemma_patch_list_shape(versions: Seq<RepositoryVersion>, patch: Seq<char>)
    ensures
        patch_list_spec(versions, patch) matches Some(Ok(list)) ==> {
            &&& list.len() > 0
            &&& list.last().name == patch
            &&& forall|i: int, j: int| 0 <= i < j < list.len() ==> #[trigger] list[i].name != #[trigger] list[j].name
        },
{
    lemma_lookup(versions, patch, versions.len() as int);
    match find(versions, patch) {
        Some(c) => {
            if versions[c].is_active {
                lemma_chain_names(versions, c, Seq::empty());
                match chain(versions, c, Seq::empty()) {
                    None => {},
                    Some(l) => {
                        let list = l.reverse();
                        assert(list.last() == l[0]);
                        assert forall|i: int, j: int| 0 <= i < j < list.len() implies #[trigger] list[i].name
                            != #[trigger] list[j].name by {
                            assert(list[i] == l[l.len() - 1 - i]);
                            assert(list[j] == l[l.len() - 1 - j]);
                        }
                    },
                }
            }
        },
        None => {},
    }
}

pub open spec fn names(patches: Seq<Patch>) -> Seq<Seq<char>> {
    patches.map_values(|p: Patch| p.name@)
}

pub open spec fn models(patches: Seq<Patch>) -> Seq<PatchModel> {
    patches.map_values(|p: Patch| p.model())
}

proof fn lemma_lookup(versions: Seq<RepositoryVersion>, name: Seq<char>, k: int)
    requires
        0 <= k <= versions.len(),
    ensures
        lookup(versions, name, k) matches Some(j) ==> 0 <= j < k && versions[j].version_string@ == name,
    decreases k,
{
    if k > 0 && versions[k - 1].version_string@ != name {
        lemma_lookup(versions, name, k - 1);
    }
}

fn find_version(versions: &Vec<RepositoryVersion>, name: &String) -> (out: Option<usize>)
    ensures
        match out {
            Some(j) => find(versions@, name@) == Some(j as int),
            None => find(versions@, name@) is None,
        },
{
    let mut k = versions.len();
    while k > 0
        invariant
            k <= versions@.len(),
            find(versions@, name@) == lookup(versions@, name@, k as int),
        decreases k,
    {
        if versions[k - 1].version_string == *name {
            return Some(k - 1);
        }
        k = k - 1;
    }
    None
}

proof fn lemma_text_less_skip(a: Seq<char>, b: Seq<char>, i: int)
    requires
        0 <= i <= a.len(),
        i <= b.len(),
        forall|j: int| 0 <= j < i ==> a[j] == b[j],
    ensures
        text_less(a, b) == text_less(a.skip(i), b.skip(i)),
    decreases i,
{
    if i > 0 {
        assert(a[0] == b[0]);
        lemma_text_less_skip(a.drop_first(), b.drop_first(), i - 1);
        assert(a.drop_first().skip(i - 1) =~= a.skip(i));
        assert(b.drop_first().skip(i - 1) =~= b.skip(i));
    } else {
        assert(a.skip(0) =~= a);
        assert(b.skip(0) =~= b);
    }
}

/// Whether `a` comes before `b` in the order of their characters.
pub fn text_less_than(a: &String, b: &String) -> (out: bool)
    ensures
        out == text_less(a@, b@),
{
    let ac = chars_of(a.as_str());
    let bc = chars_of(b.as_str());
    let mut i: usize = 0;
    while i < ac.len() && i < bc.len() && ac[i] == bc[i]
        invariant
            i <= ac@.len(),
            i <= bc@.len(),
            ac@ == a@,
            bc@ == b@,
            forall|j: int| 0 <= j < i ==> ac@[j] == bc@[j],
        decreases ac@.len() - i,
    {
        i = i + 1;
    }
    proof {
        lemma_text_less_skip(ac@, bc@, i as int);
    }
    if i == bc.len() {
        false
    } else if i == ac.len() {
        true
    } else {
        (ac[i] as u32) < (bc[i] as u32)
    }
}

fn contains_name(patches: &Vec<Patch>, name: &String) -> (out: bool)
    ensures
        out == names(patches@).contains(name@),
{
    let mut i: usize = 0;
    while i < patches.len()
        invariant
            i <= patches@.len(),
            forall|j: int| 0 <= j < i ==> patches@[j].name@ != name@,
        decreases patches@.len() - i,
    {
        if patches[i].name == *name {
            assert(names(patches@)[i as int] == name@);
            return true;
        }
        i = i + 1;
    }
    assert forall|j: int| 0 <= j < names(patches@).len() implies names(patches@)[j] != name@ by {
        assert(names(patches@)[j] == patches@[j].name@);
    }
    false
}

proof fn lemma_best_range(versions: Seq<RepositoryVersion>, prerequisites: Seq<String>, seen: Seq<Seq<char>>, i: int)
    ensures
        best(versions, prerequisites, seen, i) matches Some(j) ==> 0 <= j < versions.len() && !seen.contains(
            versions[j].version_string@,
        ),
    decreases i,
{
    if i > 0 {
        lemma_best_range(versions, prerequisites, seen, i - 1);
        let name = prerequisites[i - 1]@;
        lemma_lookup(versions, name, versions.len() as int);
    }
}

fn next_version_index(versions: &Vec<RepositoryVersion>, c: usize, patches: &Vec<Patch>) -> (out: Option<usize>)
    requires
        c < versions@.len(),
    ensures
        match out {
            Some(j) => next_version(versions@, c as int, names(patches@)) == Some(j as int),
            None => next_version(versions@, c as int, names(patches@)) is None,
        },
{
    let prerequisites = &versions[c].prerequisite_versions;
    let ghost seen = names(patches@);
    let mut chosen: Option<usize> = None;
    let mut i: usize = 0;
    while i < prerequisites.len()
        invariant
            i <= prerequisites@.len(),
            *prerequisites == versions@[c as int].prerequisite_versions,
            seen == names(patches@),
            match chosen {
                Some(j) => best(versions@, prerequisites@, seen, i as int) == Some(j as int),
                None => best(versions@, prerequisites@, seen, i as int) is None,
            },
        decreases prerequisites@.len() - i,
    {
        let name = &prerequisites[i];
        proof {
            lemma_best_range(versions@, prerequisites@, seen, i as int);
            lemma_lookup(versions@, name@, versions@.len() as int);
        }
        if !contains_name(patches, name) {
            match find_version(versions, name) {
                Some(j) => {
                    if versions[j].is_active {
                        chosen = match chosen {
                            None => Some(j),
                            Some(b) => if text_less_than(&versions[b].version_string, &versions[j].version_string) {
                                Some(j)
                            } else {
                                Some(b)
                            },
                        };
                    }
                },
                None => {},
            }
        }
        i = i + 1;
    }
    chosen
}

/// The patch files that lead up to the version named `patch`, oldest first.
///
/// The chain starts at that version and goes, from each version, to the
/// prerequisite that is active, not yet in the chain, and greatest by version
/// string. The requested version must be known and active.
pub fn patch_list(versions: &Vec<RepositoryVersion>, patch: &str) -> (out: Result<Vec<Patch>, Error>)
    requires
        patch_list_spec(versions@, patch@) is Some,
    ensures
        match patch_list_spec(versions@, patch@)->Some_0 {
            Ok(ps) => out matches Ok(v) && models(v@) == ps,
            Err(message) => out matches Err(Error::UnresolvablePatch(m)) && m@ == message,
        },
{
    let name = patch.to_owned();
    let start = find_version(versions, &name);
    proof {
        lemma_lookup(versions@, name@, versions@.len() as int);
    }
    let c = match start {
        Some(c) if versions[c].is_active => c,
        _ => {
            let mut message = "patch \"".to_owned();
            message.append(patch);
            message.append("\" is inactive");
            return Err(Error::UnresolvablePatch(message));
        },
    };
    let ghost full = chain(versions@, c as int, Seq::empty())->Some_0;
    let mut patches: Vec<Patch> = Vec::new();
    let mut current: usize = c;
    proof {
        assert(names(patches@) =~= Seq::<Seq<char>>::empty());
        assert(models(patches@) + full =~= full);
    }
    loop
        invariant_except_break
            current < versions@.len(),
            !names(patches@).contains(versions@[current as int].version_string@),
            chain(versions@, current as int, names(patches@)) matches Some(rest) && full == models(patches@)
                + rest,
        ensures
            full == models(patches@),
        decreases unseen(versions@, names(patches@), versions@.len() as int),
    {
        let v = &versions[current];
        let ghost seen = names(patches@);
        let ghost rest = chain(versions@, current as int, seen)->Some_0;
        let p = Patch {
            name: v.version_string.clone(),
            url: v.patches[0].url.clone(),
            size: v.patches[0].size as u64,
        };
        let ghost before = patches@;
        patches.push(p);
        proof {
            assert(names(patches@) =~= seen.push(v.version_string@));
            assert(models(patches@) =~= models(before).push(p.model()));
            lemma_unseen_push(versions@, seen, current as int, versions@.len() as int);
        }
        match next_version_index(versions, current, &patches) {
            None => {
                proof {
                    assert(rest == seq![p.model()]);
                    assert(full =~= models(patches@));
                }
                break;
            },
            Some(j) => {
                proof {
                    lemma_best_range(
                        versions@,
                        v.prerequisite_versions@,
                        names(patches@),
                        v.prerequisite_versions@.len() as int,
                    );
                    let rest2 = chain(versions@, j as int, names(patches@))->Some_0;
                    assert(rest == seq![p.model()] + rest2);
                    assert(full =~= models(patches@) + rest2);
                }
                current = j;
            },
        }
    }
    // Oldest first.
    let mut out: Vec<Patch> = Vec::new();
    let ghost all = patches@;
    while patches.len() > 0
        invariant
            all.len() >= patches@.len(),
            patches@ == all.take(patches@.len() as int),
            models(out@) == models(all).reverse().take(all.len() - patches@.len()),
        decreases patches@.len(),
    {
        let ghost before = out@;
        let ghost n = patches@.len();
        let p = patches.pop().unwrap();
        out.push(p);
        proof {
            assert(p == all[n - 1]);
            assert(patches@ =~= all.take(n - 1));
            assert(models(out@) =~= models(before).push(p.model()));
            assert(models(all).reverse().take(all.len() - (n - 1)) =~= models(all).reverse().take(
                all.len() - n,
            ).push(p.model()));
        }
    }
    proof {
        assert(models(all).reverse().take(all.len() as int) =~= models(all).reverse());
    }
    Ok(out)
}

/// The latest version string of each repository, in order.
pub fn latest_versions(repositories: &Vec<RepositoryData>) -> (out: Vec<String>)
    ensures
        out@.len() == repositories@.len(),
        forall|i: int| 0 <= i < out@.len() ==> #[trigger] out@[i]@ == repositories@[i].latest_version@,
{
    let mut out: Vec<String> = Vec::new();
    let mut i: usize = 0;
    while i < repositories.len()
        invariant
            i <= repositories@.len(),
            out@.len() == i,
            forall|j: int| 0 <= j < i ==> #[trigger] out@[j]@ == repositories@[j].latest_version@,
        decreases repositories@.len() - i,
    {
        out.push(repositories[i].latest_version.clone());
        i = i + 1;
    }
    out
}

/// The step a request for a repository's data takes, against the data
/// cached so far: a request that bypasses the cache drops what it holds for
/// the repository first, so that the data is fetched afresh.
pub fn repository_step(cache: &mut Claims<RepositoryData>, repository: &str, bypass_cache: bool) -> (out: Claim)
    requires
        old(cache).wf(),
    ensures
        final(cache).wf(),
        (out, final(cache).states()) == claim_spec(
            if bypass_cache {
                old(cache).states().remove(repository@)
            } else {
                old(cache).states()
            },
            repository@,
        ),
        bypass_cache ==> out == Claim::Fetch,
{
    if bypass_cache {
        cache.forget(repository);
    }
    cache.claim(repository)
}

} // verus!
