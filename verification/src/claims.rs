use vstd::prelude::*;

verus! {

/// What a task that needs the value under a key does next.
#[derive(Debug, Clone, Copy, PartialEq, Eq, Structural)]
pub enum Claim {
    /// The value is available.
    Ready,
    /// Another task is producing the value: wait for it.
    Wait,
    /// No task holds the key yet: this one produces the value, then fills it.
    Fetch,
}

/// The step a task takes for `key`, and the table after it: a key that no
/// task holds becomes pending (`None`), and the task produces its value.
pub open spec fn claim_spec<T>(states: Map<Seq<char>, Option<T>>, key: Seq<char>) -> (
    Claim,
    Map<Seq<char>, Option<T>>,
) {
    match states.get(key) {
        Some(Some(_)) => (Claim::Ready, states),
        Some(None) => (Claim::Wait, states),
        None => (Claim::Fetch, states.insert(key, None)),
    }
}

/// A table of values produced once per key: each key is pending while a
/// task produces its value, and holds the value afterwards.
pub struct Claims<T> {
    entries: Vec<(String, Option<T>)>,
}

pub open spec fn entries_unique<T>(entries: Seq<(String, Option<T>)>) -> bool {
    forall|i: int, j: int|
        0 <= i < entries.len() && 0 <= j < entries.len() && #[trigger] entries[i].0@ == #[trigger] entries[j].0@
            ==> i == j
}

pub open spec fn entries_map<T>(entries: Seq<(String, Option<T>)>) -> Map<Seq<char>, Option<T>>
    decreases entries.len(),
{
    if entries.len() == 0 {
        Map::empty()
    } else {
        entries_map(entries.drop_last()).insert(entries.last().0@, entries.last().1)
    }
}

proof fn lemma_entries_map<T>(entries: Seq<(String, Option<T>)>)
    requires
        entries_unique(entries),
    ensures
        forall|i: int| 0 <= i < entries.len() ==> #[trigger] entries_map(entries).get(entries[i].0@) == Some(entries[i].1),
        forall|k: Seq<char>|
            (forall|i: int| 0 <= i < entries.len() ==> #[trigger] entries[i].0@ != k)
                ==> #[trigger] entries_map(entries).get(k) is None,
    decreases entries.len(),
{
    if entries.len() > 0 {
        let p = entries.drop_last();
        let n = entries.len() - 1;
        assert(entries_unique(p)) by {
            assert forall|i: int, j: int|
                0 <= i < p.len() && 0 <= j < p.len() && #[trigger] p[i].0@ == #[trigger] p[j].0@ implies i
                == j by {
                assert(entries[i] == p[i] && entries[j] == p[j]);
            }
        }
        lemma_entries_map(p);
        assert(entries_map(entries) == entries_map(p).insert(entries[n].0@, entries[n].1));
        assert forall|i: int| 0 <= i < entries.len() implies #[trigger] entries_map(entries).get(entries[i].0@)
            == Some(entries[i].1) by {
            if i < n {
                assert(entries[i] == p[i]);
                assert(entries[i].0@ != entries[n].0@);
                assert(entries_map(p).get(p[i].0@) == Some(p[i].1));
            }
        }
        assert forall|k: Seq<char>|
            (forall|i: int| 0 <= i < entries.len() ==> #[trigger] entries[i].0@ != k) implies #[trigger] entries_map(
            entries,
        ).get(k) is None by {
            assert forall|i: int| 0 <= i < p.len() implies #[trigger] p[i].0@ != k by {
                assert(entries[i] == p[i]);
            }
            assert(entries[n].0@ != k);
            assert(entries_map(p).get(k) is None);
        }
    }
}

/// Two entry lists that hold the same keys and values describe the same
/// table.
proof fn lemma_entries_map_same<T>(a: Seq<(String, Option<T>)>, b: Seq<(String, Option<T>)>, m: Map<Seq<char>, Option<T>>)
    requires
        entries_unique(b),
        forall|k: Seq<char>| #[trigger] m.get(k) == entries_map(b).get(k),
    ensures
        m == entries_map(b),
{
    assert(m.dom() =~= entries_map(b).dom()) by {
        assert forall|k: Seq<char>| m.dom().contains(k) == entries_map(b).dom().contains(k) by {
            assert(m.get(k) == entries_map(b).get(k));
        }
    }
    assert(m =~= entries_map(b)) by {
        assert forall|k: Seq<char>| #[trigger] m.dom().contains(k) implies m[k] == entries_map(b)[k] by {
            assert(m.get(k) == entries_map(b).get(k));
        }
    }
}

/// Giving an entry a new value gives its key that value.
proof fn lemma_entries_map_update<T>(entries: Seq<(String, Option<T>)>, i: int, key: String, value: Option<T>)
    requires
        entries_unique(entries),
        0 <= i < entries.len(),
        key@ == entries[i].0@,
    ensures
        entries_unique(entries.update(i, (key, value))),
        entries_map(entries.update(i, (key, value))) == entries_map(entries).insert(key@, value),
{
    let u = entries.update(i, (key, value));
    assert(entries_unique(u)) by {
        assert forall|a: int, b: int|
            0 <= a < u.len() && 0 <= b < u.len() && #[trigger] u[a].0@ == #[trigger] u[b].0@ implies a == b by {
            assert(u[a].0@ == entries[a].0@ && u[b].0@ == entries[b].0@);
        }
    }
    lemma_entries_map(entries);
    lemma_entries_map(u);
    let target = entries_map(entries).insert(key@, value);
    assert forall|k: Seq<char>| #[trigger] target.get(k) == entries_map(u).get(k) by {
        if k == key@ {
            assert(u[i].0@ == k);
            assert(entries_map(u).get(u[i].0@) == Some(u[i].1));
        } else if exists|j: int| 0 <= j < entries.len() && #[trigger] entries[j].0@ == k {
            let j = choose|j: int| 0 <= j < entries.len() && #[trigger] entries[j].0@ == k;
            assert(u[j] == entries[j]);
            assert(entries_map(u).get(u[j].0@) == Some(u[j].1));
            assert(entries_map(entries).get(entries[j].0@) == Some(entries[j].1));
        } else {
            assert forall|j: int| 0 <= j < u.len() implies #[trigger] u[j].0@ != k by {
                assert(u[j].0@ == entries[j].0@);
            }
            assert forall|j: int| 0 <= j < entries.len() implies #[trigger] entries[j].0@ != k by {}
            assert(entries_map(u).get(k) is None);
            assert(entries_map(entries).get(k) is None);
        }
    }
    lemma_entries_map_same(entries, u, target);
}

/// Adding an entry for a new key adds that key.
proof fn lemma_entries_map_push<T>(entries: Seq<(String, Option<T>)>, key: String, value: Option<T>)
    requires
        entries_unique(entries),
        forall|i: int| 0 <= i < entries.len() ==> #[trigger] entries[i].0@ != key@,
    ensures
        entries_unique(entries.push((key, value))),
        entries_map(entries.push((key, value))) == entries_map(entries).insert(key@, value),
{
    let u = entries.push((key, value));
    assert(u.drop_last() =~= entries);
    assert(entries_unique(u)) by {
        assert forall|a: int, b: int|
            0 <= a < u.len() && 0 <= b < u.len() && #[trigger] u[a].0@ == #[trigger] u[b].0@ implies a == b by {
            if a < entries.len() {
                assert(u[a] == entries[a]);
            }
            if b < entries.len() {
                assert(u[b] == entries[b]);
            }
        }
    }
}

/// Removing an entry removes its key.
proof fn lemma_entries_map_remove<T>(entries: Seq<(String, Option<T>)>, i: int)
    requires
        entries_unique(entries),
        0 <= i < entries.len(),
    ensures
        entries_unique(entries.remove(i)),
        entries_map(entries.remove(i)) == entries_map(entries).remove(entries[i].0@),
{
    let u = entries.remove(i);
    assert(entries_unique(u)) by {
        assert forall|a: int, b: int|
            0 <= a < u.len() && 0 <= b < u.len() && #[trigger] u[a].0@ == #[trigger] u[b].0@ implies a == b by {
            let a2 = if a < i { a } else { a + 1 };
            let b2 = if b < i { b } else { b + 1 };
            assert(u[a] == entries[a2] && u[b] == entries[b2]);
        }
    }
    lemma_entries_map(entries);
    lemma_entries_map(u);
    let target = entries_map(entries).remove(entries[i].0@);
    assert forall|k: Seq<char>| #[trigger] target.get(k) == entries_map(u).get(k) by {
        if k == entries[i].0@ {
            assert forall|j: int| 0 <= j < u.len() implies #[trigger] u[j].0@ != k by {
                let j2 = if j < i { j } else { j + 1 };
                assert(u[j] == entries[j2]);
            }
            assert(entries_map(u).get(k) is None);
        } else if exists|j: int| 0 <= j < entries.len() && #[trigger] entries[j].0@ == k {
            let j = choose|j: int| 0 <= j < entries.len() && #[trigger] entries[j].0@ == k;
            assert(j != i);
            let j2 = if j < i { j } else { j - 1 };
            assert(u[j2] == entries[j]);
            assert(entries_map(u).get(u[j2].0@) == Some(u[j2].1));
            assert(entries_map(entries).get(entries[j].0@) == Some(entries[j].1));
        } else {
            assert forall|j: int| 0 <= j < u.len() implies #[trigger] u[j].0@ != k by {
                let j2 = if j < i { j } else { j + 1 };
                assert(u[j] == entries[j2]);
            }
            assert forall|j: int| 0 <= j < entries.len() implies #[trigger] entries[j].0@ != k by {}
            assert(entries_map(u).get(k) is None);
            assert(entries_map(entries).get(k) is None);
        }
    }
    lemma_entries_map_same(entries, u, target);
}

impl<T> Claims<T> {
    /// The state of each key that tasks have asked for: `None` while pending.
    pub closed spec fn states(&self) -> Map<Seq<char>, Option<T>> {
        entries_map(self.entries@)
    }

    /// Each key has one entry.
    pub closed spec fn wf(&self) -> bool {
        entries_unique(self.entries@)
    }

    /// No key has been asked for.
    pub fn new() -> (out: Claims<T>)
        ensures
            out.wf(),
            out.states() == Map::<Seq<char>, Option<T>>::empty(),
    {
        Claims { entries: Vec::new() }
    }

    fn find(&self, key: &str) -> (out: Option<usize>)
        requires
            self.wf(),
        ensures
            match out {
                Some(i) => i < self.entries@.len() && self.entries@[i as int].0@ == key@,
                None => forall|i: int| 0 <= i < self.entries@.len() ==> #[trigger] self.entries@[i].0@ != key@,
            },
    {
        let wanted = key.to_owned();
        let mut i: usize = 0;
        while i < self.entries.len()
            invariant
                i <= self.entries@.len(),
                wanted@ == key@,
                forall|j: int| 0 <= j < i ==> #[trigger] self.entries@[j].0@ != key@,
            decreases self.entries@.len() - i,
        {
            if self.entries[i].0 == wanted {
                return Some(i);
            }
            i = i + 1;
        }
        None
    }

    /// The step a task takes for `key`: use the value where it is available,
    /// wait where another task produces it, and otherwise produce it, the key
    /// being pending from then on.
    pub fn claim(&mut self, key: &str) -> (out: Claim)
        requires
            old(self).wf(),
        ensures
            final(self).wf(),
            (out, final(self).states()) == claim_spec(old(self).states(), key@),
    {
        proof {
            lemma_entries_map(self.entries@);
        }
        match self.find(key) {
            Some(i) => {
                assert(self.states().get(key@) == Some(self.entries@[i as int].1));
                match &self.entries[i].1 {
                    None => Claim::Wait,
                    Some(_) => Claim::Ready,
                }
            },
            None => {
                let name = key.to_owned();
                proof {
                    lemma_entries_map_push(self.entries@, name, None);
                }
                self.entries.push((name, None));
                Claim::Fetch
            },
        }
    }

    /// Records the value produced for `key`.
    pub fn fill(&mut self, key: &str, value: T)
        requires
            old(self).wf(),
        ensures
            final(self).wf(),
            final(self).states() == old(self).states().insert(key@, Some(value)),
    {
        let name = key.to_owned();
        match self.find(key) {
            Some(i) => {
                proof {
                    lemma_entries_map_update(self.entries@, i as int, name, Some(value));
                }
                self.entries.set(i, (name, Some(value)));
            },
            None => {
                proof {
                    lemma_entries_map_push(self.entries@, name, Some(value));
                }
                self.entries.push((name, Some(value)));
            },
        }
    }

    /// Forgets `key`, so that the next task to ask for it produces it again.
    pub fn forget(&mut self, key: &str)
        requires
            old(self).wf(),
        ensures
            final(self).wf(),
            final(self).states() == old(self).states().remove(key@),
    {
        proof {
            lemma_entries_map(self.entries@);
        }
        match self.find(key) {
            Some(i) => {
                proof {
                    lemma_entries_map_remove(self.entries@, i as int);
                }
                let _ = self.entries.remove(i);
            },
            None => {
                assert(self.states().get(key@) is None);
                assert(self.states() =~= self.states().remove(key@));
            },
        }
    }

    /// The value under `key`, once it is available.
    pub fn get(&self, key: &str) -> (out: Option<&T>)
        requires
            self.wf(),
        ensures
            match self.states().get(key@) {
                Some(Some(v)) => out == Some(&v),
                _ => out is None,
            },
    {
        proof {
            lemma_entries_map(self.entries@);
        }
        match self.find(key) {
            Some(i) => {
                assert(self.states().get(key@) == Some(self.entries@[i as int].1));
                match &self.entries[i].1 {
                    Some(v) => Some(v),
                    None => None,
                }
            },
            None => None,
        }
    }
}

/// A value that has been filled is ready for every later task that asks for
/// it: it is not produced again.
pub proof fn lemma_filled_is_ready<T>(states: Map<Seq<char>, Option<T>>, key: Seq<char>, value: T)
    ensures
        claim_spec(states.insert(key, Some(value)), key).0 == Claim::Ready,
{
}

/// Of the tasks that ask for a key, only the first produces its value: once
/// one has been told to fetch, the next is told to wait.
pub proof fn lemma_one_fetch_per_key<T>(states: Map<Seq<char>, Option<T>>, key: Seq<char>)
    ensures
        claim_spec(states, key).0 == Claim::Fetch ==> claim_spec(claim_spec(states, key).1, key).0 == Claim::Wait,
        claim_spec(claim_spec(states, key).1, key).0 != Claim::Fetch,
{
}

/// Asking for a key changes the state of no other key.
pub proof fn lemma_claim_keeps_other_keys<T>(states: Map<Seq<char>, Option<T>>, key: Seq<char>, other: Seq<char>)
    requires
        other != key,
    ensures
        claim_spec(states, key).1.get(other) == states.get(other),
{
}

/// A forgotten key is produced again by the next task that asks for it.
pub proof fn lemma_forgotten_is_fetched<T>(states: Map<Seq<char>, Option<T>>, key: Seq<char>)
    ensures
        claim_spec(states.remove(key), key).0 == Claim::Fetch,
{
}

} // verus!
