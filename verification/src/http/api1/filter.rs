use vstd::prelude::*;

use crate::http::api1::error::Error;
use crate::language::{language_code, language_from_code, language_of_code, lemma_language_code_roundtrip, Language};
use crate::read::{
    descend, entries_model, entry_model, find_key, find_key_from, has_key, keys_unique_at,
    lemma_descend_all, lemma_descend_step, lemma_entries_model, lemma_entries_model_ext,
    lemma_find_key_from, lemma_merge_entries_prefix_fails, lemma_merge_selects_union, lookup,
    merge_entries, merge_model, selects, unique_keys, wf, Filter, FilterModel, Step, StructEntry,
};
use crate::text::{chars_of, push_char, push_chars};

verus! {

// ---------------------------------------------------------------------------
// The filter string grammar.
//
//     filter  := '*' | (path (',' path)*)?
//     path    := part ('.' part)*
//     part    := key ('[]')*
//     key     := keychar+ ('@' language)?
//     keychar := any char but '\', '@', '[', '.', ','  |  '\' one of '\', '@', '[', ']', '.', ','
//
// Keys, language codes and index markers are read greedily from left to
// right; the whole input must be consumed.
// ---------------------------------------------------------------------------

/// One step of a field path: a (possibly language-tagged) struct key, or an
/// array index marker.
#[derive(Debug, Clone, PartialEq, Eq)]
pub enum Entry {
    Key(String, Option<Language>),
    Index,
}

/// The mathematical value of an `Entry`.
pub enum EntryModel {
    Key(Seq<char>, Option<Language>),
    Index,
}

impl Entry {
    pub open spec fn model(&self) -> EntryModel {
        match self {
            Entry::Key(k, l) => EntryModel::Key(k@, *l),
            Entry::Index => EntryModel::Index,
        }
    }
}

pub open spec fn path_model(p: Vec<Entry>) -> Seq<EntryModel> {
    p@.map_values(|e: Entry| e.model())
}

pub open spec fn paths_model(ps: Vec<Vec<Entry>>) -> Seq<Seq<EntryModel>> {
    ps@.map_values(|p: Vec<Entry>| path_model(p))
}

/// A parsed filter string: everything, or a list of field paths.
#[derive(Debug, Clone)]
pub enum FilterStringInner {
    All,
    Paths(Vec<Vec<Entry>>),
}

/// The mathematical value of a parsed filter string.
pub enum FilterStringModel {
    All,
    Paths(Seq<Seq<EntryModel>>),
}

impl FilterStringInner {
    pub open spec fn model(&self) -> FilterStringModel {
        match self {
            FilterStringInner::All => FilterStringModel::All,
            FilterStringInner::Paths(ps) => FilterStringModel::Paths(paths_model(*ps)),
        }
    }
}

/// Characters that end a key unless escaped.
pub open spec fn is_key_delimiter(c: char) -> bool {
    c == '@' || c == '[' || c == '.' || c == ','
}

/// Characters that may follow a backslash inside a key.
pub open spec fn is_escapable(c: char) -> bool {
    c == '\\' || c == '@' || c == '[' || c == ']' || c == '.' || c == ','
}

pub open spec fn is_ascii_alphanumeric(c: char) -> bool {
    ('a' <= c <= 'z') || ('A' <= c <= 'Z') || ('0' <= c <= '9')
}

/// Decodes the key characters starting at `i`: the decoded characters and
/// the position where the key text ends. `None` on a malformed escape (a
/// backslash at the end of input, or before a character that is not escapable).
pub open spec fn scan_key(s: Seq<char>, i: int) -> Option<(Seq<char>, int)>
    decreases s.len() - i,
{
    if !(0 <= i < s.len()) {
        Some((Seq::empty(), i))
    } else if s[i] == '\\' {
        if i + 1 < s.len() && is_escapable(s[i + 1]) {
            match scan_key(s, i + 2) {
                Some((k, e)) => Some((seq![s[i + 1]] + k, e)),
                None => None,
            }
        } else {
            None
        }
    } else if is_key_delimiter(s[i]) {
        Some((Seq::empty(), i))
    } else {
        match scan_key(s, i + 1) {
            Some((k, e)) => Some((seq![s[i]] + k, e)),
            None => None,
        }
    }
}

/// The end of the run of ASCII letters and digits that starts at `i`.
pub open spec fn alphanumeric_end(s: Seq<char>, i: int) -> int
    decreases s.len() - i,
{
    if 0 <= i < s.len() && is_ascii_alphanumeric(s[i]) {
        alphanumeric_end(s, i + 1)
    } else {
        i
    }
}

/// Reads one key, with its optional `@language` suffix, starting at `i`.
pub open spec fn parse_key(s: Seq<char>, i: int) -> Option<(EntryModel, int)> {
    match scan_key(s, i) {
        None => None,
        Some((k, e)) => if k.len() == 0 {
            None
        } else if 0 <= e < s.len() && s[e] == '@' && alphanumeric_end(s, e + 1) > e + 1
            && language_from_code(s.subrange(e + 1, alphanumeric_end(s, e + 1))) is Some {
            Some(
                (
                    EntryModel::Key(
                        k,
                        language_from_code(s.subrange(e + 1, alphanumeric_end(s, e + 1))),
                    ),
                    alphanumeric_end(s, e + 1),
                ),
            )
        } else {
            Some((EntryModel::Key(k, None), e))
        },
    }
}

/// The number of consecutive `[]` markers starting at `i`.
pub open spec fn index_count(s: Seq<char>, i: int) -> nat
    decreases s.len() - i,
{
    if 0 <= i && i + 1 < s.len() && s[i] == '[' && s[i + 1] == ']' {
        1 + index_count(s, i + 2)
    } else {
        0
    }
}

pub open spec fn index_entries(n: nat) -> Seq<EntryModel> {
    Seq::new(n, |j: int| EntryModel::Index)
}

/// Reads one path part (a key followed by index markers) starting at `i`.
pub open spec fn parse_part(s: Seq<char>, i: int) -> Option<(Seq<EntryModel>, int)> {
    match parse_key(s, i) {
        None => None,
        Some((key, e)) => Some(
            (seq![key] + index_entries(index_count(s, e)), e + 2 * index_count(s, e)),
        ),
    }
}

/// Reads a dot-separated path starting at `i`. A dot that is not followed by
/// a valid part is left unread.
pub open spec fn parse_path(s: Seq<char>, i: int) -> Option<(Seq<EntryModel>, int)>
    decreases s.len() - i,
{
    match parse_part(s, i) {
        None => None,
        Some((es, j)) => if i < j < s.len() && s[j] == '.' {
            match parse_path(s, j + 1) {
                Some((rest, k)) => Some((es + rest, k)),
                None => Some((es, j)),
            }
        } else {
            Some((es, j))
        },
    }
}

/// Reads a comma-separated, non-empty list of paths starting at `i`. A comma
/// that is not followed by a valid path is left unread.
pub open spec fn parse_path_list(s: Seq<char>, i: int) -> Option<(Seq<Seq<EntryModel>>, int)>
    decreases s.len() - i,
{
    match parse_path(s, i) {
        None => None,
        Some((p, j)) => if i < j < s.len() && s[j] == ',' {
            match parse_path_list(s, j + 1) {
                Some((rest, k)) => Some((seq![p] + rest, k)),
                None => Some((seq![p], j)),
            }
        } else {
            Some((seq![p], j))
        },
    }
}

/// Reads as much of a filter as the grammar allows from the start of `s`:
/// the value read and the position where reading stopped.
pub open spec fn parse_filter_prefix(s: Seq<char>) -> (FilterStringModel, int) {
    if s.len() > 0 && s[0] == '*' {
        (FilterStringModel::All, 1)
    } else {
        match parse_path_list(s, 0) {
            Some((ps, j)) => (FilterStringModel::Paths(ps), j),
            None => (FilterStringModel::Paths(Seq::empty()), 0),
        }
    }
}

/// The meaning of a filter string: its value when the grammar consumes all of
/// it, and otherwise the unread remainder at which reading stopped.
pub open spec fn parse_filter(s: Seq<char>) -> Result<FilterStringModel, Seq<char>> {
    let (m, j) = parse_filter_prefix(s);
    if j == s.len() {
        Ok(m)
    } else {
        Err(s.subrange(j, s.len() as int))
    }
}

/// The error message of a filter string that is not fully consumed.
pub open spec fn parse_error_message(rest: Seq<char>) -> Seq<char> {
    seq!['e', 'r', 'r', 'o', 'r', ' ', 'E', 'o', 'f', ' ', 'a', 't', ':', ' '] + rest
}


// ---------------------------------------------------------------------------
// Reading filter strings.
// ---------------------------------------------------------------------------

/// Decodes the key characters starting at `i` (see `scan_key`), also giving
/// the number of characters decoded.
fn read_key_chars(cs: &Vec<char>, i: usize) -> (out: Option<(String, usize, usize)>)
    requires
        i <= cs@.len(),
    ensures
        match out {
            None => scan_key(cs@, i as int) is None,
            Some((k, e, n)) => scan_key(cs@, i as int) == Some((k@, e as int)) && n == k@.len()
                && e <= cs@.len(),
        },
{
    let mut acc = String::new();
    let mut n: usize = 0;
    let mut j = i;
    loop
        invariant
            i <= j <= cs@.len(),
            n == acc@.len(),
            n <= j,
            scan_key(cs@, i as int) == match scan_key(cs@, j as int) {
                Some((k, e)) => Some((acc@ + k, e)),
                None => None,
            },
        decreases cs@.len() - j,
    {
        if j >= cs.len() {
            assert(acc@ + Seq::<char>::empty() == acc@);
            return Some((acc, j, n));
        }
        let c = cs[j];
        if c == '\\' {
            if j + 1 < cs.len() && (cs[j + 1] == '\\' || cs[j + 1] == '@' || cs[j + 1] == '['
                || cs[j + 1] == ']' || cs[j + 1] == '.' || cs[j + 1] == ',') {
                let d = cs[j + 1];
                proof {
                    let ghost old_acc = acc@;
                    match scan_key(cs@, j + 2) {
                        Some((k, e)) => {
                            assert(old_acc + (seq![d] + k) == old_acc.push(d) + k);
                        },
                        None => {},
                    }
                }
                push_char(&mut acc, d);
                n = n + 1;
                j = j + 2;
            } else {
                return None;
            }
        } else if c == '@' || c == '[' || c == '.' || c == ',' {
            assert(acc@ + Seq::<char>::empty() == acc@);
            return Some((acc, j, n));
        } else {
            proof {
                let ghost old_acc = acc@;
                match scan_key(cs@, j + 1) {
                    Some((k, e)) => {
                        assert(old_acc + (seq![c] + k) == old_acc.push(c) + k);
                    },
                    None => {},
                }
            }
            push_char(&mut acc, c);
            n = n + 1;
            j = j + 1;
        }
    }
}

/// The end of the run of ASCII letters and digits starting at `i`.
fn read_alphanumeric_end(cs: &Vec<char>, i: usize) -> (out: usize)
    requires
        i <= cs@.len(),
    ensures
        out == alphanumeric_end(cs@, i as int),
        i <= out <= cs@.len(),
{
    let mut j = i;
    while j < cs.len() && (('a' <= cs[j] && cs[j] <= 'z') || ('A' <= cs[j] && cs[j] <= 'Z') || (
    '0' <= cs[j] && cs[j] <= '9'))
        invariant
            i <= j <= cs@.len(),
            alphanumeric_end(cs@, i as int) == alphanumeric_end(cs@, j as int),
        decreases cs@.len() - j,
    {
        j = j + 1;
    }
    j
}

/// Copies `cs[from..to]`.
fn copy_chars(cs: &Vec<char>, from: usize, to: usize) -> (out: Vec<char>)
    requires
        from <= to <= cs@.len(),
    ensures
        out@ == cs@.subrange(from as int, to as int),
{
    let mut out: Vec<char> = Vec::new();
    let mut i = from;
    while i < to
        invariant
            from <= i <= to <= cs@.len(),
            out@ == cs@.subrange(from as int, i as int),
        decreases to - i,
    {
        out.push(cs[i]);
        assert(cs@.subrange(from as int, i + 1) == cs@.subrange(from as int, i as int).push(
            cs@[i as int],
        ));
        i = i + 1;
    }
    out
}

/// Reads one key with its optional language (see `parse_key`).
fn read_key(cs: &Vec<char>, i: usize) -> (out: Option<(Entry, usize)>)
    requires
        i <= cs@.len(),
    ensures
        match out {
            None => parse_key(cs@, i as int) is None,
            Some((entry, e)) => parse_key(cs@, i as int) == Some((entry.model(), e as int))
                && e <= cs@.len(),
        },
{
    let (key, e, n) = match read_key_chars(cs, i) {
        None => return None,
        Some(found) => found,
    };
    if n == 0 {
        return None;
    }
    if e < cs.len() && cs[e] == '@' {
        let end = read_alphanumeric_end(cs, e + 1);
        if end > e + 1 {
            let code = copy_chars(cs, e + 1, end);
            match language_of_code(&code) {
                Some(language) => {
                    return Some((Entry::Key(key, Some(language)), end));
                },
                None => {},
            }
        }
    }
    Some((Entry::Key(key, None), e))
}

/// Reads one path part (see `parse_part`).
fn read_part(cs: &Vec<char>, i: usize) -> (out: Option<(Vec<Entry>, usize)>)
    requires
        i <= cs@.len(),
    ensures
        match out {
            None => parse_part(cs@, i as int) is None,
            Some((entries, j)) => parse_part(cs@, i as int) == Some((path_model(entries), j as int))
                && j <= cs@.len(),
        },
{
    let (key, e) = match read_key(cs, i) {
        None => return None,
        Some(found) => found,
    };
    let ghost key_model = key.model();
    let mut entries: Vec<Entry> = Vec::new();
    entries.push(key);
    assert(path_model(entries) =~= seq![key_model] + index_entries(0));
    let mut j = e;
    let mut n: usize = 0;
    while j < cs.len() && j + 1 < cs.len() && cs[j] == '[' && cs[j + 1] == ']'
        invariant
            e <= j <= cs@.len(),
            j == e + 2 * n,
            index_count(cs@, e as int) == n + index_count(cs@, j as int),
            path_model(entries) == seq![key_model] + index_entries(n as nat),
        decreases cs@.len() - j,
    {
        let ghost before = path_model(entries);
        entries.push(Entry::Index);
        n = n + 1;
        j = j + 2;
        assert(path_model(entries) =~= before.push(EntryModel::Index));
        assert(seq![key_model] + index_entries(n as nat) =~= (seq![key_model] + index_entries(
            (n - 1) as nat,
        )).push(EntryModel::Index));
    }
    Some((entries, j))
}

/// Appends `tail` to `head`.
fn append_entries(head: &mut Vec<Entry>, tail: Vec<Entry>)
    ensures
        path_model(*final(head)) == path_model(*old(head)) + path_model(tail),
{
    let ghost start = head@;
    let mut tail = tail;
    let ghost t = tail@;
    head.append(&mut tail);
    assert(head@ == start + t);
    assert((start + t).map_values(|e: Entry| e.model()) =~= start.map_values(|e: Entry| e.model())
        + t.map_values(|e: Entry| e.model()));
}

/// What a dot-separated path continues into after the entries `acc` read up
/// to position `j`.
spec fn path_continue(s: Seq<char>, acc: Seq<EntryModel>, j: int) -> (Seq<EntryModel>, int) {
    if j < s.len() && s[j] == '.' {
        match parse_path(s, j + 1) {
            Some((rest, k)) => (acc + rest, k),
            None => (acc, j),
        }
    } else {
        (acc, j)
    }
}

/// Reads a dot-separated path (see `parse_path`).
fn read_path(cs: &Vec<char>, i: usize) -> (out: Option<(Vec<Entry>, usize)>)
    requires
        i <= cs@.len(),
    ensures
        match out {
            None => parse_path(cs@, i as int) is None,
            Some((entries, j)) => parse_path(cs@, i as int) == Some((path_model(entries), j as int))
                && i < j <= cs@.len(),
        },
{
    proof {
        lemma_parse_part_bounds(cs@, i as int);
    }
    let (mut entries, mut j) = match read_part(cs, i) {
        None => return None,
        Some(found) => found,
    };
    assert(parse_path(cs@, i as int) == Some(path_continue(cs@, path_model(entries), j as int)));
    loop
        invariant
            i < j <= cs@.len(),
            parse_path(cs@, i as int) == Some(path_continue(cs@, path_model(entries), j as int)),
        decreases cs@.len() - j,
    {
        if j < cs.len() && cs[j] == '.' {
            proof {
                lemma_parse_part_bounds(cs@, j + 1);
            }
            match read_part(cs, j + 1) {
                None => {
                    return Some((entries, j));
                },
                Some((more, k)) => {
                    let ghost acc = path_model(entries);
                    let ghost es = path_model(more);
                    proof {
                        match parse_path(cs@, k as int + 1) {
                            Some((rest, k2)) => {
                                if k < cs@.len() && cs@[k as int] == '.' {
                                    assert(acc + (es + rest) =~= (acc + es) + rest);
                                }
                            },
                            None => {},
                        }
                    }
                    append_entries(&mut entries, more);
                    j = k;
                },
            }
        } else {
            return Some((entries, j));
        }
    }
}

/// What a comma-separated path list continues into after the paths `acc`
/// read up to position `j`.
spec fn path_list_continue(s: Seq<char>, acc: Seq<Seq<EntryModel>>, j: int) -> (
    Seq<Seq<EntryModel>>,
    int,
) {
    if j < s.len() && s[j] == ',' {
        match parse_path_list(s, j + 1) {
            Some((rest, k)) => (acc + rest, k),
            None => (acc, j),
        }
    } else {
        (acc, j)
    }
}

/// Reads a comma-separated, non-empty list of paths (see `parse_path_list`).
fn read_path_list(cs: &Vec<char>, i: usize) -> (out: Option<(Vec<Vec<Entry>>, usize)>)
    requires
        i <= cs@.len(),
    ensures
        match out {
            None => parse_path_list(cs@, i as int) is None,
            Some((paths, j)) => parse_path_list(cs@, i as int) == Some((paths_model(paths), j as int))
                && i < j <= cs@.len(),
        },
{
    let (first, mut j) = match read_path(cs, i) {
        None => return None,
        Some(found) => found,
    };
    let mut paths: Vec<Vec<Entry>> = Vec::new();
    let ghost first_model = path_model(first);
    paths.push(first);
    assert(paths_model(paths) =~= seq![first_model]);
    loop
        invariant
            i < j <= cs@.len(),
            parse_path_list(cs@, i as int) == Some(
                path_list_continue(cs@, paths_model(paths), j as int),
            ),
        decreases cs@.len() - j,
    {
        if j < cs.len() && cs[j] == ',' {
            match read_path(cs, j + 1) {
                None => {
                    return Some((paths, j));
                },
                Some((path, k)) => {
                    let ghost acc = paths_model(paths);
                    let ghost p = path_model(path);
                    proof {
                        match parse_path_list(cs@, k as int + 1) {
                            Some((rest, k2)) => {
                                if k < cs@.len() && cs@[k as int] == ',' {
                                    assert(acc + (seq![p] + rest) =~= acc.push(p) + rest);
                                }
                            },
                            None => {},
                        }
                        assert(acc + seq![p] =~= acc.push(p));
                    }
                    paths.push(path);
                    assert(paths_model(paths) =~= acc.push(p));
                    j = k;
                },
            }
        } else {
            return Some((paths, j));
        }
    }
}

/// The message for a filter string whose reading stopped at `cs[from..]`.
fn parse_error(cs: &Vec<char>, from: usize) -> (out: Error)
    requires
        from <= cs@.len(),
    ensures
        out matches Error::Invalid(m) && m@ == parse_error_message(
            cs@.subrange(from as int, cs@.len() as int),
        ),
{
    let mut message = String::new();
    let prefix = vec!['e', 'r', 'r', 'o', 'r', ' ', 'E', 'o', 'f', ' ', 'a', 't', ':', ' '];
    push_chars(&mut message, &prefix);
    let rest = copy_chars(cs, from, cs.len());
    push_chars(&mut message, &rest);
    assert(prefix@ =~= seq!['e', 'r', 'r', 'o', 'r', ' ', 'E', 'o', 'f', ' ', 'a', 't', ':', ' ']);
    Error::Invalid(message)
}

// ---------------------------------------------------------------------------
// Building and merging filters.
// ---------------------------------------------------------------------------

pub open spec fn merge_error_message() -> Seq<char> {
    "invalid filter: tried to merge array and struct"@
}

fn merge_error() -> (e: Error)
    ensures
        e matches Error::Invalid(m) && m@ == merge_error_message(),
{
    Error::Invalid("invalid filter: tried to merge array and struct".to_owned())
}

/// The position of the entry with the given key, if any.
fn find_entry(entries: &Vec<StructEntry>, name: &String, language: Language) -> (out: Option<usize>)
    ensures
        match out {
            Some(i) => find_key(entries_model(entries@), name@, language) == Some(i as int),
            None => find_key(entries_model(entries@), name@, language) is None,
        },
{
    proof {
        lemma_entries_model(entries@);
    }
    let ghost es = entries_model(entries@);
    let mut i: usize = 0;
    while i < entries.len()
        invariant
            i <= entries@.len(),
            es == entries_model(entries@),
            es.len() == entries@.len(),
            find_key(es, name@, language) == find_key_from(es, name@, language, i as int),
        decreases entries@.len() - i,
    {
        proof {
            lemma_entries_model(entries@);
        }
        assert(entries_model(entries@)[i as int] == entry_model(entries@[i as int]));
        if entries[i].field == *name && entries[i].language == language {
            return Some(i);
        }
        i = i + 1;
    }
    None
}

/// Merges two filters (see `merge_model`); fails when an array filter and a
/// struct filter meet at the same place.
pub fn merge_filters(a: Filter, b: Filter) -> (out: Result<Filter, Error>)
    ensures
        match out {
            Ok(r) => merge_model(a.model(), b.model()) == Some(r.model()),
            Err(e) => merge_model(a.model(), b.model()) is None && (e matches Error::Invalid(m)
                && m@ == merge_error_message()),
        },
    decreases b,
{
    let ghost am = a.model();
    let ghost bm = b.model();
    if let Filter::All = a {
        return Ok(Filter::All);
    }
    match b {
        Filter::All => Ok(Filter::All),
        Filter::Array(y) => match a {
            Filter::Array(x) => match merge_filters(*x, *y) {
                Ok(m) => Ok(Filter::Array(Box::new(m))),
                Err(e) => Err(e),
            },
            _ => Err(merge_error()),
        },
        Filter::Struct(eb) => {
            let ea = match a {
                Filter::Struct(ea) => ea,
                _ => {
                    return Err(merge_error());
                },
            };
            let ghost ea0 = entries_model(ea@);
            let ghost eb0 = entries_model(eb@);
            let ghost ebv = eb@;
            let ghost eb_vec = eb;
            proof {
                lemma_entries_model(ea@);
                lemma_entries_model(eb@);
                assert(eb0.take(0) =~= Seq::<(Seq<char>, Language, FilterModel)>::empty());
            }
            let mut acc = ea;
            let mut rest = eb;
            assert(ebv.skip(0) =~= ebv);
            let mut j: usize = 0;
            let total = rest.len();
            while rest.len() > 0
                invariant
                    total == ebv.len(),
                    eb0 == entries_model(ebv),
                    eb0.len() == ebv.len(),
                    j + rest@.len() == total,
                    rest@ == ebv.skip(j as int),
                    merge_entries(ea0, eb0.take(j as int)) == Some(entries_model(acc@)),
                    bm == FilterModel::Struct(eb0),
                    am == FilterModel::Struct(ea0),
                    b == Filter::Struct(eb_vec),
                    ebv == eb_vec@,
                    am == a.model(),
                    bm == b.model(),
                decreases rest@.len(),
            {
                proof {
                    lemma_entries_model(ebv);
                }
                let be = rest.remove(0);
                assert(be == ebv[j as int]);
                assert(eb0[j as int] == entry_model(be));
                assert(eb0.take(j + 1).drop_last() =~= eb0.take(j as int));
                assert(eb0.take(j + 1).last() == eb0[j as int]);
                let ghost acc_model = entries_model(acc@);
                proof {
                    lemma_entries_model(acc@);
                }
                match find_entry(&acc, &be.field, be.language) {
                    Some(i) => {
                        proof {
                            lemma_find_key_from(acc_model, be.field@, be.language, 0);
                        }
                        let ae = acc.remove(i);
                        assert(acc_model[i as int] == entry_model(ae));
                        proof {
                            lemma_find_key_from(acc_model, be.field@, be.language, 0);
                            assert(j < eb_vec@.len());
                            assert(decreases_to!(b => eb_vec));
                            assert(decreases_to!(eb_vec => eb_vec@));
                            assert(decreases_to!(eb_vec@ => eb_vec@[j as int]));
                            assert(decreases_to!(eb_vec@[j as int] => eb_vec@[j as int].filter));
                            assert(decreases_to!(b => be.filter));
                        }
                        match merge_filters(ae.filter, be.filter) {
                            Ok(m) => {
                                let ghost mm = m.model();
                                acc.insert(i, StructEntry { field: ae.field, language: ae.language, filter: m });
                                proof {
                                    let ghost target = acc_model.update(
                                        i as int,
                                        (eb0[j as int].0, eb0[j as int].1, mm),
                                    );
                                    assert forall|k: int| 0 <= k < acc@.len() implies entry_model(
                                        #[trigger] acc@[k],
                                    ) == target[k] by {
                                        if k != i {
                                            assert(acc_model[k] == entry_model(acc@[k]));
                                        }
                                    }
                                    lemma_entries_model_ext(acc@, target);
                                }
                            },
                            Err(e) => {
                                proof {
                                    assert(merge_entries(ea0, eb0.take(j + 1)) is None);
                                    lemma_merge_entries_prefix_fails(ea0, eb0, j + 1);
                                    assert(merge_entries(ea0, eb0) is None);
                                    assert(merge_model(am, bm) is None);
                                }
                                return Err(e);
                            },
                        }
                    },
                    None => {
                        acc.push(be);
                        proof {
                            let ghost target = acc_model.push(eb0[j as int]);
                            assert forall|k: int| 0 <= k < acc@.len() implies entry_model(
                                #[trigger] acc@[k],
                            ) == target[k] by {
                                if k < acc_model.len() {
                                    assert(acc_model[k] == entry_model(acc@[k]));
                                }
                            }
                            lemma_entries_model_ext(acc@, target);
                        }
                    },
                }
                j = j + 1;
                assert(rest@ =~= ebv.skip(j as int));
            }
            assert(eb0.take(j as int) =~= eb0);
            Ok(Filter::Struct(acc))
        },
    }
}

/// The filter selecting exactly one path: each key becomes a single-entry
/// struct (a key without a language takes `language`), each index marker an
/// array, and the end of the path selects everything.
pub open spec fn build_model(path: Seq<EntryModel>, language: Language) -> FilterModel
    decreases path.len(),
{
    if path.len() == 0 {
        FilterModel::All
    } else {
        match path[0] {
            EntryModel::Index => FilterModel::Array(Box::new(build_model(path.drop_first(), language))),
            EntryModel::Key(k, l) => FilterModel::Struct(
                seq![
                    (
                        k,
                        match l {
                            Some(x) => x,
                            None => language,
                        },
                        build_model(path.drop_first(), language),
                    ),
                ],
            ),
        }
    }
}

/// Builds the filter of one path (see `build_model`).
pub fn build_filter(path: Vec<Entry>, default_language: Language) -> (out: Filter)
    ensures
        out.model() == build_model(path_model(path), default_language),
{
    let ghost pm = path_model(path);
    let ghost n0 = path@.len();
    let mut path = path;
    let mut output = Filter::All;
    assert(pm.skip(n0 as int) =~= Seq::<EntryModel>::empty());
    while path.len() > 0
        invariant
            path@.len() <= n0,
            pm.len() == n0,
            forall|i: int| 0 <= i < path@.len() ==> pm[i] == (#[trigger] path@[i]).model(),
            output.model() == build_model(pm.skip(path@.len() as int), default_language),
        decreases path@.len(),
    {
        let ghost n = path@.len();
        let entry = path.pop().unwrap();
        let ghost inner = output.model();
        assert(pm[n - 1] == entry.model());
        assert(pm.skip(n - 1).drop_first() =~= pm.skip(n as int));
        assert(pm.skip(n - 1)[0] == pm[n - 1]);
        output = match entry {
            Entry::Index => Filter::Array(Box::new(output)),
            Entry::Key(key, specified) => {
                let language = match specified {
                    Some(l) => l,
                    None => default_language,
                };
                let ghost km = key@;
                let entries = vec![StructEntry { field: key, language, filter: output }];
                proof {
                    lemma_entries_model_ext(entries@, seq![(km, language, inner)]);
                }
                Filter::Struct(entries)
            },
        };
    }
    assert(pm.skip(0) =~= pm);
    output
}


// ---------------------------------------------------------------------------
// What a filter string selects.
// ---------------------------------------------------------------------------

/// The row path a field path denotes: keys step into fields (in their own
/// language, or `language` when none is given), index markers into elements.
pub open spec fn steps_of(path: Seq<EntryModel>, language: Language) -> Seq<Step> {
    path.map_values(
        |e: EntryModel|
            match e {
                EntryModel::Key(k, l) => Step::Field(
                    k,
                    match l {
                        Some(x) => x,
                        None => language,
                    },
                ),
                EntryModel::Index => Step::Element,
            },
    )
}

pub open spec fn is_prefix(a: Seq<Step>, b: Seq<Step>) -> bool {
    a.len() <= b.len() && a =~= b.take(a.len() as int)
}

/// The filter of one path selects exactly the values on the way to the end
/// of that path, and everything below its end.
pub proof fn lemma_build_selects(path: Seq<EntryModel>, language: Language, p: Seq<Step>)
    ensures
        selects(build_model(path, language), p) == (is_prefix(p, steps_of(path, language)) || is_prefix(
            steps_of(path, language),
            p,
        )),
        wf(build_model(path, language)),
    decreases path.len(),
{
    let f = build_model(path, language);
    let st = steps_of(path, language);
    if path.len() == 0 {
        lemma_descend_all(p);
        assert(st.len() == 0);
        assert(is_prefix(st, p));
        assert forall|q: Seq<Step>| #[trigger] keys_unique_at(descend(f, q)) by {
            lemma_descend_all(q);
        }
        return;
    }
    let rest = path.drop_first();
    let g = build_model(rest, language);
    let rst = steps_of(rest, language);
    assert(st =~= seq![st[0]] + rst);
    lemma_build_selects(rest, language, Seq::empty());
    assert forall|q: Seq<Step>| #[trigger] keys_unique_at(descend(f, q)) by {
        if q.len() > 0 {
            let qr = q.drop_first();
            assert(q =~= seq![q[0]] + qr);
            lemma_descend_step(f, q[0], qr);
            lemma_build_selects(rest, language, qr);
            lemma_single_lookup(f, q[0], g);
        } else {
            if let FilterModel::Struct(es) = f {
                assert(unique_keys(es));
            }
        }
    }
    if p.len() > 0 {
        let pr = p.drop_first();
        assert(p =~= seq![p[0]] + pr);
        lemma_descend_step(f, p[0], pr);
        lemma_build_selects(rest, language, pr);
        lemma_single_lookup(f, p[0], g);
        if p[0] == st[0] {
            lemma_prefix_cons(p[0], pr, rst);
            lemma_prefix_cons(p[0], rst, pr);
        } else {
            if is_prefix(p, st) {
                assert(p[0] == st.take(p.len() as int)[0]);
            }
            if is_prefix(st, p) {
                assert(st[0] == p.take(st.len() as int)[0]);
            }
        }
    } else {
        assert(is_prefix(p, st));
    }
}

proof fn lemma_prefix_cons(x: Step, a: Seq<Step>, b: Seq<Step>)
    ensures
        is_prefix(seq![x] + a, seq![x] + b) == is_prefix(a, b),
{
    let xa = seq![x] + a;
    let xb = seq![x] + b;
    if is_prefix(a, b) {
        assert(xa =~= xb.take(xa.len() as int));
    }
    if is_prefix(xa, xb) {
        assert forall|i: int| 0 <= i < a.len() implies a[i] == b.take(a.len() as int)[i] by {
            assert(xa[i + 1] == xb.take(xa.len() as int)[i + 1]);
        }
        assert(a =~= b.take(a.len() as int));
    }
}

/// The filter of a path is a chain: stepping into it along the path's first
/// step reaches the filter of the rest of the path, any other step reaches
/// nothing.
proof fn lemma_single_lookup(f: FilterModel, s: Step, g: FilterModel)
    requires
        f matches FilterModel::Struct(es) ==> es.len() == 1 && es[0].2 == g,
        f matches FilterModel::Array(x) ==> *x == g,
        !(f is All),
    ensures
        descend(f, seq![s]) == (match (f, s) {
            (FilterModel::Array(_), Step::Element) => Some(g),
            (FilterModel::Struct(es), Step::Field(n, l)) => if has_key(es[0], n, l) {
                Some(g)
            } else {
                None
            },
            _ => None,
        }),
        forall|rest: Seq<Step>|
            descend(f, #[trigger] (seq![s] + rest)) == (match (f, s) {
                (FilterModel::Array(_), Step::Element) => descend(g, rest),
                (FilterModel::Struct(es), Step::Field(n, l)) => if has_key(es[0], n, l) {
                    descend(g, rest)
                } else {
                    None
                },
                _ => None,
            }),
{
    if let (FilterModel::Struct(es), Step::Field(n, l)) = (f, s) {
        assert(find_key_from(es, n, l, 1) is None);
    }
    assert forall|rest: Seq<Step>|
        descend(f, #[trigger] (seq![s] + rest)) == (match (f, s) {
            (FilterModel::Array(_), Step::Element) => descend(g, rest),
            (FilterModel::Struct(es), Step::Field(n, l)) => if has_key(es[0], n, l) {
                descend(g, rest)
            } else {
                None
            },
            _ => None,
        }) by {
        lemma_descend_step(f, s, rest);
    }
    lemma_descend_step(f, s, Seq::empty());
    assert(seq![s] + Seq::<Step>::empty() =~= seq![s]);
}

/// Merges the filters of the first `n` paths, left to right.
pub open spec fn fold_paths(ps: Seq<Seq<EntryModel>>, language: Language, n: nat) -> Option<FilterModel>
    decreases n,
{
    if n <= 1 {
        Some(build_model(ps[0], language))
    } else {
        match fold_paths(ps, language, (n - 1) as nat) {
            Some(acc) => merge_model(acc, build_model(ps[n - 1], language)),
            None => None,
        }
    }
}

/// The filter that a filter string stands for: everything for `*`, nothing
/// (an empty struct) for no paths, and otherwise the merge of its paths'
/// filters; `None` when two paths disagree on array against struct.
pub open spec fn filter_of(m: FilterStringModel, language: Language) -> Option<FilterModel> {
    match m {
        FilterStringModel::All => Some(FilterModel::All),
        FilterStringModel::Paths(ps) => if ps.len() == 0 {
            Some(FilterModel::Struct(Seq::empty()))
        } else {
            fold_paths(ps, language, ps.len())
        },
    }
}


/// A character that stands for itself in a key: neither a backslash nor a
/// delimiter.
pub open spec fn plain_key_char(c: char) -> bool {
    c != '\\' && c != '@' && c != '[' && c != '.' && c != ','
}

proof fn lemma_scan_plain_key(s: Seq<char>, i: int, end: int)
    requires
        0 <= i <= end < s.len(),
        forall|j: int| i <= j < end ==> plain_key_char(#[trigger] s[j]),
        s[end] == '@',
    ensures
        scan_key(s, i) == Some((s.subrange(i, end), end)),
    decreases end - i,
{
    if i < end {
        lemma_scan_plain_key(s, i + 1, end);
        assert(seq![s[i]] + s.subrange(i + 1, end) =~= s.subrange(i, end));
    } else {
        assert(s.subrange(i, end) =~= Seq::<char>::empty());
    }
}

proof fn lemma_alphanumeric_to_end(s: Seq<char>, i: int)
    requires
        0 <= i <= s.len(),
        forall|j: int| i <= j < s.len() ==> is_ascii_alphanumeric(#[trigger] s[j]),
    ensures
        alphanumeric_end(s, i) == s.len(),
    decreases s.len() - i,
{
    if i < s.len() {
        lemma_alphanumeric_to_end(s, i + 1);
    }
}

/// A key written with a language suffix, `key@code`, names that key in that
/// language: the filter string reads as the one path holding that key and
/// language, and for every default language its filter is a struct whose
/// single entry is the key in the suffix's language, selecting everything
/// below it. (A key that starts with `*` reads as `*` instead.)
pub proof fn lemma_language_suffix_is_kept(key: Seq<char>, language: Language, default_language: Language)
    requires
        key.len() > 0,
        key[0] != '*',
        forall|j: int| 0 <= j < key.len() ==> plain_key_char(#[trigger] key[j]),
    ensures
        parse_filter(key + seq!['@'] + language_code(language)) == Ok::<FilterStringModel, Seq<char>>(
            FilterStringModel::Paths(seq![seq![EntryModel::Key(key, Some(language))]]),
        ),
        filter_of(FilterStringModel::Paths(seq![seq![EntryModel::Key(key, Some(language))]]), default_language)
            == Some(FilterModel::Struct(seq![(key, language, FilterModel::All)])),
{
    let code = language_code(language);
    let s = key + seq!['@'] + code;
    let end = key.len() as int;
    assert forall|j: int| 0 <= j < end implies plain_key_char(#[trigger] s[j]) by {
        assert(s[j] == key[j]);
    }
    lemma_scan_plain_key(s, 0, end);
    assert(s.subrange(0, end) =~= key);
    assert forall|j: int| end + 1 <= j < s.len() implies is_ascii_alphanumeric(#[trigger] s[j]) by {
        assert(s[j] == code[j - end - 1]);
    }
    lemma_alphanumeric_to_end(s, end + 1);
    assert(s.subrange(end + 1, s.len() as int) =~= code);
    lemma_language_code_roundtrip(language);
    assert(code.len() > 0);
    let path = seq![EntryModel::Key(key, Some(language))];
    assert(parse_key(s, 0) == Some((EntryModel::Key(key, Some(language)), s.len() as int)));
    assert(index_count(s, s.len() as int) == 0);
    assert(index_entries(0) =~= Seq::<EntryModel>::empty());
    assert(seq![EntryModel::Key(key, Some(language))] + index_entries(0) =~= path);
    assert(parse_part(s, 0) == Some((path, s.len() as int)));
    assert(parse_path(s, 0) == Some((path, s.len() as int)));
    assert(parse_path_list(s, 0) == Some((seq![path], s.len() as int)));
    assert(s[0] == key[0]);
    assert(path.drop_first() =~= Seq::<EntryModel>::empty());
    assert(build_model(path.drop_first(), default_language) == FilterModel::All);
    assert(build_model(path, default_language) == FilterModel::Struct(seq![(key, language, FilterModel::All)]));
    assert(seq![path][0] == path);
}

/// Whether a filter is the empty struct filter, which selects nothing below
/// the root.
pub open spec fn is_nothing(f: FilterModel) -> bool {
    f matches FilterModel::Struct(es) && es.len() == 0
}

proof fn lemma_merge_entries_len(
    ea: Seq<(Seq<char>, Language, FilterModel)>,
    eb: Seq<(Seq<char>, Language, FilterModel)>,
)
    ensures
        merge_entries(ea, eb) matches Some(r) ==> r.len() >= ea.len(),
    decreases eb.len(),
{
    if eb.len() > 0 {
        lemma_merge_entries_len(ea, eb.drop_last());
        if let Some(acc) = merge_entries(ea, eb.drop_last()) {
            lemma_find_key_from(acc, eb.last().0, eb.last().1, 0);
        }
    }
}

proof fn lemma_fold_paths_something(ps: Seq<Seq<EntryModel>>, language: Language, n: nat)
    ensures
        fold_paths(ps, language, n) matches Some(f) ==> !is_nothing(f),
    decreases n,
{
    if n > 1 {
        lemma_fold_paths_something(ps, language, (n - 1) as nat);
        if let Some(acc) = fold_paths(ps, language, (n - 1) as nat) {
            let last = build_model(ps[n - 1], language);
            if let (FilterModel::Struct(ea), FilterModel::Struct(eb)) = (acc, last) {
                lemma_merge_entries_len(ea, eb);
            }
        }
    }
}

/// A filter string lists no paths exactly when the filter it stands for, in
/// any default language, is the empty struct filter: `*` and every list of
/// paths select something.
pub proof fn lemma_empty_filter_string(m: FilterStringModel, language: Language)
    ensures
        (m matches FilterStringModel::Paths(ps) && ps.len() == 0) <==> (filter_of(m, language) matches Some(f)
            && is_nothing(f)),
{
    if let FilterStringModel::Paths(ps) = m {
        if ps.len() > 0 {
            lemma_fold_paths_something(ps, language, ps.len());
        }
    }
}

/// Merging the filters of the first `n` paths selects what any of those
/// paths' filters selects, and stays well-formed.
proof fn lemma_fold_paths_selects(ps: Seq<Seq<EntryModel>>, language: Language, n: nat)
    requires
        1 <= n <= ps.len(),
        fold_paths(ps, language, n) is Some,
    ensures
        wf(fold_paths(ps, language, n)->0),
        forall|p: Seq<Step>|
            #[trigger] selects(fold_paths(ps, language, n)->0, p) == exists|i: int|
                0 <= i < n && #[trigger] selects(build_model(ps[i], language), p),
    decreases n,
{
    let acc = fold_paths(ps, language, n)->0;
    if n == 1 {
        lemma_build_selects(ps[0], language, Seq::empty());
        assert forall|p: Seq<Step>|
            #[trigger] selects(acc, p) == exists|i: int|
                0 <= i < n && #[trigger] selects(build_model(ps[i], language), p) by {
            if selects(acc, p) {
                assert(selects(build_model(ps[0], language), p));
            }
        }
    } else {
        lemma_fold_paths_selects(ps, language, (n - 1) as nat);
        let prev = fold_paths(ps, language, (n - 1) as nat)->0;
        let last = build_model(ps[n - 1], language);
        lemma_build_selects(ps[n - 1], language, Seq::empty());
        lemma_merge_selects_union(prev, last);
        assert forall|p: Seq<Step>|
            #[trigger] selects(acc, p) == exists|i: int|
                0 <= i < n && #[trigger] selects(build_model(ps[i], language), p) by {
            assert(selects(acc, p) == (selects(prev, p) || selects(last, p)));
            if exists|i: int| 0 <= i < n && #[trigger] selects(build_model(ps[i], language), p) {
                let i = choose|i: int| 0 <= i < n && #[trigger] selects(build_model(ps[i], language), p);
                if i < n - 1 {
                    assert(selects(prev, p));
                }
            }
            if selects(last, p) {
                assert(selects(build_model(ps[n - 1], language), p));
            }
        }
    }
}

/// A filter string selects exactly the values that lie on the way to the end
/// of one of its paths, or anywhere below such an end (`*` selects
/// everything, and the root value is always selected); the filter it builds
/// lists each struct key at most once.
pub proof fn lemma_filter_string_selects(m: FilterStringModel, language: Language)
    requires
        filter_of(m, language) is Some,
    ensures
        wf(filter_of(m, language)->0),
        forall|p: Seq<Step>|
            #[trigger] selects(filter_of(m, language)->0, p) == match m {
                FilterStringModel::All => true,
                FilterStringModel::Paths(ps) => p.len() == 0 || exists|i: int|
                    0 <= i < ps.len() && (#[trigger] is_prefix(p, steps_of(ps[i], language)) || is_prefix(
                        steps_of(ps[i], language),
                        p,
                    )),
            },
{
    let f = filter_of(m, language)->0;
    match m {
        FilterStringModel::All => {
            assert forall|p: Seq<Step>| #[trigger] keys_unique_at(descend(f, p)) by {
                lemma_descend_all(p);
            }
            assert forall|p: Seq<Step>| #[trigger] selects(f, p) by {
                lemma_descend_all(p);
            }
            assert(f == FilterModel::All);
            assert(forall|p: Seq<Step>|
                #[trigger] selects(filter_of(m, language)->0, p) == match m {
                    FilterStringModel::All => true,
                    FilterStringModel::Paths(ps) => p.len() == 0 || exists|i: int|
                        0 <= i < ps.len() && (#[trigger] is_prefix(p, steps_of(ps[i], language))
                            || is_prefix(steps_of(ps[i], language), p)),
                });
        },
        FilterStringModel::Paths(ps) => {
            if ps.len() == 0 {
                assert forall|p: Seq<Step>| #[trigger] keys_unique_at(descend(f, p)) by {
                    if p.len() > 0 {
                        let pr = p.drop_first();
                        assert(p =~= seq![p[0]] + pr);
                        lemma_descend_step(f, p[0], pr);
                    }
                }
                assert forall|p: Seq<Step>|
                    #[trigger] selects(f, p) == (p.len() == 0 || exists|i: int|
                        0 <= i < ps.len() && (#[trigger] is_prefix(p, steps_of(ps[i], language))
                            || is_prefix(steps_of(ps[i], language), p))) by {
                    if p.len() > 0 {
                        let pr = p.drop_first();
                        assert(p =~= seq![p[0]] + pr);
                        lemma_descend_step(f, p[0], pr);
                        assert(find_key_from(Seq::<(Seq<char>, Language, FilterModel)>::empty(), Seq::empty(), Language::Neutral, 0) is None);
                    }
                }
                assert(forall|p: Seq<Step>|
                    #[trigger] selects(filter_of(m, language)->0, p) == match m {
                        FilterStringModel::All => true,
                        FilterStringModel::Paths(ps) => p.len() == 0 || exists|i: int|
                            0 <= i < ps.len() && (#[trigger] is_prefix(p, steps_of(ps[i], language))
                                || is_prefix(steps_of(ps[i], language), p)),
                    });
                assert(wf(f));
            } else {
                lemma_fold_paths_selects(ps, language, ps.len());
                assert forall|p: Seq<Step>|
                    #[trigger] selects(f, p) == (p.len() == 0 || exists|i: int|
                        0 <= i < ps.len() && (#[trigger] is_prefix(p, steps_of(ps[i], language))
                            || is_prefix(steps_of(ps[i], language), p))) by {
                    if exists|i: int| 0 <= i < ps.len() && #[trigger] selects(build_model(ps[i], language), p) {
                        let i = choose|i: int| 0 <= i < ps.len() && #[trigger] selects(build_model(ps[i], language), p);
                        lemma_build_selects(ps[i], language, p);
                    }
                    if exists|i: int|
                        0 <= i < ps.len() && (#[trigger] is_prefix(p, steps_of(ps[i], language))
                            || is_prefix(steps_of(ps[i], language), p)) {
                        let i = choose|i: int|
                            0 <= i < ps.len() && (#[trigger] is_prefix(p, steps_of(ps[i], language))
                                || is_prefix(steps_of(ps[i], language), p));
                        lemma_build_selects(ps[i], language, p);
                    }
                    if p.len() == 0 {
                        lemma_build_selects(ps[0], language, p);
                        assert(is_prefix(p, steps_of(ps[0], language)));
                    }
                }
                assert(forall|p: Seq<Step>|
                    #[trigger] selects(filter_of(m, language)->0, p) == match m {
                        FilterStringModel::All => true,
                        FilterStringModel::Paths(ps) => p.len() == 0 || exists|i: int|
                            0 <= i < ps.len() && (#[trigger] is_prefix(p, steps_of(ps[i], language))
                                || is_prefix(steps_of(ps[i], language), p)),
                    });
                assert(wf(f));
            }
        },
    }
}

/// A filter string, selecting fields within a row.
///
/// Filters are a comma-separated list of field paths: `a,b` selects the
/// fields `a` and `b`. A language may be given per field with an `@` suffix:
/// `a@ja` reads `a` in Japanese. Nested fields are selected with dots: `a.b`
/// selects `b` within the struct `a`. Arrays must be targeted to select within
/// them: `a[].b` selects `b` in every element of the array `a`. `*` selects
/// everything.
#[derive(Debug, Clone)]
pub struct FilterString(FilterStringInner);

impl View for FilterString {
    type V = FilterStringModel;

    closed spec fn view(&self) -> FilterStringModel {
        self.0.model()
    }
}

impl FilterString {
    /// Reads a filter string (see `parse_filter`). Text that the grammar does
    /// not fully consume is rejected with the message
    /// `error Eof at: <unread remainder>`.
    pub fn parse(input: &str) -> (out: Result<FilterString, Error>)
        ensures
            out is Ok <==> parse_filter(input@) is Ok,
            out matches Ok(f) ==> parse_filter(input@) == Ok::<FilterStringModel, Seq<char>>(f@),
            out matches Err(e) ==> (parse_filter(input@) matches Err(rest) && (e matches Error::Invalid(
                m,
            ) && m@ == parse_error_message(rest))),
    {
        let cs = chars_of(input);
        proof {
            lemma_parse_path_list_bounds(cs@, 0);
        }
        if cs.len() > 0 && cs[0] == '*' {
            if cs.len() == 1 {
                return Ok(FilterString(FilterStringInner::All));
            } else {
                return Err(parse_error(&cs, 1));
            }
        }
        match read_path_list(&cs, 0) {
            Some((paths, j)) => {
                if j == cs.len() {
                    Ok(FilterString(FilterStringInner::Paths(paths)))
                } else {
                    Err(parse_error(&cs, j))
                }
            },
            None => {
                if cs.len() == 0 {
                    let empty: Vec<Vec<Entry>> = Vec::new();
                    assert(paths_model(empty) =~= Seq::<Seq<EntryModel>>::empty());
                    Ok(FilterString(FilterStringInner::Paths(empty)))
                } else {
                    Err(parse_error(&cs, 0))
                }
            },
        }
    }

    /// Whether the filter string lists no paths at all.
    pub fn is_empty(&self) -> (out: bool)
        ensures
            out == (self@ matches FilterStringModel::Paths(ps) && ps.len() == 0),
    {
        match &self.0 {
            FilterStringInner::All => false,
            FilterStringInner::Paths(paths) => paths.len() == 0,
        }
    }

    /// The filter this string stands for (see `filter_of`), with keys that
    /// name no language read in `default_language`.
    pub fn to_filter(self, default_language: Language) -> (out: Result<Filter, Error>)
        ensures
            out is Ok <==> filter_of(self@, default_language) is Some,
            out matches Ok(f) ==> filter_of(self@, default_language) == Some(f.model()),
            out matches Err(e) ==> e matches Error::Invalid(m) && m@ == merge_error_message(),
    {
        let paths = match self.0 {
            FilterStringInner::All => {
                return Ok(Filter::All);
            },
            FilterStringInner::Paths(paths) => paths,
        };
        let ghost psm = paths_model(paths);
        let ghost n0 = paths@.len();
        if paths.len() == 0 {
            let empty: Vec<StructEntry> = Vec::new();
            proof {
                lemma_entries_model_ext(empty@, Seq::empty());
            }
            return Ok(Filter::Struct(empty));
        }
        assert(self@ == FilterStringModel::Paths(psm));
        let mut rest = paths;
        let first = rest.remove(0);
        assert(psm[0] == path_model(first));
        let mut output = build_filter(first, default_language);
        let mut k: usize = 1;
        while rest.len() > 0
            invariant
                1 <= k <= n0,
                psm.len() == n0,
                k + rest@.len() == n0,
                forall|i: int| 0 <= i < rest@.len() ==> psm[k + i] == path_model(#[trigger] rest@[i]),
                fold_paths(psm, default_language, k as nat) == Some(output.model()),
                self@ == FilterStringModel::Paths(psm),
                n0 <= usize::MAX,
            decreases rest@.len(),
        {
            let ghost before = rest@;
            let next = rest.remove(0);
            assert(psm[k as int] == path_model(next));
            let built = build_filter(next, default_language);
            match merge_filters(output, built) {
                Ok(merged) => {
                    output = merged;
                },
                Err(e) => {
                    proof {
                        lemma_fold_paths_fails(psm, default_language, (k + 1) as nat);
                    }
                    return Err(e);
                },
            }
            k = k + 1;
            assert forall|i: int| 0 <= i < rest@.len() implies psm[k + i] == path_model(
                #[trigger] rest@[i],
            ) by {
                assert(rest@[i] == before[i + 1]);
            }
        }
        Ok(output)
    }
}

/// Once merging the first `n` paths fails, merging more of them fails too.
pub proof fn lemma_fold_paths_fails(ps: Seq<Seq<EntryModel>>, language: Language, n: nat)
    requires
        1 <= n <= ps.len(),
        fold_paths(ps, language, n) is None,
    ensures
        fold_paths(ps, language, ps.len()) is None,
    decreases ps.len() - n,
{
    if n < ps.len() {
        lemma_fold_paths_fails(ps, language, n + 1);
    }
}

impl std::str::FromStr for FilterString {
    type Err = Error;

    /// Reads a filter string, as `FilterString::parse` does.
    fn from_str(input: &str) -> (out: Result<FilterString, Error>)
        ensures
            out is Ok <==> parse_filter(input@) is Ok,
            out matches Ok(f) ==> parse_filter(input@) == Ok::<FilterStringModel, Seq<char>>(f@),
            out matches Err(e) ==> (parse_filter(input@) matches Err(rest) && (e matches Error::Invalid(
                m,
            ) && m@ == parse_error_message(rest))),
    {
        FilterString::parse(input)
    }
}

// ---------------------------------------------------------------------------
// Facts about the grammar functions.
// ---------------------------------------------------------------------------

pub proof fn lemma_scan_key_bounds(s: Seq<char>, i: int)
    requires
        0 <= i <= s.len(),
    ensures
        scan_key(s, i) matches Some((k, e)) ==> i + k.len() <= e <= s.len(),
    decreases s.len() - i,
{
    if 0 <= i < s.len() {
        if s[i] == '\\' {
            if i + 1 < s.len() && is_escapable(s[i + 1]) {
                lemma_scan_key_bounds(s, i + 2);
            }
        } else if !is_key_delimiter(s[i]) {
            lemma_scan_key_bounds(s, i + 1);
        }
    }
}

pub proof fn lemma_alphanumeric_end_bounds(s: Seq<char>, i: int)
    requires
        0 <= i <= s.len(),
    ensures
        i <= alphanumeric_end(s, i) <= s.len(),
    decreases s.len() - i,
{
    if 0 <= i < s.len() && is_ascii_alphanumeric(s[i]) {
        lemma_alphanumeric_end_bounds(s, i + 1);
    }
}

pub proof fn lemma_index_count_bounds(s: Seq<char>, i: int)
    requires
        0 <= i <= s.len(),
    ensures
        i + 2 * index_count(s, i) <= s.len(),
    decreases s.len() - i,
{
    if 0 <= i && i + 1 < s.len() && s[i] == '[' && s[i + 1] == ']' {
        lemma_index_count_bounds(s, i + 2);
    }
}

pub proof fn lemma_parse_part_bounds(s: Seq<char>, i: int)
    requires
        0 <= i <= s.len(),
    ensures
        parse_part(s, i) matches Some((es, j)) ==> i < j <= s.len(),
{
    lemma_scan_key_bounds(s, i);
    if let Some((k, e)) = scan_key(s, i) {
        if 0 <= e < s.len() && s[e] == '@' {
            lemma_alphanumeric_end_bounds(s, e + 1);
        }
        if let Some((key, e2)) = parse_key(s, i) {
            lemma_index_count_bounds(s, e2);
        }
    }
}

pub proof fn lemma_parse_path_bounds(s: Seq<char>, i: int)
    requires
        0 <= i <= s.len(),
    ensures
        parse_path(s, i) matches Some((es, j)) ==> i < j <= s.len(),
    decreases s.len() - i,
{
    lemma_parse_part_bounds(s, i);
    if let Some((es, j)) = parse_part(s, i) {
        if i < j < s.len() && s[j] == '.' {
            lemma_parse_path_bounds(s, j + 1);
        }
    }
}

pub proof fn lemma_parse_path_list_bounds(s: Seq<char>, i: int)
    requires
        0 <= i <= s.len(),
    ensures
        parse_path_list(s, i) matches Some((ps, j)) ==> i < j <= s.len(),
    decreases s.len() - i,
{
    lemma_parse_path_bounds(s, i);
    if let Some((p, j)) = parse_path(s, i) {
        if i < j < s.len() && s[j] == ',' {
            lemma_parse_path_list_bounds(s, j + 1);
        }
    }
}

} // verus!
