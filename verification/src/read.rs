use vstd::prelude::*;

pub mod error;
pub mod reader;
pub mod value;

use crate::excel::{escaped, push_escaped};
use crate::language::{language_name, language_name_str, Language};
use vstd::string::StringExecFns;

verus! {

/// Selects the parts of a row that are read.
///
/// `Struct` lists, for each (field name, language) key, the filter to apply to
/// that field read in that language; a key occurs at most once. `Array`
/// applies its filter to every element. `All` selects everything below it.
#[derive(Debug, PartialEq)]
pub enum Filter {
    Struct(Vec<StructEntry>),
    Array(Box<Filter>),
    All,
}

/// One keyed entry of a struct filter.
#[derive(Debug, PartialEq)]
pub struct StructEntry {
    pub field: String,
    pub language: Language,
    pub filter: Filter,
}

/// The mathematical value of a filter.
pub enum FilterModel {
    Struct(Seq<(Seq<char>, Language, FilterModel)>),
    Array(Box<FilterModel>),
    All,
}

impl Filter {
    pub open spec fn model(self) -> FilterModel
        decreases self,
    {
        match self {
            Filter::Struct(v) => FilterModel::Struct(entries_model(v@)),
            Filter::Array(b) => FilterModel::Array(Box::new(b.model())),
            Filter::All => FilterModel::All,
        }
    }
}

pub open spec fn entries_model(s: Seq<StructEntry>) -> Seq<(Seq<char>, Language, FilterModel)>
    decreases s,
{
    if s.len() == 0 {
        Seq::empty()
    } else {
        let e = s.last();
        entries_model(s.drop_last()).push((e.field@, e.language, e.filter.model()))
    }
}

pub open spec fn entry_model(e: StructEntry) -> (Seq<char>, Language, FilterModel) {
    (e.field@, e.language, e.filter.model())
}

/// The model of a list of entries holds the model of each entry, in order.
pub proof fn lemma_entries_model(s: Seq<StructEntry>)
    ensures
        entries_model(s).len() == s.len(),
        forall|i: int| 0 <= i < s.len() ==> #[trigger] entries_model(s)[i] == entry_model(s[i]),
    decreases s.len(),
{
    if s.len() > 0 {
        lemma_entries_model(s.drop_last());
    }
}

/// Two entry lists have the same model when their entries have the same models.
pub proof fn lemma_entries_model_ext(s: Seq<StructEntry>, m: Seq<(Seq<char>, Language, FilterModel)>)
    requires
        s.len() == m.len(),
        forall|i: int| 0 <= i < s.len() ==> entry_model(#[trigger] s[i]) == m[i],
    ensures
        entries_model(s) == m,
{
    lemma_entries_model(s);
    assert(entries_model(s) =~= m);
}

// ---------------------------------------------------------------------------
// Keys of struct filters.
// ---------------------------------------------------------------------------

pub open spec fn has_key(e: (Seq<char>, Language, FilterModel), name: Seq<char>, language: Language) -> bool {
    e.0 == name && e.1 == language
}

/// The first position at or after `i` whose entry has the given key.
pub open spec fn find_key_from(
    es: Seq<(Seq<char>, Language, FilterModel)>,
    name: Seq<char>,
    language: Language,
    i: int,
) -> Option<int>
    decreases es.len() - i,
{
    if !(0 <= i < es.len()) {
        None
    } else if has_key(es[i], name, language) {
        Some(i)
    } else {
        find_key_from(es, name, language, i + 1)
    }
}

/// The first position whose entry has the given key.
pub open spec fn find_key(es: Seq<(Seq<char>, Language, FilterModel)>, name: Seq<char>, language: Language) -> Option<int> {
    find_key_from(es, name, language, 0)
}

pub proof fn lemma_find_key_from(
    es: Seq<(Seq<char>, Language, FilterModel)>,
    name: Seq<char>,
    language: Language,
    i: int,
)
    requires
        0 <= i,
    ensures
        find_key_from(es, name, language, i) matches Some(k) ==> i <= k < es.len() && has_key(
            es[k],
            name,
            language,
        ) && forall|j: int| i <= j < k ==> !has_key(#[trigger] es[j], name, language),
        find_key_from(es, name, language, i) is None ==> forall|j: int|
            i <= j < es.len() ==> !has_key(#[trigger] es[j], name, language),
    decreases es.len() - i,
{
    if 0 <= i < es.len() && !has_key(es[i], name, language) {
        lemma_find_key_from(es, name, language, i + 1);
    }
}

/// Keys of the entry list are pairwise distinct.
pub open spec fn unique_keys(es: Seq<(Seq<char>, Language, FilterModel)>) -> bool {
    forall|i: int, j: int|
        #![trigger es[i], es[j]]
        0 <= i < j < es.len() ==> !has_key(es[j], es[i].0, es[i].1)
}

// ---------------------------------------------------------------------------
// Merging filters.
// ---------------------------------------------------------------------------

/// The filter that selects what either `a` or `b` selects: `All` absorbs,
/// arrays merge their element filters, structs merge key by key (the entries
/// of `b` are folded into those of `a` in order). Merging an array filter
/// with a struct filter, anywhere, fails.
pub open spec fn merge_model(a: FilterModel, b: FilterModel) -> Option<FilterModel>
    decreases b,
{
    match (a, b) {
        (FilterModel::All, _) => Some(FilterModel::All),
        (_, FilterModel::All) => Some(FilterModel::All),
        (FilterModel::Array(x), FilterModel::Array(y)) => match merge_model(*x, *y) {
            Some(m) => Some(FilterModel::Array(Box::new(m))),
            None => None,
        },
        (FilterModel::Struct(ea), FilterModel::Struct(eb)) => match merge_entries(ea, eb) {
            Some(es) => Some(FilterModel::Struct(es)),
            None => None,
        },
        _ => None,
    }
}

/// Folds the entries `eb` into `ea`: a key already present has its filter
/// merged in place, a new key is appended.
pub open spec fn merge_entries(
    ea: Seq<(Seq<char>, Language, FilterModel)>,
    eb: Seq<(Seq<char>, Language, FilterModel)>,
) -> Option<Seq<(Seq<char>, Language, FilterModel)>>
    decreases eb,
{
    if eb.len() == 0 {
        Some(ea)
    } else {
        match merge_entries(ea, eb.drop_last()) {
            None => None,
            Some(acc) => {
                let e = eb.last();
                match find_key(acc, e.0, e.1) {
                    Some(i) => match merge_model(acc[i].2, e.2) {
                        Some(m) => Some(acc.update(i, (e.0, e.1, m))),
                        None => None,
                    },
                    None => Some(acc.push(e)),
                }
            },
        }
    }
}


// ---------------------------------------------------------------------------
// What a filter selects.
// ---------------------------------------------------------------------------

/// One step down a row's structure: into a field read in a language, or into
/// the elements of an array.
pub enum Step {
    Field(Seq<char>, Language),
    Element,
}

/// The filter of the entry with the given key, if any.
pub open spec fn lookup(es: Seq<(Seq<char>, Language, FilterModel)>, name: Seq<char>, language: Language) -> Option<FilterModel> {
    match find_key(es, name, language) {
        Some(i) => Some(es[i].2),
        None => None,
    }
}

/// The part of the filter that applies at the end of `path`, if the filter
/// reaches that far; below `All`, everything is reached.
pub open spec fn descend(f: FilterModel, path: Seq<Step>) -> Option<FilterModel>
    decreases path.len(),
{
    if path.len() == 0 {
        Some(f)
    } else {
        match f {
            FilterModel::All => Some(FilterModel::All),
            FilterModel::Array(x) => match path[0] {
                Step::Element => descend(*x, path.drop_first()),
                Step::Field(_, _) => None,
            },
            FilterModel::Struct(es) => match path[0] {
                Step::Field(n, l) => match lookup(es, n, l) {
                    Some(g) => descend(g, path.drop_first()),
                    None => None,
                },
                Step::Element => None,
            },
        }
    }
}

/// Whether the filter selects the value at the end of `path`.
pub open spec fn selects(f: FilterModel, path: Seq<Step>) -> bool {
    descend(f, path) is Some
}

/// Well-formed filters list each key at most once in every struct.
pub open spec fn wf(f: FilterModel) -> bool {
    forall|path: Seq<Step>| #[trigger] keys_unique_at(descend(f, path))
}

/// A struct filter, if one is given, lists each key at most once.
pub open spec fn keys_unique_at(x: Option<FilterModel>) -> bool {
    match x {
        Some(FilterModel::Struct(es)) => unique_keys(es),
        _ => true,
    }
}

/// Two filters disagree on the kind of value at the same place.
pub open spec fn clash(x: Option<FilterModel>, y: Option<FilterModel>) -> bool {
    ||| (x matches Some(FilterModel::Array(_)) && y matches Some(FilterModel::Struct(_)))
    ||| (x matches Some(FilterModel::Struct(_)) && y matches Some(FilterModel::Array(_)))
}

/// Descending one step, then the rest, is descending along the whole path.
pub proof fn lemma_descend_step(f: FilterModel, s: Step, rest: Seq<Step>)
    ensures
        descend(f, seq![s] + rest) == match f {
            FilterModel::All => Some(FilterModel::All),
            FilterModel::Array(x) => match s {
                Step::Element => descend(*x, rest),
                Step::Field(_, _) => None,
            },
            FilterModel::Struct(es) => match s {
                Step::Field(n, l) => match lookup(es, n, l) {
                    Some(g) => descend(g, rest),
                    None => None,
                },
                Step::Element => None,
            },
        },
{
    assert((seq![s] + rest).drop_first() =~= rest);
    assert((seq![s] + rest)[0] == s);
}

/// Below `All`, everything is reached.
pub proof fn lemma_descend_all(path: Seq<Step>)
    ensures
        descend(FilterModel::All, path) == Some(FilterModel::All),
{
}

/// The filters met below a well-formed filter are well-formed.
pub proof fn lemma_wf_step(f: FilterModel, s: Step, g: FilterModel)
    requires
        wf(f),
        descend(f, seq![s]) == Some(g),
    ensures
        wf(g),
{
    assert forall|path: Seq<Step>| #[trigger] keys_unique_at(descend(g, path)) by {
        lemma_descend_step(f, s, path);
        lemma_descend_step(f, s, Seq::empty());
        assert(seq![s] + Seq::<Step>::empty() =~= seq![s]);
        if let FilterModel::All = f {
            lemma_descend_all(path);
        }
        assert(descend(f, seq![s] + path) == descend(g, path));
        assert(keys_unique_at(descend(f, seq![s] + path)));
    }
}

/// In a list with distinct keys, an entry with the key is the one found.
pub proof fn lemma_find_unique(es: Seq<(Seq<char>, Language, FilterModel)>, name: Seq<char>, language: Language, i: int)
    requires
        unique_keys(es),
        0 <= i < es.len(),
        has_key(es[i], name, language),
    ensures
        find_key(es, name, language) == Some(i),
{
    lemma_find_key_from(es, name, language, 0);
    match find_key(es, name, language) {
        Some(k) => {
            if k < i {
                assert(has_key(es[i], es[k].0, es[k].1));
            }
        },
        None => {},
    }
}

/// A key is found exactly when some entry has it.
pub proof fn lemma_find_some(es: Seq<(Seq<char>, Language, FilterModel)>, name: Seq<char>, language: Language)
    ensures
        find_key(es, name, language) matches Some(i) ==> 0 <= i < es.len() && has_key(es[i], name, language),
        find_key(es, name, language) is None <==> forall|j: int| 0 <= j < es.len() ==> !has_key(#[trigger] es[j], name, language),
{
    lemma_find_key_from(es, name, language, 0);
}

/// What folding `eb` into `ea` gives for each key: the merge of both filters
/// when both have the key, and otherwise the filter of whichever has it.
pub open spec fn merged_lookup(x: Option<FilterModel>, y: Option<FilterModel>) -> Option<FilterModel> {
    match (x, y) {
        (Some(u), Some(v)) => merge_model(u, v),
        (Some(u), None) => Some(u),
        (None, Some(v)) => Some(v),
        (None, None) => None,
    }
}

/// Folding entry lists with distinct keys yields distinct keys, and each key
/// maps to what `merged_lookup` says.
pub proof fn lemma_merge_entries(
    ea: Seq<(Seq<char>, Language, FilterModel)>,
    eb: Seq<(Seq<char>, Language, FilterModel)>,
)
    requires
        unique_keys(ea),
        unique_keys(eb),
        merge_entries(ea, eb) is Some,
    ensures
        unique_keys(merge_entries(ea, eb)->0),
        forall|n: Seq<char>, l: Language|
            #[trigger] lookup(merge_entries(ea, eb)->0, n, l) == merged_lookup(
                lookup(ea, n, l),
                lookup(eb, n, l),
            ),
        forall|n: Seq<char>, l: Language|
            (lookup(ea, n, l) is Some || lookup(eb, n, l) is Some) ==> #[trigger] lookup(
                merge_entries(ea, eb)->0,
                n,
                l,
            ) is Some,
    decreases eb.len(),
{
    if eb.len() == 0 {
        assert forall|n: Seq<char>, l: Language|
            #[trigger] lookup(merge_entries(ea, eb)->0, n, l) == merged_lookup(
                lookup(ea, n, l),
                lookup(eb, n, l),
            ) && ((lookup(ea, n, l) is Some || lookup(eb, n, l) is Some) ==> lookup(
                merge_entries(ea, eb)->0,
                n,
                l,
            ) is Some) by {
            lemma_find_some(eb, n, l);
        }
    } else {
        let prefix = eb.drop_last();
        let e = eb.last();
        assert(unique_keys(prefix)) by {
            assert forall|i: int, j: int|
                #![trigger prefix[i], prefix[j]]
                0 <= i < j < prefix.len() implies !has_key(prefix[j], prefix[i].0, prefix[i].1) by {
                assert(prefix[i] == eb[i] && prefix[j] == eb[j]);
            }
        }
        lemma_merge_entries(ea, prefix);
        let acc = merge_entries(ea, prefix)->0;
        let er = merge_entries(ea, eb)->0;
        lemma_find_some(acc, e.0, e.1);
        // The last key of `eb` appears nowhere earlier in `eb`.
        assert forall|j: int| 0 <= j < prefix.len() implies !has_key(#[trigger] prefix[j], e.0, e.1) by {
            assert(prefix[j] == eb[j]);
            assert(e == eb[eb.len() - 1]);
        }
        lemma_find_some(prefix, e.0, e.1);
        lemma_find_unique(eb, e.0, e.1, eb.len() - 1);
        match find_key(acc, e.0, e.1) {
            Some(i) => {
                let m = merge_model(acc[i].2, e.2)->0;
                assert(er == acc.update(i, (e.0, e.1, m)));
                assert(unique_keys(er)) by {
                    assert forall|x: int, y: int|
                        #![trigger er[x], er[y]]
                        0 <= x < y < er.len() implies !has_key(er[y], er[x].0, er[x].1) by {
                        assert(acc[x].0 == er[x].0 && acc[x].1 == er[x].1);
                        assert(acc[y].0 == er[y].0 && acc[y].1 == er[y].1);
                    }
                }
                assert forall|n: Seq<char>, l: Language|
                    #[trigger] lookup(er, n, l) == merged_lookup(lookup(ea, n, l), lookup(eb, n, l))
                        && ((lookup(ea, n, l) is Some || lookup(eb, n, l) is Some) ==> lookup(er, n, l) is Some) by {
                    lemma_find_some(acc, n, l);
                    lemma_find_some(er, n, l);
                    lemma_find_some(prefix, n, l);
                    lemma_find_some(eb, n, l);
                    assert(lookup(acc, n, l) == merged_lookup(lookup(ea, n, l), lookup(prefix, n, l)));
                    if n == e.0 && l == e.1 {
                        lemma_find_unique(er, n, l, i);
                        assert(lookup(prefix, n, l) is None);
                        assert(lookup(eb, n, l) == Some(e.2));
                    } else {
                        match find_key(acc, n, l) {
                            Some(k) => {
                                lemma_find_unique(er, n, l, k);
                            },
                            None => {
                                assert forall|j: int| 0 <= j < er.len() implies !has_key(#[trigger] er[j], n, l) by {
                                    if j != i {
                                        assert(er[j] == acc[j]);
                                    }
                                }
                            },
                        }
                        match find_key(prefix, n, l) {
                            Some(k) => {
                                assert(prefix[k] == eb[k]);
                                lemma_find_unique(eb, n, l, k);
                            },
                            None => {
                                assert forall|j: int| 0 <= j < eb.len() implies !has_key(#[trigger] eb[j], n, l) by {
                                    if j < prefix.len() {
                                        assert(prefix[j] == eb[j]);
                                    }
                                }
                            },
                        }
                    }
                }
            },
            None => {
                assert(er == acc.push(e));
                assert(unique_keys(er)) by {
                    assert forall|x: int, y: int|
                        #![trigger er[x], er[y]]
                        0 <= x < y < er.len() implies !has_key(er[y], er[x].0, er[x].1) by {
                        if y == acc.len() {
                            assert(er[x] == acc[x]);
                            assert(!has_key(acc[x], e.0, e.1));
                        } else {
                            assert(er[x] == acc[x] && er[y] == acc[y]);
                        }
                    }
                }
                assert forall|n: Seq<char>, l: Language|
                    #[trigger] lookup(er, n, l) == merged_lookup(lookup(ea, n, l), lookup(eb, n, l))
                        && ((lookup(ea, n, l) is Some || lookup(eb, n, l) is Some) ==> lookup(er, n, l) is Some) by {
                    lemma_find_some(acc, n, l);
                    lemma_find_some(er, n, l);
                    lemma_find_some(prefix, n, l);
                    lemma_find_some(eb, n, l);
                    assert(lookup(acc, n, l) == merged_lookup(lookup(ea, n, l), lookup(prefix, n, l)));
                    if n == e.0 && l == e.1 {
                        lemma_find_unique(er, n, l, acc.len() as int);
                        assert(lookup(prefix, n, l) is None);
                        assert(lookup(eb, n, l) == Some(e.2));
                        assert(lookup(ea, n, l) is None);
                    } else {
                        match find_key(acc, n, l) {
                            Some(k) => {
                                assert(er[k] == acc[k]);
                                lemma_find_unique(er, n, l, k);
                            },
                            None => {
                                assert forall|j: int| 0 <= j < er.len() implies !has_key(#[trigger] er[j], n, l) by {
                                    if j < acc.len() {
                                        assert(er[j] == acc[j]);
                                    }
                                }
                            },
                        }
                        match find_key(prefix, n, l) {
                            Some(k) => {
                                assert(prefix[k] == eb[k]);
                                lemma_find_unique(eb, n, l, k);
                            },
                            None => {
                                assert forall|j: int| 0 <= j < eb.len() implies !has_key(#[trigger] eb[j], n, l) by {
                                    if j < prefix.len() {
                                        assert(prefix[j] == eb[j]);
                                    }
                                }
                            },
                        }
                    }
                }
            },
        }
    }
}


/// Along any path, the merge of two well-formed filters selects exactly what
/// either of them selects, and lists each struct key at most once.
pub proof fn lemma_merge_path(a: FilterModel, b: FilterModel, path: Seq<Step>)
    requires
        wf(a),
        wf(b),
        merge_model(a, b) is Some,
    ensures
        selects(merge_model(a, b)->0, path) == (selects(a, path) || selects(b, path)),
        keys_unique_at(descend(merge_model(a, b)->0, path)),
        !clash(descend(a, path), descend(b, path)),
    decreases b,
{
    let r = merge_model(a, b)->0;
    assert(keys_unique_at(descend(a, Seq::empty())));
    assert(keys_unique_at(descend(b, Seq::empty())));
    if let FilterModel::All = a {
        lemma_descend_all(path);
        return;
    }
    if let FilterModel::All = b {
        lemma_descend_all(path);
        return;
    }
    match (a, b) {
        (FilterModel::Array(x), FilterModel::Array(y)) => {
            let m = merge_model(*x, *y)->0;
            lemma_descend_step(a, Step::Element, Seq::empty());
            lemma_descend_step(b, Step::Element, Seq::empty());
            assert(seq![Step::Element] + Seq::<Step>::empty() =~= seq![Step::Element]);
            lemma_wf_step(a, Step::Element, *x);
            lemma_wf_step(b, Step::Element, *y);
            if path.len() > 0 {
                let rest = path.drop_first();
                assert(path =~= seq![path[0]] + rest);
                lemma_descend_step(a, path[0], rest);
                lemma_descend_step(b, path[0], rest);
                lemma_descend_step(r, path[0], rest);
                if let Step::Element = path[0] {
                    lemma_merge_path(*x, *y, rest);
                }
            }
        },
        (FilterModel::Struct(ea), FilterModel::Struct(eb)) => {
            lemma_merge_entries(ea, eb);
            let er = merge_entries(ea, eb)->0;
            if path.len() > 0 {
                let rest = path.drop_first();
                assert(path =~= seq![path[0]] + rest);
                lemma_descend_step(a, path[0], rest);
                lemma_descend_step(b, path[0], rest);
                lemma_descend_step(r, path[0], rest);
                if let Step::Field(n, l) = path[0] {
                    assert(lookup(er, n, l) == merged_lookup(lookup(ea, n, l), lookup(eb, n, l)));
                    lemma_descend_step(a, path[0], Seq::empty());
                    lemma_descend_step(b, path[0], Seq::empty());
                    lemma_descend_step(r, path[0], Seq::empty());
                    assert(seq![path[0]] + Seq::<Step>::empty() =~= seq![path[0]]);
                    match (lookup(ea, n, l), lookup(eb, n, l)) {
                        (Some(u), Some(v)) => {
                            lemma_wf_step(a, path[0], u);
                            lemma_wf_step(b, path[0], v);
                            lemma_find_some(eb, n, l);
                            let i = find_key(eb, n, l)->0;
                            assert(decreases_to!(b => eb));
                            assert(decreases_to!(eb => eb[i]));
                            assert(decreases_to!(eb[i] => eb[i].2));
                            lemma_merge_path(u, v, rest);
                        },
                        (Some(u), None) => {
                            lemma_wf_step(a, path[0], u);
                            assert(keys_unique_at(descend(u, rest)));
                        },
                        (None, Some(v)) => {
                            lemma_wf_step(b, path[0], v);
                            assert(keys_unique_at(descend(v, rest)));
                        },
                        (None, None) => {},
                    }
                }
            }
        },
        _ => {},
    }
}

/// Merging two well-formed filters selects exactly what either selects, and
/// the result is well-formed.
pub proof fn lemma_merge_selects_union(a: FilterModel, b: FilterModel)
    requires
        wf(a),
        wf(b),
        merge_model(a, b) is Some,
    ensures
        wf(merge_model(a, b)->0),
        forall|path: Seq<Step>|
            #[trigger] selects(merge_model(a, b)->0, path) == (selects(a, path) || selects(b, path)),
{
    assert forall|path: Seq<Step>|
        #[trigger] selects(merge_model(a, b)->0, path) == (selects(a, path) || selects(b, path)) by {
        lemma_merge_path(a, b, path);
    }
    assert forall|path: Seq<Step>| #[trigger] keys_unique_at(descend(merge_model(a, b)->0, path)) by {
        lemma_merge_path(a, b, path);
    }
}


/// When folding entry lists with distinct keys fails, some key is present in
/// both and its two filters fail to merge.
pub proof fn lemma_merge_entries_fails(
    ea: Seq<(Seq<char>, Language, FilterModel)>,
    eb: Seq<(Seq<char>, Language, FilterModel)>,
) -> (key: (Seq<char>, Language))
    requires
        unique_keys(ea),
        unique_keys(eb),
        merge_entries(ea, eb) is None,
    ensures
        lookup(ea, key.0, key.1) is Some,
        lookup(eb, key.0, key.1) is Some,
        find_key(eb, key.0, key.1) is Some,
        merge_model(lookup(ea, key.0, key.1)->0, lookup(eb, key.0, key.1)->0) is None,
    decreases eb.len(),
{
    let prefix = eb.drop_last();
    let e = eb.last();
    assert(unique_keys(prefix)) by {
        assert forall|i: int, j: int|
            #![trigger prefix[i], prefix[j]]
            0 <= i < j < prefix.len() implies !has_key(prefix[j], prefix[i].0, prefix[i].1) by {
            assert(prefix[i] == eb[i] && prefix[j] == eb[j]);
        }
    }
    match merge_entries(ea, prefix) {
        None => {
            let key = lemma_merge_entries_fails(ea, prefix);
            lemma_find_some(prefix, key.0, key.1);
            let k = find_key(prefix, key.0, key.1)->0;
            assert(prefix[k] == eb[k]);
            lemma_find_unique(eb, key.0, key.1, k);
            key
        },
        Some(acc) => {
            lemma_merge_entries(ea, prefix);
            lemma_find_some(acc, e.0, e.1);
            assert forall|j: int| 0 <= j < prefix.len() implies !has_key(#[trigger] prefix[j], e.0, e.1) by {
                assert(prefix[j] == eb[j]);
                assert(e == eb[eb.len() - 1]);
            }
            lemma_find_some(prefix, e.0, e.1);
            lemma_find_unique(eb, e.0, e.1, eb.len() - 1);
            assert(lookup(acc, e.0, e.1) == merged_lookup(lookup(ea, e.0, e.1), lookup(prefix, e.0, e.1)));
            (e.0, e.1)
        },
    }
}

/// When merging two well-formed filters fails, some path leads to an array
/// filter in one and a struct filter in the other.
pub proof fn lemma_merge_fails_clash(a: FilterModel, b: FilterModel) -> (path: Seq<Step>)
    requires
        wf(a),
        wf(b),
        merge_model(a, b) is None,
    ensures
        clash(descend(a, path), descend(b, path)),
    decreases b,
{
    assert(keys_unique_at(descend(a, Seq::empty())));
    assert(keys_unique_at(descend(b, Seq::empty())));
    match (a, b) {
        (FilterModel::Array(x), FilterModel::Array(y)) => {
            lemma_descend_step(a, Step::Element, Seq::empty());
            lemma_descend_step(b, Step::Element, Seq::empty());
            assert(seq![Step::Element] + Seq::<Step>::empty() =~= seq![Step::Element]);
            lemma_wf_step(a, Step::Element, *x);
            lemma_wf_step(b, Step::Element, *y);
            let q = lemma_merge_fails_clash(*x, *y);
            lemma_descend_step(a, Step::Element, q);
            lemma_descend_step(b, Step::Element, q);
            seq![Step::Element] + q
        },
        (FilterModel::Struct(ea), FilterModel::Struct(eb)) => {
            let key = lemma_merge_entries_fails(ea, eb);
            let s = Step::Field(key.0, key.1);
            let u = lookup(ea, key.0, key.1)->0;
            let v = lookup(eb, key.0, key.1)->0;
            lemma_descend_step(a, s, Seq::empty());
            lemma_descend_step(b, s, Seq::empty());
            assert(seq![s] + Seq::<Step>::empty() =~= seq![s]);
            lemma_wf_step(a, s, u);
            lemma_wf_step(b, s, v);
            lemma_find_some(eb, key.0, key.1);
            let i = find_key(eb, key.0, key.1)->0;
            assert(decreases_to!(b => eb));
            assert(decreases_to!(eb => eb[i]));
            assert(decreases_to!(eb[i] => eb[i].2));
            let q = lemma_merge_fails_clash(u, v);
            lemma_descend_step(a, s, q);
            lemma_descend_step(b, s, q);
            seq![s] + q
        },
        _ => Seq::empty(),
    }
}

/// Merging two well-formed filters fails exactly when, along some path, one
/// filter expects an array and the other a struct.
pub proof fn lemma_merge_fails_iff_clash(a: FilterModel, b: FilterModel)
    requires
        wf(a),
        wf(b),
    ensures
        merge_model(a, b) is None <==> exists|path: Seq<Step>| #[trigger] clash(descend(a, path), descend(b, path)),
{
    if merge_model(a, b) is None {
        let path = lemma_merge_fails_clash(a, b);
        assert(clash(descend(a, path), descend(b, path)));
    } else {
        assert forall|path: Seq<Step>| !#[trigger] clash(descend(a, path), descend(b, path)) by {
            lemma_merge_path(a, b, path);
        }
    }
}

/// Once folding a prefix of `eb` fails, folding all of `eb` fails.
pub proof fn lemma_merge_entries_prefix_fails(
    ea: Seq<(Seq<char>, Language, FilterModel)>,
    eb: Seq<(Seq<char>, Language, FilterModel)>,
    k: int,
)
    requires
        0 <= k <= eb.len(),
        merge_entries(ea, eb.take(k)) is None,
    ensures
        merge_entries(ea, eb) is None,
    decreases eb.len() - k,
{
    if k < eb.len() {
        assert(eb.take(k + 1).drop_last() =~= eb.take(k));
        lemma_merge_entries_prefix_fails(ea, eb, k + 1);
    } else {
        assert(eb.take(k) =~= eb);
    }
}

// ---------------------------------------------------------------------------
// Describing filters.
// ---------------------------------------------------------------------------

/// How a filter is described in messages: `All`, `Array(..)` around the
/// element filter, or `Struct({..})` around its entries, each written as the
/// quoted field name, `@`, the language's name, `: ` and the entry's filter,
/// separated by `, `.
pub open spec fn filter_text(f: FilterModel) -> Seq<char>
    decreases f, 0int,
{
    match f {
        FilterModel::All => "All"@,
        FilterModel::Array(inner) => "Array("@ + filter_text(*inner) + ")"@,
        FilterModel::Struct(es) => "Struct({"@ + entries_text(es) + "})"@,
    }
}

pub open spec fn entries_text(es: Seq<(Seq<char>, Language, FilterModel)>) -> Seq<char>
    decreases es, 1int,
{
    if es.len() == 0 {
        Seq::empty()
    } else {
        let e = es.last();
        proof {
            assert(decreases_to!(es => es.last()));
        }
        let before = entries_text(es.drop_last());
        let separated = if es.len() > 1 {
            before + ", "@
        } else {
            before
        };
        separated + "\""@ + escaped(e.0) + "\"@"@ + language_name(e.1) + ": "@ + filter_text(e.2)
    }
}

impl Filter {
    /// A description of this filter for messages.
    pub fn describe(&self) -> (out: String)
        ensures
            out@ == filter_text(self.model()),
    {
        let mut out = String::new();
        push_filter(&mut out, self);
        out
    }
}

/// Appends the description of a filter.
#[verifier::spinoff_prover]
#[verifier::rlimit(40)]
fn push_filter(out: &mut String, f: &Filter)
    ensures
        final(out)@ == old(out)@ + filter_text(f.model()),
    decreases f,
{
    match f {
        Filter::All => out.append("All"),
        Filter::Array(inner) => {
            proof {
                assert(decreases_to!(*f => *inner));
            }
            out.append("Array(");
            push_filter(out, &**inner);
            out.append(")");
        },
        Filter::Struct(entries) => {
            let ghost start = out@;
            let ghost m = entries_model(entries@);
            proof {
                lemma_entries_model(entries@);
            }
            out.append("Struct({");
            proof {
                assert(decreases_to!(*f => *entries));
                assert forall|j: int| 0 <= j < entries@.len() implies decreases_to!(
                    *f => #[trigger] entries@[j].filter
                ) by {
                    assert(decreases_to!(*entries => entries@));
                    assert(decreases_to!(entries@ => entries@[j]));
                    assert(decreases_to!(entries@[j] => entries@[j].filter));
                }
            }
            let mut i: usize = 0;
            while i < entries.len()
                invariant
                    i <= entries@.len(),
                    forall|j: int| 0 <= j < entries@.len() ==> decreases_to!(*f => #[trigger] entries@[j].filter),
                    m == entries_model(entries@),
                    m.len() == entries@.len(),
                    forall|j: int| 0 <= j < entries@.len() ==> #[trigger] m[j] == entry_model(entries@[j]),
                    out@ == start + "Struct({"@ + entries_text(m.take(i as int)),
                decreases entries@.len() - i,
            {
                let ghost before = out@;
                let e = &entries[i];
                let ghost piece = (if i > 0 { ", "@ } else { Seq::<char>::empty() }) + "\""@ + escaped(e.field@)
                    + "\"@"@ + language_name(e.language) + ": "@ + filter_text(e.filter.model());
                proof {
                    let t = m.take(i + 1);
                    assert(t.drop_last() =~= m.take(i as int));
                    assert(t.last() == m[i as int]);
                    assert(m[i as int] == entry_model(entries@[i as int]));
                    assert(entries_text(t) =~= entries_text(m.take(i as int)) + piece);
                }
                if i > 0 {
                    out.append(", ");
                }
                out.append("\"");
                push_escaped(out, e.field.as_str());
                out.append("\"@");
                out.append(language_name_str(e.language));
                out.append(": ");
                push_filter(out, &e.filter);
                assert(out@ =~= before + piece);
                i = i + 1;
            }
            assert(m.take(entries@.len() as int) =~= m);
            out.append("})");
        },
    }
}

} // verus!
