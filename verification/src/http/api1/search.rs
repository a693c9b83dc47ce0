use vstd::prelude::*;

use crate::http::api1::error::Error;
use crate::http::api1::filter::{filter_of, merge_error_message, FilterString};
use crate::http::api1::read::{chosen, string_model};
use crate::excel::SheetKind;
use crate::language::Language;
use crate::read::Filter;
use crate::schema::CanonicalSpecifier;
use crate::search::pre;
use crate::text::{split_at_commas, split_commas, strings_view};
use crate::version::VersionKey;
use vstd::string::StringExecFns;

verus! {

/// A query-based search: what to search for, in which sheets, against which
/// version and schema.
#[derive(Debug)]
pub struct SearchRequestQuery {
    pub version: VersionKey,
    pub query: pre::Node,
    pub language: Language,
    /// The sheets to search, each named once.
    pub sheets: Option<Vec<String>>,
    pub schema: CanonicalSpecifier,
}

/// A request to the search service: continue an earlier search, or run a
/// query.
#[derive(Debug)]
pub enum Request {
    /// A cursor: a UUID, by its 128 bits.
    Cursor(u128),
    Query(SearchRequestQuery),
}

/// The names in order, each kept at its first place only.
pub open spec fn distinct(names: Seq<Seq<char>>) -> Seq<Seq<char>>
    decreases names.len(),
{
    if names.len() == 0 {
        Seq::empty()
    } else {
        let earlier = distinct(names.drop_last());
        if earlier.contains(names.last()) {
            earlier
        } else {
            earlier.push(names.last())
        }
    }
}

/// The search request that the parameters describe: a cursor takes
/// priority; otherwise a query and a comma-separated list of sheets are
/// both needed.
pub fn search_request(
    cursor: Option<u128>,
    query: Option<pre::Node>,
    sheets: Option<&str>,
    version: VersionKey,
    language: Language,
    schema: CanonicalSpecifier,
) -> (out: Result<Request, Error>)
    ensures
        cursor is Some ==> out == Ok::<Request, Error>(Request::Cursor(cursor->Some_0)),
        cursor is None && query is None ==> (out matches Err(Error::Invalid(m)) && m@
            == "search queries must contain a query or cursor"@),
        cursor is None && query is Some && sheets is None ==> (out matches Err(Error::Invalid(m)) && m@
            == "query-based searches must specify a list of sheets to search"@),
        cursor is None && query is Some && sheets is Some ==> (out matches Ok(Request::Query(q)) && q.version
            == version && q.query == query->Some_0 && q.language == language && q.schema == schema && (q.sheets matches Some(
            v) && strings_view(v@) == distinct(split_commas(sheets->Some_0@)))),
{
    if let Some(cursor) = cursor {
        return Ok(Request::Cursor(cursor));
    }
    let query = match query {
        None => return Err(Error::Invalid("search queries must contain a query or cursor".to_owned())),
        Some(q) => q,
    };
    let sheets = match sheets {
        None => return Err(
            Error::Invalid("query-based searches must specify a list of sheets to search".to_owned()),
        ),
        Some(s) => s,
    };
    let pieces = split_at_commas(sheets);
    let ghost ps = strings_view(pieces@);
    let mut names: Vec<String> = Vec::new();
    let mut i: usize = 0;
    while i < pieces.len()
        invariant
            i <= pieces@.len(),
            ps == strings_view(pieces@),
            strings_view(names@) == distinct(ps.take(i as int)),
        decreases pieces@.len() - i,
    {
        assert(ps.take(i + 1).drop_last() =~= ps.take(i as int));
        assert(ps.take(i + 1).last() == pieces@[i as int]@);
        let mut seen = false;
        let mut j: usize = 0;
        while j < names.len()
            invariant
                j <= names@.len(),
                i < pieces@.len(),
                seen == exists|k: int| 0 <= k < j && names@[k]@ == pieces@[i as int]@,
            decreases names@.len() - j,
        {
            if names[j] == pieces[i] {
                seen = true;
            }
            j = j + 1;
        }
        proof {
            let d = strings_view(names@);
            if seen {
                let k = choose|k: int| 0 <= k < names@.len() && names@[k]@ == pieces@[i as int]@;
                assert(d[k] == pieces@[i as int]@);
            } else {
                assert forall|k: int| 0 <= k < d.len() implies d[k] != pieces@[i as int]@ by {
                    assert(d[k] == names@[k]@);
                }
            }
        }
        if !seen {
            let ghost before = names@;
            names.push(pieces[i].clone());
            assert(strings_view(names@) =~= strings_view(before).push(pieces@[i as int]@));
        }
        i = i + 1;
    }
    assert(ps.take(ps.len() as int) =~= ps);
    Ok(Request::Query(SearchRequestQuery { version, query, language, sheets: Some(names), schema }))
}

/// The filter for the fields of search results: the requested filter
/// string, else the default for the schema source; a missing default fails.
pub fn search_filter(
    fields: Option<FilterString>,
    default_fields: Option<FilterString>,
    source: &str,
    language: Language,
) -> (out: Result<Filter, Error>)
    ensures
        match chosen(string_model(fields), string_model(default_fields)) {
            None => out matches Err(Error::Other(m)) && m@ == "missing default search fields for "@ + source@,
            Some(f) => match filter_of(f, language) {
                None => out matches Err(Error::Invalid(m)) && m@ == merge_error_message(),
                Some(fm) => out matches Ok(a) && a.model() == fm,
            },
        },
{
    let filter_string = match fields {
        Some(f) => f,
        None => match default_fields {
            Some(f) => f,
            None => {
                let mut message = "missing default search fields for ".to_owned();
                message.append(source);
                return Err(Error::Other(message));
            },
        },
    };
    filter_string.to_filter(language)
}

/// The subrow identifier that a search result reports: only sheets with
/// subrows have one.
pub fn result_subrow(kind: SheetKind, subrow_id: u16) -> (out: Option<u16>)
    ensures
        out == (if kind == SheetKind::Subrows { Some(subrow_id) } else { None::<u16> }),
{
    match kind {
        SheetKind::Subrows => Some(subrow_id),
        _ => None,
    }
}

} // verus!
