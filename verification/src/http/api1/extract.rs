use vstd::prelude::*;

use crate::http::api1::error::Error;
use crate::text::{chars_of, string_from_chars};
use crate::version::registry::{latest_tag, resolve_name, Registry};
use crate::version::VersionKey;
use vstd::string::StringExecFns;

verus! {

/// The version of the game data that a request names.
#[derive(Debug, Clone, Copy, PartialEq, Eq, Structural)]
pub struct VersionQuery(pub VersionKey);

impl VersionQuery {
    /// Resolves the `version` query parameter: the version it names, or the
    /// latest version when it is absent. An unknown name is an invalid
    /// request.
    pub fn resolve(registry: &Registry, version: Option<&str>) -> (out: Result<VersionQuery, Error>)
        requires
            registry.wf(),
        ensures
            ({
                let name = match version {
                    Some(n) => n@,
                    None => latest_tag(),
                };
                match resolve_name(registry.named(), name) {
                    Some(key) => out == Ok::<VersionQuery, Error>(VersionQuery(key)),
                    None => out matches Err(Error::Invalid(m)) && m@ == "unknown version \""@ + match version {
                        Some(n) => n@,
                        None => "(none)"@,
                    } + "\""@,
                }
            }),
    {
        match registry.resolve(version) {
            Some(key) => Ok(VersionQuery(key)),
            None => {
                let mut message = "unknown version \"".to_owned();
                match version {
                    Some(n) => message.append(n),
                    None => message.append("(none)"),
                }
                message.append("\"");
                Err(Error::Invalid(message))
            },
        }
    }
}

/// The path that a parent router is mounted at.
#[derive(Debug)]
pub struct RouterPath(pub String);

/// `original` without the suffix `uri`, or nothing when it does not end so.
pub open spec fn router_prefix(original: Seq<char>, uri: Seq<char>) -> Seq<char> {
    if uri.len() <= original.len() && original.skip(original.len() - uri.len()) == uri {
        original.take(original.len() - uri.len())
    } else {
        Seq::empty()
    }
}

impl RouterPath {
    /// The router path of a request: its original path without the path the
    /// nested router saw, or empty when the original does not end with it.
    pub fn from_paths(original: &str, uri: &str) -> (out: RouterPath)
        ensures
            out.0@ == router_prefix(original@, uri@),
    {
        let o = chars_of(original);
        let u = chars_of(uri);
        if u.len() > o.len() {
            return RouterPath(String::new());
        }
        let start = o.len() - u.len();
        let mut i: usize = 0;
        while i < u.len()
            invariant
                i <= u@.len(),
                start + u@.len() == o@.len(),
                o@.len() <= usize::MAX,
                o@ == original@,
                u@ == uri@,
                forall|j: int| 0 <= j < i ==> o@[start + j] == u@[j],
            decreases u@.len() - i,
        {
            if o[start + i] != u[i] {
                assert(o@.skip(start as int)[i as int] != u@[i as int]);
                return RouterPath(String::new());
            }
            i = i + 1;
        }
        assert(o@.skip(start as int) =~= u@);
        let prefix = string_from_chars(&o, 0, start);
        assert(o@.subrange(0, start as int) =~= o@.take(start as int));
        RouterPath(prefix)
    }
}

/// Query parameters of a request, read into `T`.
#[derive(Debug)]
pub struct Query<T>(pub T);

} // verus!
