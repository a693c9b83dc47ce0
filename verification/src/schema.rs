use vstd::prelude::*;

use crate::excel::ColumnDefinition;
use crate::text::{chars_of, find_char, find_char_index, lemma_find_char, string_from_chars};
use vstd::string::StringExecFns;

verus! {

/// Failures of the schema service.
#[derive(Debug)]
pub enum Error {
    /// No schema source has this name.
    UnknownSource(String),
    /// The source does not know this schema version.
    InvalidVersion(String),
    /// Any other failure, with its description.
    Failure(String),
}

impl Error {
    /// The message this error is reported with.
    pub open spec fn message_spec(self) -> Seq<char> {
        match self {
            Error::UnknownSource(s) => "unknown schema source \""@ + s@ + "\""@,
            Error::InvalidVersion(s) => "invalid schema version \""@ + s@ + "\""@,
            Error::Failure(s) => s@,
        }
    }

    /// The message this error is reported with.
    pub fn message(&self) -> (out: String)
        ensures
            out@ == self.message_spec(),
    {
        match self {
            Error::UnknownSource(s) => {
                let mut out = "unknown schema source \"".to_owned();
                out.append(s.as_str());
                out.append("\"");
                out
            },
            Error::InvalidVersion(s) => {
                let mut out = "invalid schema version \"".to_owned();
                out.append(s.as_str());
                out.append("\"");
                out
            },
            Error::Failure(s) => s.clone(),
        }
    }
}

// ---------------------------------------------------------------------------
// Schema specifiers.
// ---------------------------------------------------------------------------

/// A requested schema: its source, and the source's version text if given.
#[derive(Debug)]
pub struct Specifier {
    pub source: String,
    pub version: Option<String>,
}

/// A schema pinned to one exact version of its source.
#[derive(Debug)]
pub struct CanonicalSpecifier {
    pub source: String,
    pub version: String,
}

/// What a schema version text asks the EXDSchema source for.
#[derive(Debug)]
pub enum SpecifierRequest {
    /// A first-generation schema at a git reference, for a game version (or
    /// the game version of the data read, when none is given).
    V1 { reference: String, game_version: Option<String> },
    /// A second-generation schema at a git reference.
    V2Ref(String),
    /// A second-generation schema for a game version.
    V2Ver(String),
    /// A second-generation schema for the game version of the data read.
    V2VerRequested,
}

/// The mathematical value of a specifier request.
pub enum SpecifierRequestModel {
    V1(Seq<char>, Option<Seq<char>>),
    V2Ref(Seq<char>),
    V2Ver(Seq<char>),
    V2VerRequested,
}

impl SpecifierRequest {
    pub open spec fn model(self) -> SpecifierRequestModel {
        match self {
            SpecifierRequest::V1 { reference, game_version } => SpecifierRequestModel::V1(
                reference@,
                match game_version {
                    Some(g) => Some(g@),
                    None => None,
                },
            ),
            SpecifierRequest::V2Ref(r) => SpecifierRequestModel::V2Ref(r@),
            SpecifierRequest::V2Ver(v) => SpecifierRequestModel::V2Ver(v@),
            SpecifierRequest::V2VerRequested => SpecifierRequestModel::V2VerRequested,
        }
    }
}

/// A first-generation version text: `reference` or `reference-gameversion`.
pub open spec fn v1_request(s: Seq<char>) -> SpecifierRequestModel {
    match find_char(s, '-', 0) {
        Some(k) => SpecifierRequestModel::V1(s.take(k), Some(s.skip(k + 1))),
        None => SpecifierRequestModel::V1(s, None),
    }
}

/// A second-generation version text: `reference`, `ref:reference`,
/// `ver:request` or `ver:version`; any other prefix is invalid (`Err` holds
/// the text).
pub open spec fn v2_request(s: Seq<char>) -> Result<SpecifierRequestModel, Seq<char>> {
    match find_char(s, ':', 0) {
        None => Ok(SpecifierRequestModel::V2Ref(s)),
        Some(k) => if s.take(k) == "ref"@ {
            Ok(SpecifierRequestModel::V2Ref(s.skip(k + 1)))
        } else if s.take(k) == "ver"@ {
            if s.skip(k + 1) == "request"@ {
                Ok(SpecifierRequestModel::V2VerRequested)
            } else {
                Ok(SpecifierRequestModel::V2Ver(s.skip(k + 1)))
            }
        } else {
            Err(s)
        },
    }
}

/// A schema version text: a first-generation one, or `2:` and a
/// second-generation one; any other prefix before a `:` is invalid (`Err`
/// holds the text found invalid).
pub open spec fn schema_request(s: Seq<char>) -> Result<SpecifierRequestModel, Seq<char>> {
    match find_char(s, ':', 0) {
        None => Ok(v1_request(s)),
        Some(k) => if s.take(k) == "2"@ {
            v2_request(s.skip(k + 1))
        } else {
            Err(s)
        },
    }
}

fn chars_equal_str(cs: &Vec<char>, from: usize, to: usize, text: &str) -> (out: bool)
    requires
        from <= to <= cs@.len(),
    ensures
        out == (cs@.subrange(from as int, to as int) == text@),
{
    let t = chars_of(text);
    if to - from != t.len() {
        assert(cs@.subrange(from as int, to as int).len() != text@.len());
        return false;
    }
    let mut i: usize = 0;
    while i < t.len()
        invariant
            i <= t@.len(),
            to - from == t@.len(),
            from <= to <= cs@.len(),
            t@ == text@,
            forall|j: int| 0 <= j < i ==> cs@[from + j] == t@[j],
        decreases t@.len() - i,
    {
        if cs[from + i] != t[i] {
            assert(cs@.subrange(from as int, to as int)[i as int] != t@[i as int]);
            return false;
        }
        i = i + 1;
    }
    assert(cs@.subrange(from as int, to as int) =~= t@);
    true
}

/// Reads what a schema version text asks the EXDSchema source for.
pub fn parse_schema_version(schema_version: &str) -> (out: Result<SpecifierRequest, Error>)
    ensures
        match schema_request(schema_version@) {
            Ok(m) => out matches Ok(r) && r.model() == m,
            Err(text) => out matches Err(Error::InvalidVersion(t)) && t@ == text,
        },
{
    let cs = chars_of(schema_version);
    let n = cs.len();
    proof {
        lemma_find_char(cs@, ':', 0);
    }
    match find_char_index(&cs, ':') {
        None => {
            proof {
                lemma_find_char(cs@, '-', 0);
            }
            match find_char_index(&cs, '-') {
                Some(k) => {
                    let reference = string_from_chars(&cs, 0, k);
                    let game_version = string_from_chars(&cs, k + 1, n);
                    assert(cs@.subrange(0, k as int) =~= cs@.take(k as int));
                    assert(cs@.subrange(k + 1, n as int) =~= cs@.skip(k + 1));
                    Ok(SpecifierRequest::V1 { reference, game_version: Some(game_version) })
                },
                None => {
                    let reference = string_from_chars(&cs, 0, n);
                    assert(cs@.subrange(0, n as int) =~= cs@);
                    Ok(SpecifierRequest::V1 { reference, game_version: None })
                },
            }
        },
        Some(k) => {
            assert(cs@.subrange(0, k as int) =~= cs@.take(k as int));
            if !chars_equal_str(&cs, 0, k, "2") {
                return Err(Error::InvalidVersion(schema_version.to_owned()));
            }
            let rest = string_from_chars(&cs, k + 1, n);
            assert(cs@.subrange(k + 1, n as int) =~= cs@.skip(k + 1));
            let rc = chars_of(rest.as_str());
            let m = rc.len();
            proof {
                lemma_find_char(rc@, ':', 0);
            }
            match find_char_index(&rc, ':') {
                None => Ok(SpecifierRequest::V2Ref(rest)),
                Some(j) => {
                    assert(rc@.subrange(0, j as int) =~= rc@.take(j as int));
                    assert(rc@.subrange(j + 1, m as int) =~= rc@.skip(j + 1));
                    let tail = string_from_chars(&rc, j + 1, m);
                    if chars_equal_str(&rc, 0, j, "ref") {
                        Ok(SpecifierRequest::V2Ref(tail))
                    } else if chars_equal_str(&rc, 0, j, "ver") {
                        if chars_equal_str(&rc, j + 1, m, "request") {
                            Ok(SpecifierRequest::V2VerRequested)
                        } else {
                            Ok(SpecifierRequest::V2Ver(tail))
                        }
                    } else {
                        Err(Error::InvalidVersion(rest))
                    }
                },
            }
        },
    }
}

/// What a canonical version text names: `2:ref:` and a reference, or a
/// reference and a game version around the first `-`; anything else is a
/// failure.
pub open spec fn canonical_request(s: Seq<char>) -> Result<SpecifierRequestModel, Seq<char>> {
    if s.len() >= 6 && s.take(6) == "2:ref:"@ {
        Ok(SpecifierRequestModel::V2Ref(s.skip(6)))
    } else {
        match find_char(s, '-', 0) {
            Some(k) => Ok(SpecifierRequestModel::V1(s.take(k), Some(s.skip(k + 1)))),
            None => Err("invalid canonical version string: \""@ + s + "\""@),
        }
    }
}

/// Reads back a canonical version text.
pub fn parse_canonical_version(version: &str) -> (out: Result<SpecifierRequest, Error>)
    ensures
        match canonical_request(version@) {
            Ok(m) => out matches Ok(r) && r.model() == m,
            Err(text) => out matches Err(Error::Failure(t)) && t@ == text,
        },
{
    let cs = chars_of(version);
    let n = cs.len();
    if n >= 6 && chars_equal_str(&cs, 0, 6, "2:ref:") {
        assert(cs@.subrange(0, 6) =~= cs@.take(6));
        assert(cs@.subrange(6, n as int) =~= cs@.skip(6));
        return Ok(SpecifierRequest::V2Ref(string_from_chars(&cs, 6, n)));
    }
    proof {
        if n >= 6 {
            assert(cs@.subrange(0, 6) =~= cs@.take(6));
        }
        lemma_find_char(cs@, '-', 0);
    }
    match find_char_index(&cs, '-') {
        Some(k) => {
            assert(cs@.subrange(0, k as int) =~= cs@.take(k as int));
            assert(cs@.subrange(k + 1, n as int) =~= cs@.skip(k + 1));
            Ok(
                SpecifierRequest::V1 {
                    reference: string_from_chars(&cs, 0, k),
                    game_version: Some(string_from_chars(&cs, k + 1, n)),
                },
            )
        },
        None => {
            let mut message = "invalid canonical version string: \"".to_owned();
            message.append(version);
            message.append("\"");
            Err(Error::Failure(message))
        },
    }
}

/// The canonical text of a first-generation schema: reference and game
/// version joined by `-`.
pub fn canonical_v1(reference: &str, game_version: &str) -> (out: String)
    ensures
        out@ == reference@ + "-"@ + game_version@,
{
    let mut out = reference.to_owned();
    out.append("-");
    out.append(game_version);
    out
}

/// The canonical text of a second-generation schema: `2:ref:` and the
/// reference.
pub fn canonical_v2(reference: &str) -> (out: String)
    ensures
        out@ == "2:ref:"@ + reference@,
{
    let mut out = "2:ref:".to_owned();
    out.append(reference);
    out
}

pub open spec fn wanted_of(specifier: Option<Specifier>, default: Specifier) -> (Seq<char>, Option<String>) {
    match specifier {
        Some(s) => (s.source@, s.version),
        None => (default.source@, default.version),
    }
}

pub open spec fn same_version_text(a: Option<String>, b: Option<String>) -> bool {
    match (a, b) {
        (Some(x), Some(y)) => x@ == y@,
        (None, None) => true,
        _ => false,
    }
}

/// The canonical version of a SaintCoinach schema request: the requested
/// version, else `HEAD`, the position the local copy was cloned at.
pub fn saint_coinach_version(schema_version: Option<&str>) -> (out: String)
    ensures
        match schema_version {
            Some(v) => out@ == v@,
            None => out@ == "HEAD"@,
        },
{
    match schema_version {
        Some(v) => v.to_owned(),
        None => "HEAD".to_owned(),
    }
}

/// The source and version text of a request: the requested specifier, else
/// the default; the source must be one of `sources`.
pub fn select_source(specifier: Option<Specifier>, default: &Specifier, sources: &Vec<String>) -> (out: Result<
    Specifier,
    Error,
>)
    ensures
        ({
            let (source, version) = wanted_of(specifier, *default);
            if exists|i: int| 0 <= i < sources@.len() && #[trigger] sources@[i]@ == source {
                out matches Ok(s) && s.source@ == source && same_version_text(s.version, version)
            } else {
                out matches Err(Error::UnknownSource(name)) && name@ == source
            }
        }),
{
    let ghost wanted = wanted_of(specifier, *default);
    let chosen = match specifier {
        Some(s) => s,
        None => Specifier {
            source: default.source.clone(),
            version: match &default.version {
                Some(v) => Some(v.clone()),
                None => None,
            },
        },
    };
    assert(chosen.source@ == wanted.0 && same_version_text(chosen.version, wanted.1));
    let mut i: usize = 0;
    while i < sources.len()
        invariant
            i <= sources@.len(),
            chosen.source@ == wanted.0,
            same_version_text(chosen.version, wanted.1),
            wanted == wanted_of(specifier, *default),
            forall|j: int| 0 <= j < i ==> sources@[j]@ != chosen.source@,
        decreases sources@.len() - i,
    {
        if sources[i] == chosen.source {
            return Ok(chosen);
        }
        i = i + 1;
    }
    Err(Error::UnknownSource(chosen.source))
}

/// The order in which a schema's fields walk the columns of a sheet.
#[derive(Debug, Clone, Copy, PartialEq, Eq, Structural)]
pub enum Order {
    /// Columns in the order the game data lists them.
    Index,
    /// Columns sorted by their offset within a row.
    Offset,
}

/// A sheet that a reference may point into. `selector` and `condition`
/// narrow the target; they are kept as the text the schema gives them.
#[derive(Debug)]
pub struct ReferenceTarget {
    pub sheet: String,
    pub selector: Option<String>,
    pub condition: Option<String>,
}

/// The meaning of a single column.
#[derive(Debug)]
pub enum Scalar {
    /// A plain value.
    Default,
    /// A row id in one of the target sheets.
    Reference(Vec<ReferenceTarget>),
    /// A value with some other annotation (an icon, a colour, ...).
    Other,
}

/// A node of a sheet schema: the structure laid over a run of columns.
#[derive(Debug)]
pub enum Node {
    /// `count` consecutive copies of `node`.
    Array { count: u32, node: Box<Node> },
    /// One column.
    Scalar(Scalar),
    /// Named fields, each starting at its column offset.
    Struct(Vec<StructField>),
}

/// A named field of a struct node, starting `offset` columns into it.
#[derive(Debug)]
pub struct StructField {
    pub name: String,
    pub offset: u32,
    pub node: Node,
}

/// The schema of one sheet.
#[derive(Debug)]
pub struct Sheet {
    pub order: Order,
    pub node: Node,
}

/// The number of columns a node spans.
pub open spec fn node_size(node: Node) -> int
    decreases node, 0int,
{
    match node {
        Node::Array { count, node: inner } => count * node_size(*inner),
        Node::Scalar(_) => 1,
        Node::Struct(fields) => fields_size(fields@),
    }
}

/// The number of columns the fields span together.
pub open spec fn fields_size(fields: Seq<StructField>) -> int
    decreases fields, 0int,
{
    if fields.len() == 0 {
        0
    } else {
        proof {
            assert(decreases_to!(fields => fields.last()));
        }
        fields_size(fields.drop_last()) + node_size(fields.last().node)
    }
}

/// Every node of the tree spans a number of columns that a `u32` holds.
pub open spec fn node_fits(node: Node) -> bool
    decreases node, 0int,
{
    &&& 0 <= node_size(node) <= u32::MAX
    &&& match node {
        Node::Array { count: _, node: inner } => node_fits(*inner),
        Node::Scalar(_) => true,
        Node::Struct(fields) => fields_fit(fields@),
    }
}

pub open spec fn fields_fit(fields: Seq<StructField>) -> bool
    decreases fields, 0int,
{
    if fields.len() == 0 {
        true
    } else {
        proof {
            assert(decreases_to!(fields => fields.last()));
        }
        fields_fit(fields.drop_last()) && node_fits(fields.last().node)
    }
}

proof fn lemma_fields_size_nonneg(fields: Seq<StructField>)
    requires
        fields_fit(fields),
    ensures
        fields_size(fields) >= 0,
        forall|i: int| 0 <= i < fields.len() ==> node_fits(#[trigger] fields[i].node),
        forall|i: int|
            0 <= i < fields.len() ==> 0 <= #[trigger] node_size(fields[i].node) <= fields_size(fields),
    decreases fields.len(),
{
    if fields.len() > 0 {
        let p = fields.drop_last();
        let last = fields.last();
        lemma_fields_size_nonneg(p);
        assert(node_fits(last.node));
        assert(node_size(last.node) >= 0);
        assert(fields_size(fields) == fields_size(p) + node_size(last.node));
        assert forall|i: int| 0 <= i < fields.len() implies node_fits(#[trigger] fields[i].node) && 0
            <= node_size(fields[i].node) <= fields_size(fields) by {
            if i < p.len() {
                assert(fields[i] == p[i]);
            }
        }
    }
}

impl Node {
    /// The number of columns this node spans.
    pub fn size(&self) -> (out: u32)
        requires
            node_fits(*self),
        ensures
            out == node_size(*self),
        decreases self,
    {
        match self {
            Node::Array { count, node } => {
                let inner = node.size();
                proof {
                    assert(node_size(**node) >= 0);
                }
                *count * inner
            },
            Node::Scalar(_) => 1,
            Node::Struct(fields) => {
                proof {
                    lemma_fields_size_nonneg(fields@);
                }
                let mut total: u32 = 0;
                let mut i: usize = 0;
                while i < fields.len()
                    invariant
                        i <= fields@.len(),
                        fields_fit(fields@),
                        *self == Node::Struct(*fields),
                        fields_size(fields@) <= u32::MAX,
                        total == fields_size(fields@.take(i as int)),
                        forall|j: int| 0 <= j < fields@.len() ==> node_fits(#[trigger] fields@[j].node),
                    decreases fields@.len() - i,
                {
                    assert(fields@.take(i + 1).drop_last() == fields@.take(i as int));
                    proof {
                        assert(decreases_to!(*self => self->Struct_0));
                        assert(decreases_to!(*fields => fields@));
                        assert(decreases_to!(fields@ => fields@[i as int]));
                    }
                    let part = fields[i].node.size();
                    proof {
                        lemma_fields_prefix_size(fields@, i + 1);
                    }
                    total = total + part;
                    i = i + 1;
                }
                assert(fields@.take(fields@.len() as int) == fields@);
                total
            },
        }
    }
}

proof fn lemma_fields_prefix_size(fields: Seq<StructField>, n: int)
    requires
        0 <= n <= fields.len(),
        fields_fit(fields),
    ensures
        0 <= fields_size(fields.take(n)) <= fields_size(fields),
    decreases fields.len(),
{
    lemma_fields_size_nonneg(fields);
    if n < fields.len() {
        let p = fields.drop_last();
        assert(p.take(n) == fields.take(n));
        lemma_fields_prefix_size(p, n);
        lemma_fields_size_nonneg(p);
    } else {
        assert(fields.take(n) == fields);
    }
}

} // verus!
