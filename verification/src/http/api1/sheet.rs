use vstd::prelude::*;

use crate::text::{
    chars_of, find_char, find_char_index, lemma_find_char, parse_unsigned, parse_unsigned_chars, split_at_commas,
    split_commas, strings_view, IntErrorKind, ParseIntError,
};

verus! {

/// A row of a sheet, or a sub-row of one; ordered by row, then sub-row.
#[derive(Debug, Clone, Copy, PartialEq, Eq, Structural)]
pub struct RowSpecifier {
    pub row_id: u32,
    pub subrow_id: u16,
}

/// Whether `a` comes no later than `b`.
pub open spec fn specifier_le(a: RowSpecifier, b: RowSpecifier) -> bool {
    a.row_id < b.row_id || (a.row_id == b.row_id && a.subrow_id <= b.subrow_id)
}

/// A row specifier read from `row` or `row:subrow`, in decimal.
pub open spec fn parse_row_specifier(s: Seq<char>) -> Result<RowSpecifier, IntErrorKind> {
    match find_char(s, ':', 0) {
        Some(k) => match parse_unsigned(s.take(k), 10, u32::MAX as int) {
            Err(e) => Err(e),
            Ok(row) => match parse_unsigned(s.skip(k + 1), 10, u16::MAX as int) {
                Err(e) => Err(e),
                Ok(subrow) => Ok(RowSpecifier { row_id: row as u32, subrow_id: subrow as u16 }),
            },
        },
        None => match parse_unsigned(s, 10, u32::MAX as int) {
            Err(e) => Err(e),
            Ok(row) => Ok(RowSpecifier { row_id: row as u32, subrow_id: 0 }),
        },
    }
}

impl RowSpecifier {
    /// Reads a row specifier: `row` or `row:subrow`, in decimal.
    pub fn from_str(string: &str) -> (out: Result<RowSpecifier, ParseIntError>)
        ensures
            match parse_row_specifier(string@) {
                Ok(r) => out == Ok::<RowSpecifier, ParseIntError>(r),
                Err(k) => out == Err::<RowSpecifier, ParseIntError>(ParseIntError { kind: k }),
            },
    {
        let cs = chars_of(string);
        proof {
            lemma_find_char(cs@, ':', 0);
        }
        match find_char_index(&cs, ':') {
            Some(k) => {
                assert(cs@.subrange(0, k as int) == cs@.take(k as int));
                assert(cs@.subrange(k + 1, cs@.len() as int) == cs@.skip(k + 1));
                let row = match parse_unsigned_chars(&cs, 0, k, 10, u32::MAX as u64) {
                    Ok(v) => v,
                    Err(e) => return Err(e),
                };
                let subrow = match parse_unsigned_chars(&cs, k + 1, cs.len(), 10, u16::MAX as u64) {
                    Ok(v) => v,
                    Err(e) => return Err(e),
                };
                proof {
                    crate::text::lemma_digits_value_bound(cs@.take(k as int), 10, u32::MAX as int);
                }
                Ok(RowSpecifier { row_id: row as u32, subrow_id: subrow as u16 })
            },
            None => {
                assert(cs@.subrange(0, cs@.len() as int) == cs@);
                let row = match parse_unsigned_chars(&cs, 0, cs.len(), 10, u32::MAX as u64) {
                    Ok(v) => v,
                    Err(e) => return Err(e),
                };
                Ok(RowSpecifier { row_id: row as u32, subrow_id: 0 })
            },
        }
    }

    /// Whether this row comes no later than `other`.
    pub fn not_after(&self, other: &RowSpecifier) -> (out: bool)
        ensures
            out == specifier_le(*self, *other),
    {
        self.row_id < other.row_id || (self.row_id == other.row_id && self.subrow_id <= other.subrow_id)
    }
}

/// The first `i` pieces read as row specifiers; the first failure wins.
pub open spec fn parse_all(pieces: Seq<Seq<char>>, i: int) -> Result<Seq<RowSpecifier>, IntErrorKind>
    decreases i,
{
    if i <= 0 {
        Ok(Seq::empty())
    } else {
        match parse_all(pieces, i - 1) {
            Err(e) => Err(e),
            Ok(done) => match parse_row_specifier(pieces[i - 1]) {
                Err(e) => Err(e),
                Ok(r) => Ok(done.push(r)),
            },
        }
    }
}

/// The rows a comma-separated list names: none for no text or empty text.
pub open spec fn parse_rows(raw: Option<Seq<char>>) -> Result<Option<Seq<RowSpecifier>>, IntErrorKind> {
    match raw {
        None => Ok(None),
        Some(text) => if text.len() == 0 {
            Ok(None)
        } else {
            match parse_all(split_commas(text), split_commas(text).len() as int) {
                Ok(rows) => Ok(Some(rows)),
                Err(e) => Err(e),
            }
        },
    }
}

proof fn lemma_parse_all_err(pieces: Seq<Seq<char>>, i: int, j: int, e: IntErrorKind)
    requires
        0 < i <= j,
        parse_all(pieces, i) == Err::<Seq<RowSpecifier>, IntErrorKind>(e),
    ensures
        parse_all(pieces, j) == Err::<Seq<RowSpecifier>, IntErrorKind>(e),
    decreases j - i,
{
    if i < j {
        lemma_parse_all_err(pieces, i, j - 1, e);
    }
}

/// Reads the `rows` parameter: a comma-separated list of row specifiers.
/// No text, or empty text, names no rows.
pub fn deserialize_rows(raw: Option<&str>) -> (out: Result<Option<Vec<RowSpecifier>>, ParseIntError>)
    ensures
        match parse_rows(
            match raw {
                Some(r) => Some(r@),
                None => None,
            },
        ) {
            Ok(None) => out == Ok::<Option<Vec<RowSpecifier>>, ParseIntError>(None),
            Ok(Some(rows)) => out matches Ok(Some(v)) && v@ == rows,
            Err(k) => out == Err::<Option<Vec<RowSpecifier>>, ParseIntError>(ParseIntError { kind: k }),
        },
{
    let text = match raw {
        None => return Ok(None),
        Some(text) => text,
    };
    if text.is_empty() {
        return Ok(None);
    }
    let pieces = split_at_commas(text);
    let ghost ps = strings_view(pieces@);
    let mut rows: Vec<RowSpecifier> = Vec::new();
    let mut i: usize = 0;
    while i < pieces.len()
        invariant
            i <= pieces@.len(),
            ps == strings_view(pieces@),
            ps == split_commas(text@),
            raw == Some(text),
            text@.len() > 0,
            parse_all(ps, i as int) == Ok::<Seq<RowSpecifier>, IntErrorKind>(rows@),
        decreases pieces@.len() - i,
    {
        assert(ps[i as int] == pieces@[i as int]@);
        match RowSpecifier::from_str(pieces[i].as_str()) {
            Ok(r) => {
                rows.push(r);
            },
            Err(e) => {
                proof {
                    lemma_parse_all_err(ps, i + 1, ps.len() as int, e.kind);
                }
                return Err(e);
            },
        }
        i = i + 1;
    }
    Ok(Some(rows))
}

/// The number of rows a page holds: the requested number, else the
/// default, and never more than the maximum.
pub open spec fn page_limit_spec(requested: Option<usize>, default: usize, max: usize) -> usize {
    let wanted = match requested {
        Some(n) => n,
        None => default,
    };
    if wanted < max {
        wanted
    } else {
        max
    }
}

/// The number of rows a page holds: the requested number, else the
/// default, and never more than the maximum.
pub fn page_limit(requested: Option<usize>, default: usize, max: usize) -> (out: usize)
    ensures
        out == page_limit_spec(requested, default, max),
{
    let wanted = match requested {
        Some(n) => n,
        None => default,
    };
    if wanted < max {
        wanted
    } else {
        max
    }
}

/// How many leading rows come no later than `after`.
pub open spec fn skipped(rows: Seq<RowSpecifier>, after: Option<RowSpecifier>, i: int) -> int
    decreases rows.len() - i,
{
    match after {
        None => i,
        Some(a) => if 0 <= i < rows.len() && specifier_le(rows[i], a) {
            skipped(rows, after, i + 1)
        } else {
            i
        },
    }
}

/// A page of rows: the rows after the leading ones that come no later than
/// `after`, at most `limit` of them.
pub open spec fn page(rows: Seq<RowSpecifier>, after: Option<RowSpecifier>, limit: int) -> Seq<RowSpecifier> {
    let rest = rows.skip(skipped(rows, after, 0));
    if limit < rest.len() {
        rest.take(limit)
    } else {
        rest
    }
}

proof fn lemma_skipped(rows: Seq<RowSpecifier>, after: Option<RowSpecifier>, i: int)
    requires
        0 <= i <= rows.len(),
    ensures
        i <= skipped(rows, after, i) <= rows.len(),
    decreases rows.len() - i,
{
    if after is Some && i < rows.len() && specifier_le(rows[i], after->Some_0) {
        lemma_skipped(rows, after, i + 1);
    }
}

/// Takes a page of rows: skips the leading rows that come no later than
/// `after`, then keeps at most `limit` rows.
pub fn paginate(rows: &Vec<RowSpecifier>, after: Option<RowSpecifier>, limit: usize) -> (out: Vec<RowSpecifier>)
    ensures
        out@ == page(rows@, after, limit as int),
{
    let mut start: usize = 0;
    match after {
        None => {},
        Some(a) => {
            while start < rows.len() && rows[start].not_after(&a)
                invariant
                    start <= rows@.len(),
                    skipped(rows@, after, 0) == skipped(rows@, after, start as int),
                    after == Some(a),
                decreases rows@.len() - start,
            {
                start = start + 1;
            }
        },
    }
    proof {
        lemma_skipped(rows@, after, 0);
    }
    let mut out: Vec<RowSpecifier> = Vec::new();
    let mut i = start;
    while i < rows.len() && out.len() < limit
        invariant
            start <= i <= rows@.len(),
            start == skipped(rows@, after, 0),
            out@ == rows@.subrange(start as int, i as int),
            out@.len() <= limit,
        decreases rows@.len() - i,
    {
        out.push(rows[i]);
        assert(rows@.subrange(start as int, i + 1) == rows@.subrange(start as int, i as int).push(rows@[i as int]));
        i = i + 1;
    }
    let ghost rest = rows@.skip(start as int);
    assert(out@ == page(rows@, after, limit as int)) by {
        if limit < rest.len() {
            assert(out@ =~= rest.take(limit as int));
        } else {
            assert(out@ =~= rest);
        }
    }
    out
}

/// The place of a row in the order of a sheet: rows by id, and the sub-rows
/// of a row by sub-row id.
pub open spec fn position(r: RowSpecifier) -> int {
    r.row_id * 0x10000 + r.subrow_id
}

/// `not_after` compares rows by their place in the sheet: a row comes no
/// later than another exactly when its row id is smaller, or the row ids
/// are equal and its sub-row id is no greater.
pub proof fn lemma_not_after_is_sheet_order(a: RowSpecifier, b: RowSpecifier)
    ensures
        specifier_le(a, b) <==> position(a) <= position(b),
{
    let (ar, asub, br, bsub) = (a.row_id as int, a.subrow_id as int, b.row_id as int, b.subrow_id as int);
    assert(ar < br ==> ar * 0x10000 + asub < br * 0x10000 + bsub) by (nonlinear_arith)
        requires
            0 <= asub < 0x10000,
            0 <= bsub,
    ;
    assert(ar > br ==> ar * 0x10000 + asub > br * 0x10000 + bsub) by (nonlinear_arith)
        requires
            0 <= bsub < 0x10000,
            0 <= asub,
    ;
}

proof fn lemma_skipped_prefix(rows: Seq<RowSpecifier>, a: RowSpecifier, i: int)
    requires
        0 <= i <= rows.len(),
        forall|j: int| 0 <= j < i ==> specifier_le(#[trigger] rows[j], a),
    ensures
        i <= skipped(rows, Some(a), i) <= rows.len(),
        forall|j: int| 0 <= j < skipped(rows, Some(a), i) ==> specifier_le(#[trigger] rows[j], a),
        skipped(rows, Some(a), i) < rows.len() ==> !specifier_le(rows[skipped(rows, Some(a), i)], a),
    decreases rows.len() - i,
{
    if i < rows.len() && specifier_le(rows[i], a) {
        lemma_skipped_prefix(rows, a, i + 1);
    }
}

/// A page after `after` leaves out exactly the leading rows placed at or
/// before `after` in the sheet (a sub-row of the same row placed later is
/// kept), and then holds the next rows, at most `limit` of them, in order.
pub proof fn lemma_page_after(rows: Seq<RowSpecifier>, after: RowSpecifier, limit: int)
    requires
        limit >= 0,
    ensures
        exists|s: int|
            0 <= s <= rows.len() && (forall|j: int| 0 <= j < s ==> position(#[trigger] rows[j]) <= position(after))
                && (s < rows.len() ==> position(rows[s]) > position(after)) && #[trigger] page(
                rows,
                Some(after),
                limit,
            ) == rows.subrange(s, if s + limit < rows.len() { s + limit } else { rows.len() as int }),
{
    lemma_skipped_prefix(rows, after, 0);
    let s = skipped(rows, Some(after), 0);
    assert forall|j: int| 0 <= j < s implies position(#[trigger] rows[j]) <= position(after) by {
        lemma_not_after_is_sheet_order(rows[j], after);
    }
    if s < rows.len() {
        lemma_not_after_is_sheet_order(rows[s], after);
    }
    let rest = rows.skip(s);
    if limit < rest.len() {
        assert(rest.take(limit) =~= rows.subrange(s, s + limit));
    } else {
        assert(rest =~= rows.subrange(s, rows.len() as int));
    }
    assert(page(rows, Some(after), limit) == rows.subrange(
        s,
        if s + limit < rows.len() { s + limit } else { rows.len() as int },
    ));
}

} // verus!
