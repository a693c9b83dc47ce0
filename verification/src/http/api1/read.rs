use vstd::prelude::*;

use crate::excel::SheetKind;
use crate::http::api1::error::Error;
use crate::http::api1::filter::{filter_of, merge_error_message, FilterString, FilterStringModel};
use crate::language::Language;
use crate::read::error::Error as ReadError;
use crate::excel::Field;
use crate::read::value::{StructKey, Value};
use crate::read::reader::{catalog_readable, error_matches, read_sheet, ReadCtx, ReadErrorModel, Reader, ValueModel};
use crate::read::Filter;
use crate::search::normalize::{find_sheet, find_sheet_index, lemma_find_sheet, SheetInfo};
use vstd::string::StringExecFns;

verus! {

/// A value read from a row, with the language it was read in.
#[derive(Debug)]
pub struct ValueString(pub Value, pub Language);

/// One row read for the API.
#[derive(Debug)]
pub struct RowResult {
    /// The row's id.
    pub row_id: u32,
    /// The sub-row's id, for sheets whose rows hold sub-rows.
    pub subrow_id: Option<u16>,
    /// The row's fields, as the schema and the field filter shape them.
    pub fields: ValueString,
    /// The fields of the row's transient row, if it has one.
    pub transient: Option<ValueString>,
}

impl RowResult {
    /// The row shown as an example in the API's documentation: one field
    /// named `FieldName`, in English, holding 14.
    pub fn example(row_id: u32) -> (out: RowResult)
        ensures
            out.row_id == row_id,
            out.subrow_id is None,
            out.transient is None,
            out.fields.1 == Language::English,
            out.fields.0 matches Value::Struct(fields) && fields@.len() == 1 && fields@[0].0.name@ == "FieldName"@
                && fields@[0].0.language == Language::English && fields@[0].1 == Value::Scalar(Field::U32(14)),
    {
        let key = StructKey { name: "FieldName".to_owned(), language: Language::English };
        let fields = vec![(key, Value::Scalar(Field::U32(14)))];
        RowResult {
            row_id,
            subrow_id: None,
            fields: ValueString(Value::Struct(fields), Language::English),
            transient: None,
        }
    }
}

/// Builds a row result from what was read: the sub-row id is reported only
/// for sheets of sub-rows; a transient row that does not exist is left out,
/// and any other failure to read it fails the row.
pub fn row_result(
    row_id: u32,
    subrow_id: u16,
    kind: SheetKind,
    fields: Value,
    transient: Option<Result<Value, ReadError>>,
    language: Language,
) -> (out: Result<RowResult, ReadError>)
    ensures
        match transient {
            Some(Err(ReadError::NotFound(_))) | None => out matches Ok(r) && r.transient is None,
            Some(Err(e)) => out == Err::<RowResult, ReadError>(e),
            Some(Ok(v)) => out matches Ok(r) && r.transient == Some(ValueString(v, language)),
        },
        out matches Ok(r) ==> r.row_id == row_id && r.fields == ValueString(fields, language) && r.subrow_id == (
        if kind == SheetKind::Subrows {
            Some(subrow_id)
        } else {
            None
        }),
{
    let transient = match transient {
        None => None,
        Some(Ok(value)) => Some(ValueString(value, language)),
        Some(Err(ReadError::NotFound(_))) => None,
        Some(Err(error)) => return Err(error),
    };
    let result_subrow_id = match kind {
        SheetKind::Subrows => Some(subrow_id),
        _ => None,
    };
    Ok(RowResult { row_id, subrow_id: result_subrow_id, fields: ValueString(fields, language), transient })
}

/// The filter string used: the requested one, else the default.
pub open spec fn chosen(requested: Option<FilterStringModel>, default: Option<FilterStringModel>) -> Option<
    FilterStringModel,
> {
    match requested {
        Some(r) => Some(r),
        None => default,
    }
}

pub open spec fn string_model(f: Option<FilterString>) -> Option<FilterStringModel> {
    match f {
        Some(s) => Some(s@),
        None => None,
    }
}

/// The field and transient filters of a row read: each the requested filter
/// string, else the default for the schema source; a missing default fails.
/// An empty transient string reads no transient row.
pub fn row_filters(
    fields: Option<FilterString>,
    default_fields: Option<FilterString>,
    transient: Option<FilterString>,
    default_transient: Option<FilterString>,
    source: &str,
    language: Language,
) -> (out: Result<(Filter, Option<Filter>), Error>)
    ensures
        match chosen(string_model(fields), string_model(default_fields)) {
            None => out matches Err(Error::Other(m)) && m@ == "missing default fields for "@ + source@,
            Some(f) => match filter_of(f, language) {
                None => out matches Err(Error::Invalid(m)) && m@ == merge_error_message(),
                Some(fm) => match chosen(string_model(transient), string_model(default_transient)) {
                    None => out matches Err(Error::Other(m)) && m@ == "missing default transient for "@ + source@,
                    Some(t) => if (t matches FilterStringModel::Paths(ps) && ps.len() == 0) {
                        out matches Ok((a, b)) && a.model() == fm && b is None
                    } else {
                        match filter_of(t, language) {
                            None => out matches Err(Error::Invalid(m)) && m@ == merge_error_message(),
                            Some(tm) => out matches Ok((a, b)) && a.model() == fm && (b matches Some(bf)
                                && bf.model() == tm),
                        }
                    },
                },
            },
        },
{
    let field_string = match fields {
        Some(f) => f,
        None => match default_fields {
            Some(f) => f,
            None => {
                let mut message = "missing default fields for ".to_owned();
                message.append(source);
                return Err(Error::Other(message));
            },
        },
    };
    let field_filter = field_string.to_filter(language)?;
    let transient_string = match transient {
        Some(t) => t,
        None => match default_transient {
            Some(t) => t,
            None => {
                let mut message = "missing default transient for ".to_owned();
                message.append(source);
                return Err(Error::Other(message));
            },
        },
    };
    if transient_string.is_empty() {
        Ok((field_filter, None))
    } else {
        let transient_filter = transient_string.to_filter(language)?;
        Ok((field_filter, Some(transient_filter)))
    }
}

/// The sheet that holds the transient rows of a sheet.
pub open spec fn transient_name(sheet: Seq<char>) -> Seq<char> {
    sheet + "Transient"@
}

/// How a row of the API is read: from its first field, in `language`,
/// following references `depth` levels deep.
pub open spec fn row_ctx(
    sheet: Seq<char>,
    row_id: u32,
    subrow_id: u16,
    language: Language,
    filter: Filter,
    depth: u8,
) -> ReadCtx {
    ReadCtx { sheet, language, row_id, subrow_id, filter, columns: Seq::empty(), depth: depth as nat }
}

/// The kind of the sheet `name` in the catalog.
pub open spec fn kind_of(sheets: Seq<SheetInfo>, name: Seq<char>) -> SheetKind {
    match find_sheet(sheets, name, 0) {
        Some(i) => match sheets[i].data {
            Some(d) => d.kind,
            None => SheetKind::Default,
        },
        None => SheetKind::Default,
    }
}

/// `out` is the row result of the given fields and transient fields.
pub open spec fn row_read(
    out: Result<RowResult, ReadError>,
    row_id: u32,
    subrow_id: u16,
    kind: SheetKind,
    fields: ValueModel,
    transient: Option<ValueModel>,
    language: Language,
) -> bool {
    &&& out matches Ok(r)
    &&& r.row_id == row_id
    &&& r.subrow_id == (if kind == SheetKind::Subrows { Some(subrow_id) } else { None::<u16> })
    &&& r.fields.0.model() == fields && r.fields.1 == language
    &&& match (r.transient, transient) {
        (None, None) => true,
        (Some(t), Some(m)) => t.0.model() == m && t.1 == language,
        _ => false,
    }
}

/// Reads a row for the API: its fields through `fields`, and, where a
/// transient filter is given, the row of the same ids in the sheet's
/// transient sheet, which may not exist.
pub fn read_row(
    reader: &Reader,
    sheet: &str,
    row_id: u32,
    subrow_id: u16,
    language: Language,
    fields: &Filter,
    transient: Option<&Filter>,
    depth: u8,
) -> (out: Result<RowResult, ReadError>)
    requires
        catalog_readable(reader.sheets@),
    ensures
        match read_sheet(reader.sheets@, row_ctx(sheet@, row_id, subrow_id, language, *fields, depth)) {
            Err(em) => out matches Err(e) && error_matches(e, em),
            Ok(fm) => match transient {
                None => row_read(out, row_id, subrow_id, kind_of(reader.sheets@, sheet@), fm, None, language),
                Some(f) => match read_sheet(
                    reader.sheets@,
                    row_ctx(transient_name(sheet@), row_id, subrow_id, language, *f, depth),
                ) {
                    Ok(tm) => row_read(
                        out,
                        row_id,
                        subrow_id,
                        kind_of(reader.sheets@, sheet@),
                        fm,
                        Some(tm),
                        language,
                    ),
                    Err(ReadErrorModel::NotFound(_)) => row_read(
                        out,
                        row_id,
                        subrow_id,
                        kind_of(reader.sheets@, sheet@),
                        fm,
                        None,
                        language,
                    ),
                    Err(em) => out matches Err(e) && error_matches(e, em),
                },
            },
        },
{
    let value = match reader.read(sheet, row_id, subrow_id, language, fields, depth) {
        Ok(v) => v,
        Err(e) => return Err(e),
    };
    let transient_value = match transient {
        None => None,
        Some(filter) => {
            let mut name = sheet.to_owned();
            name.append("Transient");
            Some(reader.read(name.as_str(), row_id, subrow_id, language, filter, depth))
        },
    };
    // A row that was read belongs to a sheet with data.
    let name = sheet.to_owned();
    proof {
        lemma_find_sheet(reader.sheets@, name@, 0);
    }
    let kind = match find_sheet_index(reader.sheets, &name) {
        Some(i) => match &reader.sheets[i].data {
            Some(data) => data.kind,
            None => {
                proof {
                    assert(false);
                }
                SheetKind::Default
            },
        },
        None => {
            proof {
                assert(false);
            }
            SheetKind::Default
        },
    };
    row_result(row_id, subrow_id, kind, value, transient_value, language)
}

} // verus!
