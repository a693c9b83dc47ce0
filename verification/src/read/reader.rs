use vstd::prelude::*;

use crate::excel::{
    at_offset, copy_columns, field_text, lemma_sort_by_offset, lemma_sort_by_offset_stable, sort_by_offset,
    sort_columns_by_offset, sorted_by_offset, ColumnDefinition, Field, RowData, SheetKind,
};
use crate::language::Language;
use crate::read::error::{Error, MismatchError};
use crate::read::value::{Reference, StructKey, Value};
use crate::read::{filter_text, Filter};
use crate::schema::{node_fits, node_size, Node as SchemaNode, Order, ReferenceTarget, Scalar, StructField};
use crate::search::normalize::{find_sheet, find_sheet_index, lemma_find_sheet, prepared_columns, SheetInfo};
use crate::text::{decimal, push_decimal};
use vstd::string::StringExecFns;

verus! {

// ---------------------------------------------------------------------------
// Mathematical values of what is read.
// ---------------------------------------------------------------------------

pub enum ValueModel {
    Array(Seq<ValueModel>),
    Icon(i32),
    Reference(ReferenceModel),
    Scalar(Field),
    Struct(Seq<((Seq<char>, Language), ValueModel)>),
}

pub enum ReferenceModel {
    Scalar(i32),
    /// The value, the target sheet, the row, the sub-row if reported, and
    /// the fields read.
    Populated(u32, Seq<char>, u32, Option<u16>, Box<ValueModel>),
}

impl Value {
    pub open spec fn model(self) -> ValueModel
        decreases self,
    {
        match self {
            Value::Array(v) => ValueModel::Array(values_model(v@)),
            Value::Icon(i) => ValueModel::Icon(i),
            Value::Reference(r) => ValueModel::Reference(
                match r {
                    Reference::Scalar(i) => ReferenceModel::Scalar(i),
                    Reference::Populated { value, sheet, row_id, subrow_id, fields } => ReferenceModel::Populated(
                        value,
                        sheet@,
                        row_id,
                        subrow_id,
                        Box::new(fields.model()),
                    ),
                },
            ),
            Value::Scalar(f) => ValueModel::Scalar(f),
            Value::Struct(v) => ValueModel::Struct(struct_model(v@)),
        }
    }
}

pub open spec fn values_model(s: Seq<Value>) -> Seq<ValueModel>
    decreases s,
{
    if s.len() == 0 {
        Seq::empty()
    } else {
        values_model(s.drop_last()).push(s.last().model())
    }
}

pub open spec fn struct_model(s: Seq<(StructKey, Value)>) -> Seq<((Seq<char>, Language), ValueModel)>
    decreases s,
{
    if s.len() == 0 {
        Seq::empty()
    } else {
        struct_model(s.drop_last()).push(((s.last().0.name@, s.last().0.language), s.last().1.model()))
    }
}

/// The mathematical value of a read failure.
pub enum ReadErrorModel {
    NotFound(Seq<char>),
    FilterSchemaMismatch(Seq<char>, Seq<char>),
    SchemaGameMismatch(Seq<char>, Seq<char>),
    Failure(Seq<char>),
}

pub open spec fn contextual_path() -> Seq<char> {
    "TODO: contextual filter path"@
}

/// Whether an error is the one a model describes.
pub open spec fn error_matches(e: Error, m: ReadErrorModel) -> bool {
    match m {
        ReadErrorModel::NotFound(s) => e matches Error::NotFound(t) && t@ == s,
        ReadErrorModel::FilterSchemaMismatch(f, r) => e matches Error::FilterSchemaMismatch(x) && x.field@ == f
            && x.reason@ == r,
        ReadErrorModel::SchemaGameMismatch(f, r) => e matches Error::SchemaGameMismatch(x) && x.field@ == f
            && x.reason@ == r,
        ReadErrorModel::Failure(s) => e matches Error::Failure(t) && t@ == s,
    }
}

pub open spec fn outcome_matches(r: Result<Value, Error>, m: Result<ValueModel, ReadErrorModel>) -> bool {
    match (r, m) {
        (Ok(v), Ok(vm)) => v.model() == vm,
        (Err(e), Err(em)) => error_matches(e, em),
        _ => false,
    }
}

// ---------------------------------------------------------------------------
// Looking up rows and fields.
// ---------------------------------------------------------------------------

/// The first row with the given ids, read in the given language.
pub open spec fn find_row(rows: Seq<RowData>, language: Language, row_id: u32, subrow_id: u16, i: int) -> Option<
    int,
>
    decreases rows.len() - i,
{
    if !(0 <= i < rows.len()) {
        None
    } else if rows[i].language == language && rows[i].row_id == row_id && rows[i].subrow_id == subrow_id {
        Some(i)
    } else {
        find_row(rows, language, row_id, subrow_id, i + 1)
    }
}

/// The value of a column in a row.
pub open spec fn find_field(fields: Seq<(ColumnDefinition, Field)>, column: ColumnDefinition, i: int) -> Option<int>
    decreases fields.len() - i,
{
    if !(0 <= i < fields.len()) {
        None
    } else if fields[i].0 == column {
        Some(i)
    } else {
        find_field(fields, column, i + 1)
    }
}

pub open spec fn sheet_missing(sheet: Seq<char>) -> ReadErrorModel {
    ReadErrorModel::NotFound("sheet "@ + sheet + " not found"@)
}

pub open spec fn row_missing(sheet: Seq<char>, row_id: u32, subrow_id: u16) -> ReadErrorModel {
    ReadErrorModel::NotFound(
        "row "@ + decimal(row_id as nat) + ":"@ + decimal(subrow_id as nat) + " not found in sheet "@ + sheet,
    )
}

/// The value of the first column of `columns` in the row being read.
pub open spec fn next_field(
    sheets: Seq<SheetInfo>,
    sheet: Seq<char>,
    language: Language,
    row_id: u32,
    subrow_id: u16,
    columns: Seq<ColumnDefinition>,
) -> Result<Field, ReadErrorModel> {
    if columns.len() == 0 {
        Err(ReadErrorModel::SchemaGameMismatch(contextual_path(), "tried to read field but no columns available"@))
    } else {
        match find_sheet(sheets, sheet, 0) {
            None => Err(sheet_missing(sheet)),
            Some(si) => match sheets[si].data {
                None => Err(sheet_missing(sheet)),
                Some(data) => match find_row(data.rows@, language, row_id, subrow_id, 0) {
                    None => Err(row_missing(sheet, row_id, subrow_id)),
                    Some(ri) => match find_field(data.rows@[ri].fields@, columns[0], 0) {
                        None => Err(ReadErrorModel::Failure("column not found in row"@)),
                        Some(fi) => Ok(data.rows@[ri].fields@[fi].1),
                    },
                },
            },
        }
    }
}

/// The row id a reference column holds.
pub open spec fn reference_value(field: Field) -> Result<i32, ReadErrorModel> {
    match field {
        Field::I8(v) => Ok(v as i32),
        Field::I16(v) => Ok(v as i32),
        Field::I32(v) => Ok(v),
        Field::I64(v) => if i32::MIN <= v <= i32::MAX {
            Ok(v as i32)
        } else {
            Err(ReadErrorModel::Failure("out of range integral type conversion attempted"@))
        },
        Field::U8(v) => Ok(v as i32),
        Field::U16(v) => Ok(v as i32),
        Field::U32(v) => if v <= i32::MAX {
            Ok(v as i32)
        } else {
            Err(ReadErrorModel::Failure("out of range integral type conversion attempted"@))
        },
        Field::U64(v) => if v <= i32::MAX {
            Ok(v as i32)
        } else {
            Err(ReadErrorModel::Failure("out of range integral type conversion attempted"@))
        },
        _ => Err(ReadErrorModel::Failure("invalid index type "@ + field_text(field))),
    }
}

// ---------------------------------------------------------------------------
// The fields of a struct, with the columns they span.
// ---------------------------------------------------------------------------

/// One item of a struct: a named field (by its index) or an unnamed column,
/// with the columns it spans.
pub struct Item {
    pub name: Seq<char>,
    pub field: Option<int>,
    pub start: int,
    pub end: int,
}

/// One unnamed column at `offset`.
pub open spec fn unknown_item(offset: int) -> Item {
    Item { name: "unknown"@ + decimal(offset as nat), field: None, start: offset, end: offset + 1 }
}

/// The unnamed columns from `from` up to `to`.
pub open spec fn unknowns(from: int, to: int) -> Seq<Item> {
    Seq::new(if from < to { (to - from) as nat } else { 0 }, |j: int| unknown_item(from + j))
}

/// The items of the first `k` fields, each after the unnamed columns between
/// the end of the previous field and its start; with the end of field `k`.
pub open spec fn items_upto(fields: Seq<StructField>, k: int) -> (Seq<Item>, int)
    decreases k,
{
    if k <= 0 {
        (Seq::empty(), 0)
    } else {
        let (earlier, last_end) = items_upto(fields, k - 1);
        let f = fields[k - 1];
        let start = f.offset as int;
        let end = start + node_size(f.node);
        (earlier + unknowns(last_end, start) + seq![Item { name: f.name@, field: Some(k - 1), start, end }], end)
    }
}

/// The end of the last field of a struct.
pub open spec fn fields_end(fields: Seq<StructField>) -> int {
    fields.last().offset as int + node_size(fields.last().node)
}

/// The items of a struct over `n` columns: its fields and the unnamed columns
/// around them; a mismatch when the last field ends past the columns.
pub open spec fn struct_items(fields: Seq<StructField>, n: int) -> Result<Seq<Item>, ReadErrorModel> {
    if fields_end(fields) > n {
        Err(ReadErrorModel::SchemaGameMismatch("TODO"@, "not enough columns to satisfy struct"@))
    } else {
        Ok(items_upto(fields, fields.len() as int).0 + unknowns(fields_end(fields), n))
    }
}

/// A struct schema this reader handles over `n` columns: it has fields, and
/// when the last field ends within the columns, so does every field.
pub open spec fn struct_ok(fields: Seq<StructField>, n: int) -> bool {
    &&& fields.len() > 0
    &&& fields_end(fields) <= n ==> forall|i: int|
        0 <= i < fields.len() ==> #[trigger] fields[i].offset + node_size(fields[i].node) <= n
}

/// A node this reader handles over `n` columns: every node spans column
/// counts that fit, and every struct node is one the reader handles over
/// the columns it is given (a nested node gets as many as it spans).
pub open spec fn readable(node: SchemaNode, n: int) -> bool
    decreases node, 0int,
{
    &&& node_fits(node)
    &&& match node {
        SchemaNode::Array { count: _, node: element } => readable(*element, node_size(*element)),
        SchemaNode::Scalar(_) => true,
        SchemaNode::Struct(fields) => struct_ok(fields@, n) && fields_readable(fields@),
    }
}

pub open spec fn fields_readable(fields: Seq<StructField>) -> bool
    decreases fields, 0int,
{
    if fields.len() == 0 {
        true
    } else {
        proof {
            assert(decreases_to!(fields => fields.last()));
        }
        fields_readable(fields.drop_last()) && readable(fields.last().node, node_size(fields.last().node))
    }
}

/// Every schema of the catalog can be read over the columns of its sheet.
pub open spec fn catalog_readable(sheets: Seq<SheetInfo>) -> bool {
    forall|i: int|
        0 <= i < sheets.len() ==> (#[trigger] sheets[i].schema matches Some(s) ==> (sheets[i].data matches Some(
            d,
        ) ==> readable(s.node, prepared_columns(s.order, d.columns@).len() as int)))
}

// ---------------------------------------------------------------------------
// Reading.
// ---------------------------------------------------------------------------

/// Where a read is at: the sheet and row, the language, the filter, the
/// columns the current schema node spans, and how many references may
/// still be followed.
pub struct ReadCtx {
    pub sheet: Seq<char>,
    pub language: Language,
    pub row_id: u32,
    pub subrow_id: u16,
    pub filter: Filter,
    pub columns: Seq<ColumnDefinition>,
    pub depth: nat,
}

/// The languages and filters a struct item is read with: under a struct
/// filter, the entries for the item's name, in order; under any other
/// filter, the current language with everything selected.
pub open spec fn item_reads(filter: Filter, name: Seq<char>, language: Language) -> Seq<(Language, Filter)> {
    match filter {
        Filter::Struct(entries) => entry_reads(entries@, name),
        _ => seq![(language, Filter::All)],
    }
}

pub open spec fn entry_reads(entries: Seq<crate::read::StructEntry>, name: Seq<char>) -> Seq<(Language, Filter)>
    decreases entries.len(),
{
    if entries.len() == 0 {
        Seq::empty()
    } else if entries.last().field@ == name {
        entry_reads(entries.drop_last(), name).push((entries.last().language, entries.last().filter))
    } else {
        entry_reads(entries.drop_last(), name)
    }
}

/// Every read of a struct, item by item: the item and a language and filter.
pub open spec fn struct_reads(items: Seq<Item>, filter: Filter, language: Language) -> Seq<(Item, Language, Filter)>
    decreases items.len(),
{
    if items.len() == 0 {
        Seq::empty()
    } else {
        let last = items.last();
        struct_reads(items.drop_last(), filter, language) + item_reads(filter, last.name, language).map_values(
            |r: (Language, Filter)| (last, r.0, r.1),
        )
    }
}

/// Whether a key is among the first entries.
pub open spec fn has_key(entries: Seq<((Seq<char>, Language), ValueModel)>, key: (Seq<char>, Language)) -> bool {
    exists|i: int| 0 <= i < entries.len() && #[trigger] entries[i].0 == key
}

/// The targets of a reference scalar node; none for any other node.
pub open spec fn reference_targets(node: SchemaNode) -> Seq<ReferenceTarget> {
    match node {
        SchemaNode::Scalar(Scalar::Reference(targets)) => targets@,
        _ => Seq::empty(),
    }
}

/// Reads the row the context names from the named sheet.
pub open spec fn read_sheet(sheets: Seq<SheetInfo>, ctx: ReadCtx) -> Result<ValueModel, ReadErrorModel>
    decreases 2 * ctx.depth + 1, SchemaNode::Scalar(Scalar::Default), 0int, 0int,
{
    match find_sheet(sheets, ctx.sheet, 0) {
        None => Err(sheet_missing(ctx.sheet)),
        Some(si) => match (sheets[si].schema, sheets[si].data) {
            (Some(schema), Some(data)) => read_node(
                sheets,
                schema.node,
                ReadCtx { columns: prepared_columns(schema.order, data.columns@), ..ctx },
            ),
            _ => Err(sheet_missing(ctx.sheet)),
        },
    }
}

/// A sheet whose schema orders its columns by offset is read over the
/// sheet's columns sorted stably by offset: in order of offset, and the
/// columns of each offset in their listed order. So the field at schema
/// position `k` reads the column with the `k`-th smallest offset, whatever
/// order the game data lists the columns in.
pub proof fn lemma_offset_sheets_read_sorted_columns(sheets: Seq<SheetInfo>, ctx: ReadCtx)
    requires
        find_sheet(sheets, ctx.sheet, 0) matches Some(si) && sheets[si].schema matches Some(schema) && schema.order
            == Order::Offset && sheets[si].data is Some,
    ensures
        ({
            let si = find_sheet(sheets, ctx.sheet, 0)->Some_0;
            let schema = sheets[si].schema->Some_0;
            let listed = sheets[si].data->Some_0.columns@;
            exists|columns: Seq<ColumnDefinition>|
                #[trigger] sorted_by_offset(columns) && (forall|o: u16| at_offset(columns, o) == at_offset(listed, o))
                    && read_sheet(sheets, ctx) == read_node(sheets, schema.node, ReadCtx { columns, ..ctx })
        }),
{
    let si = find_sheet(sheets, ctx.sheet, 0)->Some_0;
    let listed = sheets[si].data->Some_0.columns@;
    let sorted = sort_by_offset(listed);
    lemma_sort_by_offset(listed);
    lemma_sort_by_offset_stable(listed);
    assert(forall|o: u16| at_offset(sorted, o) == at_offset(listed, o));
    assert(sorted_by_offset(sorted));
}

/// A sheet whose schema orders its columns by index is read over the
/// sheet's columns in the order the game data lists them.
pub proof fn lemma_index_sheets_read_listed_columns(sheets: Seq<SheetInfo>, ctx: ReadCtx)
    requires
        find_sheet(sheets, ctx.sheet, 0) matches Some(si) && sheets[si].schema matches Some(schema) && schema.order
            == Order::Index && sheets[si].data is Some,
    ensures
        ({
            let si = find_sheet(sheets, ctx.sheet, 0)->Some_0;
            read_sheet(sheets, ctx) == read_node(
                sheets,
                sheets[si].schema->Some_0.node,
                ReadCtx { columns: sheets[si].data->Some_0.columns@, ..ctx },
            )
        }),
{
}

/// Reads a schema node over the context's columns. An array reads each
/// element over its run of columns under the element filter, and a struct
/// filter selects nothing inside it; a scalar is the value of the first
/// column, a reference followed while depth remains; a struct reads its
/// items as the filter selects them, and an array filter on it fails.
pub open spec fn read_node(sheets: Seq<SheetInfo>, node: SchemaNode, ctx: ReadCtx) -> Result<ValueModel, ReadErrorModel>
    decreases 2 * ctx.depth, node, 1int, 0int,
{
    match node {
        SchemaNode::Array { count, node: element } => match ctx.filter {
            Filter::Struct(_) => Ok(ValueModel::Array(Seq::empty())),
            _ => {
                let inner = match ctx.filter {
                    Filter::Array(inner) => *inner,
                    _ => Filter::All,
                };
                match read_array(sheets, node, ReadCtx { filter: inner, ..ctx }, count as int) {
                    Ok(values) => Ok(ValueModel::Array(values)),
                    Err(e) => Err(e),
                }
            },
        },
        SchemaNode::Scalar(scalar) => match next_field(
            sheets,
            ctx.sheet,
            ctx.language,
            ctx.row_id,
            ctx.subrow_id,
            ctx.columns,
        ) {
            Err(e) => Err(e),
            Ok(field) => match scalar {
                Scalar::Reference(targets) => {
                    match reference_value(field) {
                        Err(e) => Err(e),
                        Ok(value) => if value < 0 || ctx.depth == 0 {
                            Ok(ValueModel::Reference(ReferenceModel::Scalar(value)))
                        } else {
                            match read_targets(sheets, node, ctx, value, targets@.len() as int) {
                                Err(e) => Err(e),
                                Ok((reference, _)) => Ok(ValueModel::Reference(reference)),
                            }
                        },
                    }
                },
                _ => Ok(ValueModel::Scalar(field)),
            },
        },
        SchemaNode::Struct(fields) => match ctx.filter {
            Filter::Array(_) => Err(
                ReadErrorModel::FilterSchemaMismatch(
                    contextual_path(),
                    "expected struct filter, got "@ + filter_text(ctx.filter.model()),
                ),
            ),
            _ => match struct_items(fields@, ctx.columns.len() as int) {
                Err(e) => Err(e),
                Ok(items) => {
                    proof {
                        assert(decreases_to!(node => node->Struct_0));
                        assert(decreases_to!(node->Struct_0 => fields@));
                    }
                    let reads = struct_reads(items, ctx.filter, ctx.language);
                    match read_struct(sheets, node, reads, ctx, reads.len() as int) {
                        Err(e) => Err(e),
                        Ok(entries) => Ok(ValueModel::Struct(entries)),
                    }
                },
            },
        },
    }
}

/// The first `i` elements of an array of `element`, each over its run of
/// columns; the first failure wins.
pub open spec fn read_array(sheets: Seq<SheetInfo>, array: SchemaNode, ctx: ReadCtx, i: int) -> Result<
    Seq<ValueModel>,
    ReadErrorModel,
>
    decreases 2 * ctx.depth, array, 0int, i,
{
    if i <= 0 || !(array is Array) {
        Ok(Seq::empty())
    } else {
        match read_array(sheets, array, ctx, i - 1) {
            Err(e) => Err(e),
            Ok(done) => {
                let element = *array->node;
                proof {
                    assert(decreases_to!(array => array->node));
                }
                let size = node_size(element);
                let start = (i - 1) * size;
                if start + size > ctx.columns.len() {
                    Err(ReadErrorModel::SchemaGameMismatch(contextual_path(), "insufficient columns to satisfy array"@))
                } else {
                    match read_node(
                        sheets,
                        element,
                        ReadCtx { columns: ctx.columns.subrange(start, start + size), ..ctx },
                    ) {
                        Err(e) => Err(e),
                        Ok(v) => Ok(done.push(v)),
                    }
                }
            },
        }
    }
}

/// The first `i` reads of a struct, in turn; a value whose key was already
/// read is dropped, and the first failure wins.
pub open spec fn read_struct(
    sheets: Seq<SheetInfo>,
    node: SchemaNode,
    reads: Seq<(Item, Language, Filter)>,
    ctx: ReadCtx,
    i: int,
) -> Result<Seq<((Seq<char>, Language), ValueModel)>, ReadErrorModel>
    decreases 2 * ctx.depth, node, 0int, i,
{
    if i <= 0 || i > reads.len() || !(node is Struct) {
        Ok(Seq::empty())
    } else {
        match read_struct(sheets, node, reads, ctx, i - 1) {
            Err(e) => Err(e),
            Ok(done) => {
                let fields = node->Struct_0@;
                let (item, language, filter) = reads[i - 1];
                let columns = ctx.columns.subrange(item.start, item.end);
                let sub = ReadCtx { filter, language, columns, ..ctx };
                let value = match item.field {
                    Some(fi) => if 0 <= fi < fields.len() {
                        proof {
                            assert(decreases_to!(node => node->Struct_0));
                            assert(decreases_to!(node->Struct_0 => fields));
                            assert(decreases_to!(fields => fields[fi]));
                        }
                        read_node(sheets, fields[fi].node, sub)
                    } else {
                        Err(ReadErrorModel::Failure(Seq::empty()))
                    },
                    None => match next_field(sheets, sub.sheet, language, sub.row_id, sub.subrow_id, columns) {
                        Err(e) => Err(e),
                        Ok(field) => Ok(ValueModel::Scalar(field)),
                    },
                };
                match value {
                    Err(e) => Err(e),
                    Ok(v) => if has_key(done, (item.name, language)) {
                        Ok(done)
                    } else {
                        Ok(done.push(((item.name, language), v)))
                    },
                }
            },
        }
    }
}

/// The reference after the first `i` targets, and whether the walk has
/// stopped. A target with a condition or a selector, or of a sheet with
/// sub-rows, stops the walk, so that no later target is taken in its place;
/// a target whose sheet has no row of that id is passed over; otherwise the
/// row is read, becomes the reference, and the walk stops there.
pub open spec fn read_targets(
    sheets: Seq<SheetInfo>,
    node: SchemaNode,
    ctx: ReadCtx,
    value: i32,
    i: int,
) -> Result<(ReferenceModel, bool), ReadErrorModel>
    decreases 2 * ctx.depth, node, 0int, i,
{
    let targets = reference_targets(node);
    if i <= 0 || i > targets.len() || ctx.depth == 0 {
        Ok((ReferenceModel::Scalar(value), false))
    } else {
        match read_targets(sheets, node, ctx, value, i - 1) {
            Err(e) => Err(e),
            Ok((reference, true)) => Ok((reference, true)),
            Ok((reference, false)) => {
                let target = targets[i - 1];
                if target.condition is Some || target.selector is Some {
                    Ok((reference, true))
                } else {
                    match find_sheet(sheets, target.sheet@, 0) {
                        None => Err(sheet_missing(target.sheet@)),
                        Some(si) => match sheets[si].data {
                            None => Err(sheet_missing(target.sheet@)),
                            Some(data) => if data.kind == SheetKind::Subrows {
                                Ok((reference, true))
                            } else {
                                match find_row(data.rows@, ctx.language, value as u32, 0, 0) {
                                    None => Ok((reference, false)),
                                    Some(_) => match read_sheet(
                                        sheets,
                                        ReadCtx {
                                            sheet: target.sheet@,
                                            row_id: value as u32,
                                            subrow_id: 0,
                                            depth: (ctx.depth - 1) as nat,
                                            ..ctx
                                        },
                                    ) {
                                        Err(e) => Err(e),
                                        Ok(child) => Ok(
                                            (
                                                ReferenceModel::Populated(
                                                    value as u32,
                                                    target.sheet@,
                                                    value as u32,
                                                    None,
                                                    Box::new(child),
                                                ),
                                                true,
                                            ),
                                        ),
                                    },
                                }
                            },
                        },
                    }
                }
            },
        }
    }
}

// ---------------------------------------------------------------------------
// Executable reading.
// ---------------------------------------------------------------------------

/// One item of a struct, as `Item` describes it.
#[derive(Debug)]
pub struct StructItem {
    pub name: String,
    pub field: Option<usize>,
    pub start: usize,
    pub end: usize,
}

impl StructItem {
    pub open spec fn model(self) -> Item {
        Item {
            name: self.name@,
            field: match self.field {
                Some(f) => Some(f as int),
                None => None,
            },
            start: self.start as int,
            end: self.end as int,
        }
    }
}

pub open spec fn items_model(items: Seq<StructItem>) -> Seq<Item> {
    items.map_values(|i: StructItem| i.model())
}

proof fn lemma_items_push(items: Seq<StructItem>, item: StructItem)
    ensures
        items_model(items.push(item)) == items_model(items).push(item.model()),
{
    assert(items_model(items.push(item)) =~= items_model(items).push(item.model()));
}

proof fn lemma_unknowns_push(from: int, to: int)
    requires
        from <= to,
    ensures
        unknowns(from, to + 1) == unknowns(from, to).push(unknown_item(to)),
{
    assert(unknowns(from, to + 1) =~= unknowns(from, to).push(unknown_item(to)));
}

proof fn lemma_fields_ok_each(fields: Seq<StructField>)
    requires
        fields_readable(fields),
    ensures
        forall|i: int| 0 <= i < fields.len() ==> readable(#[trigger] fields[i].node, node_size(fields[i].node)),
    decreases fields.len(),
{
    if fields.len() > 0 {
        let p = fields.drop_last();
        lemma_fields_ok_each(p);
        assert forall|i: int| 0 <= i < fields.len() implies readable(
            #[trigger] fields[i].node,
            node_size(fields[i].node),
        ) by {
            if i < p.len() {
                assert(fields[i] == p[i]);
            }
        }
    }
}

proof fn lemma_readable_fits(node: SchemaNode, n: int)
    requires
        readable(node, n),
    ensures
        node_fits(node),
{
}

fn push_unknowns(items: &mut Vec<StructItem>, from: usize, to: usize)
    ensures
        items_model(final(items)@) == items_model(old(items)@) + unknowns(from as int, to as int),
{
    let ghost start = items_model(items@);
    let mut offset = from;
    assert(unknowns(from as int, from as int) =~= Seq::<Item>::empty());
    while offset < to
        invariant
            from <= offset,
            offset <= to || to < from,
            to < from ==> offset == from,
            items_model(items@) == start + unknowns(from as int, offset as int),
        decreases to - offset,
    {
        let mut name = "unknown".to_owned();
        push_decimal(&mut name, offset as u64);
        let item = StructItem { name, field: None, start: offset, end: offset + 1 };
        proof {
            lemma_items_push(items@, item);
            lemma_unknowns_push(from as int, offset as int);
        }
        items.push(item);
        offset = offset + 1;
    }
    assert(unknowns(from as int, to as int) == unknowns(from as int, offset as int)) by {
        if to < from {
            assert(unknowns(from as int, to as int) =~= Seq::<Item>::empty());
            assert(unknowns(from as int, offset as int) =~= Seq::<Item>::empty());
        }
    }
}

/// The items of a struct over `columns` columns: each field, after the
/// unnamed columns between it and the previous field, then the unnamed
/// columns after the last field. A mismatch when the last field ends past
/// the columns.
pub fn iterate_struct_fields(fields: &Vec<StructField>, columns: usize) -> (out: Result<Vec<StructItem>, Error>)
    requires
        struct_ok(fields@, columns as int),
        fields_readable(fields@),
    ensures
        match struct_items(fields@, columns as int) {
            Ok(items) => out matches Ok(v) && items_model(v@) == items,
            Err(e) => out matches Err(x) && error_matches(x, e),
        },
{
    proof {
        lemma_fields_ok_each(fields@);
    }
    let n = fields.len();
    let last = &fields[n - 1];
    let fields_length: u64 = last.offset as u64 + last.node.size() as u64;
    if fields_length > columns as u64 {
        return Err(
            Error::SchemaGameMismatch(
                MismatchError { field: "TODO".to_owned(), reason: "not enough columns to satisfy struct".to_owned() },
            ),
        );
    }
    let mut items: Vec<StructItem> = Vec::new();
    let mut last_end: usize = 0;
    let mut k: usize = 0;
    assert(items_model(items@) =~= items_upto(fields@, 0).0);
    while k < n
        invariant
            k <= n,
            n == fields@.len(),
            struct_ok(fields@, columns as int),
            forall|i: int| 0 <= i < fields@.len() ==> readable(#[trigger] fields@[i].node, node_size(fields@[i].node)),
            fields_end(fields@) == fields_length,
            fields_length <= columns,
            items_model(items@) == items_upto(fields@, k as int).0,
            last_end == items_upto(fields@, k as int).1,
            last_end <= columns,
        decreases n - k,
    {
        let f = &fields[k];
        assert(f.offset + node_size(f.node) <= columns);
        let start = f.offset as usize;
        let end = start + f.node.size() as usize;
        push_unknowns(&mut items, last_end, start);
        let item = StructItem { name: f.name.clone(), field: Some(k), start, end };
        proof {
            lemma_items_push(items@, item);
        }
        items.push(item);
        last_end = end;
        k = k + 1;
    }
    push_unknowns(&mut items, fields_length as usize, columns);
    Ok(items)
}

/// Reads the row id a reference column holds: integer columns that fit a
/// 32-bit signed integer.
pub fn convert_reference_value(field: &Field) -> (out: Result<i32, Error>)
    ensures
        match reference_value(*field) {
            Ok(v) => out == Ok::<i32, Error>(v),
            Err(e) => out matches Err(x) && error_matches(x, e),
        },
{
    match field {
        Field::I8(v) => Ok(*v as i32),
        Field::I16(v) => Ok(*v as i32),
        Field::I32(v) => Ok(*v),
        Field::I64(v) => if i32::MIN as i64 <= *v && *v <= i32::MAX as i64 {
            Ok(*v as i32)
        } else {
            Err(Error::Failure("out of range integral type conversion attempted".to_owned()))
        },
        Field::U8(v) => Ok(*v as i32),
        Field::U16(v) => Ok(*v as i32),
        Field::U32(v) => if *v <= i32::MAX as u32 {
            Ok(*v as i32)
        } else {
            Err(Error::Failure("out of range integral type conversion attempted".to_owned()))
        },
        Field::U64(v) => if *v <= i32::MAX as u64 {
            Ok(*v as i32)
        } else {
            Err(Error::Failure("out of range integral type conversion attempted".to_owned()))
        },
        _ => {
            let mut message = "invalid index type ".to_owned();
            let text = field.describe();
            message.append(text.as_str());
            Err(Error::Failure(message))
        },
    }
}

// ---------------------------------------------------------------------------
// Lemmas on the reading walk.
// ---------------------------------------------------------------------------

proof fn lemma_array_err(sheets: Seq<SheetInfo>, array: SchemaNode, ctx: ReadCtx, i: int, j: int, e: ReadErrorModel)
    requires
        0 < i <= j,
        read_array(sheets, array, ctx, i) == Err::<Seq<ValueModel>, ReadErrorModel>(e),
    ensures
        read_array(sheets, array, ctx, j) == Err::<Seq<ValueModel>, ReadErrorModel>(e),
    decreases j - i,
{
    if i < j {
        lemma_array_err(sheets, array, ctx, i, j - 1, e);
    }
}

proof fn lemma_struct_err(
    sheets: Seq<SheetInfo>,
    node: SchemaNode,
    reads: Seq<(Item, Language, Filter)>,
    ctx: ReadCtx,
    i: int,
    j: int,
    e: ReadErrorModel,
)
    requires
        0 < i <= j <= reads.len(),
        read_struct(sheets, node, reads, ctx, i) == Err::<Seq<((Seq<char>, Language), ValueModel)>, ReadErrorModel>(e),
    ensures
        read_struct(sheets, node, reads, ctx, j) == Err::<Seq<((Seq<char>, Language), ValueModel)>, ReadErrorModel>(e),
    decreases j - i,
{
    if i < j {
        lemma_struct_err(sheets, node, reads, ctx, i, j - 1, e);
    }
}

proof fn lemma_targets_final(
    sheets: Seq<SheetInfo>,
    node: SchemaNode,
    ctx: ReadCtx,
    value: i32,
    i: int,
    j: int,
    r: Result<(ReferenceModel, bool), ReadErrorModel>,
)
    requires
        0 < i <= j <= reference_targets(node).len(),
        read_targets(sheets, node, ctx, value, i) == r,
        r is Err || r matches Ok((_, true)),
    ensures
        read_targets(sheets, node, ctx, value, j) == r,
    decreases j - i,
{
    if i < j {
        lemma_targets_final(sheets, node, ctx, value, i, j - 1, r);
    }
}

proof fn lemma_items_upto_range(fields: Seq<StructField>, k: int, n: int)
    requires
        0 <= k <= fields.len(),
        fields_end(fields) <= n,
        struct_ok(fields, n),
        forall|i: int| 0 <= i < fields.len() ==> node_fits(#[trigger] fields[i].node),
    ensures
        0 <= items_upto(fields, k).1 <= n,
        forall|m: int|
            0 <= m < items_upto(fields, k).0.len() ==> 0 <= (#[trigger] items_upto(fields, k).0[m]).start
                <= items_upto(fields, k).0[m].end <= n && (items_upto(fields, k).0[m].field matches Some(
                fi) ==> 0 <= fi < fields.len() && items_upto(fields, k).0[m].end - items_upto(fields, k).0[m].start
                == node_size(fields[fi].node)),
    decreases k,
{
    if k > 0 {
        lemma_items_upto_range(fields, k - 1, n);
        let f = fields[k - 1];
        assert(f.offset + node_size(f.node) <= n);
        assert(node_size(f.node) >= 0);
        let (earlier, last_end) = items_upto(fields, k - 1);
        let u = unknowns(last_end, f.offset as int);
        let all = items_upto(fields, k).0;
        assert forall|m: int| 0 <= m < all.len() implies 0 <= (#[trigger] all[m]).start <= all[m].end <= n && (all[m].field matches Some(fi) ==> 0 <= fi < fields.len() && all[m].end - all[m].start == node_size(
            fields[fi].node,
        )) by {
            if m < earlier.len() {
                assert(all[m] == earlier[m]);
            } else if m < earlier.len() + u.len() {
                assert(all[m] == u[m - earlier.len()]);
            }
        }
    }
}

proof fn lemma_struct_items_range(fields: Seq<StructField>, n: int)
    requires
        struct_ok(fields, n),
        forall|i: int| 0 <= i < fields.len() ==> node_fits(#[trigger] fields[i].node),
    ensures
        struct_items(fields, n) matches Ok(items) ==> forall|m: int|
            0 <= m < items.len() ==> 0 <= (#[trigger] items[m]).start <= items[m].end <= n && (items[m].field matches Some(
                fi) ==> 0 <= fi < fields.len() && items[m].end - items[m].start == node_size(fields[fi].node)),
{
    if fields_end(fields) <= n {
        lemma_items_upto_range(fields, fields.len() as int, n);
        let a = items_upto(fields, fields.len() as int).0;
        let u = unknowns(fields_end(fields), n);
        let items = a + u;
        assert forall|m: int| 0 <= m < items.len() implies 0 <= (#[trigger] items[m]).start <= items[m].end <= n
            && (items[m].field matches Some(fi) ==> 0 <= fi < fields.len() && items[m].end - items[m].start
            == node_size(fields[fi].node)) by {
            if m < a.len() {
                assert(items[m] == a[m]);
            } else {
                assert(items[m] == u[m - a.len()]);
            }
        }
    }
}

// ---------------------------------------------------------------------------
// The executable reader.
// ---------------------------------------------------------------------------

/// Where a read is at; see `ReadCtx`.
pub struct ReaderContext<'a> {
    pub sheet: String,
    pub language: Language,
    pub row_id: u32,
    pub subrow_id: u16,
    pub filter: &'a Filter,
    pub columns: Vec<ColumnDefinition>,
    pub depth: u8,
}

impl<'a> ReaderContext<'a> {
    pub open spec fn model(&self) -> ReadCtx {
        ReadCtx {
            sheet: self.sheet@,
            language: self.language,
            row_id: self.row_id,
            subrow_id: self.subrow_id,
            filter: *self.filter,
            columns: self.columns@,
            depth: self.depth as nat,
        }
    }
}

fn duplicate_field(field: &Field) -> (out: Field)
    ensures
        out == *field,
{
    match field {
        Field::String(s) => Field::String(s.clone()),
        Field::Bool(v) => Field::Bool(*v),
        Field::I8(v) => Field::I8(*v),
        Field::I16(v) => Field::I16(*v),
        Field::I32(v) => Field::I32(*v),
        Field::I64(v) => Field::I64(*v),
        Field::U8(v) => Field::U8(*v),
        Field::U16(v) => Field::U16(*v),
        Field::U32(v) => Field::U32(*v),
        Field::U64(v) => Field::U64(*v),
        Field::F32(v) => Field::F32(*v),
    }
}

fn sheet_missing_error(sheet: &str) -> (out: Error)
    ensures
        error_matches(out, sheet_missing(sheet@)),
{
    let mut message = "sheet ".to_owned();
    message.append(sheet);
    message.append(" not found");
    Error::NotFound(message)
}

fn row_index(rows: &Vec<RowData>, language: Language, row_id: u32, subrow_id: u16) -> (out: Option<usize>)
    ensures
        match out {
            Some(i) => find_row(rows@, language, row_id, subrow_id, 0) == Some(i as int) && i < rows@.len(),
            None => find_row(rows@, language, row_id, subrow_id, 0) is None,
        },
{
    let mut i: usize = 0;
    while i < rows.len()
        invariant
            i <= rows@.len(),
            find_row(rows@, language, row_id, subrow_id, 0) == find_row(rows@, language, row_id, subrow_id, i as int),
        decreases rows@.len() - i,
    {
        if rows[i].language == language && rows[i].row_id == row_id && rows[i].subrow_id == subrow_id {
            return Some(i);
        }
        i = i + 1;
    }
    None
}

fn field_index(fields: &Vec<(ColumnDefinition, Field)>, column: ColumnDefinition) -> (out: Option<usize>)
    ensures
        match out {
            Some(i) => find_field(fields@, column, 0) == Some(i as int) && i < fields@.len(),
            None => find_field(fields@, column, 0) is None,
        },
{
    let mut i: usize = 0;
    while i < fields.len()
        invariant
            i <= fields@.len(),
            find_field(fields@, column, 0) == find_field(fields@, column, i as int),
        decreases fields@.len() - i,
    {
        if fields[i].0 == column {
            return Some(i);
        }
        i = i + 1;
    }
    None
}

pub open spec fn reads_model(reads: Seq<(usize, Language, &Filter)>, items: Seq<StructItem>) -> Seq<
    (Item, Language, Filter),
> {
    reads.map_values(|r: (usize, Language, &Filter)| (items[r.0 as int].model(), r.1, *r.2))
}

fn build_reads<'b>(items: &Vec<StructItem>, filter: &'b Filter, language: Language, all: &'b Filter) -> (out: Vec<
    (usize, Language, &'b Filter),
>)
    requires
        *all == Filter::All,
    ensures
        reads_model(out@, items@) == struct_reads(items_model(items@), *filter, language),
        forall|k: int| 0 <= k < out@.len() ==> (#[trigger] out@[k]).0 < items@.len(),
{
    let mut out: Vec<(usize, Language, &'b Filter)> = Vec::new();
    let mut i: usize = 0;
    let ghost im = items_model(items@);
    while i < items.len()
        invariant
            i <= items@.len(),
            im == items_model(items@),
            *all == Filter::All,
            reads_model(out@, items@) == struct_reads(im.take(i as int), *filter, language),
            forall|k: int| 0 <= k < out@.len() ==> (#[trigger] out@[k]).0 < items@.len(),
        decreases items@.len() - i,
    {
        let ghost before = reads_model(out@, items@);
        let ghost item = im[i as int];
        assert(im.take(i + 1).drop_last() =~= im.take(i as int));
        assert(im.take(i + 1).last() == item);
        let ghost wanted = item_reads(*filter, item.name, language).map_values(
            |r: (Language, Filter)| (item, r.0, r.1),
        );
        match filter {
            Filter::Struct(entries) => {
                let ghost es = entries@;
                let mut j: usize = 0;
                while j < entries.len()
                    invariant
                        j <= es.len(),
                        es == entries@,
                        i < items@.len(),
                        im == items_model(items@),
                        item == im[i as int],
                        *filter == Filter::Struct(*entries),
                        reads_model(out@, items@) == before + entry_reads(es.take(j as int), item.name).map_values(
                            |r: (Language, Filter)| (item, r.0, r.1),
                        ),
                        forall|k: int| 0 <= k < out@.len() ==> (#[trigger] out@[k]).0 < items@.len(),
                    decreases es.len() - j,
                {
                    assert(es.take(j + 1).drop_last() =~= es.take(j as int));
                    assert(es.take(j + 1).last() == es[j as int]);
                    let ghost prev = out@;
                    if entries[j].field == items[i].name {
                        out.push((i, entries[j].language, &entries[j].filter));
                        assert(reads_model(out@, items@) =~= reads_model(prev, items@).push(
                            (item, es[j as int].language, es[j as int].filter),
                        ));
                        assert(entry_reads(es.take(j + 1), item.name).map_values(
                            |r: (Language, Filter)| (item, r.0, r.1),
                        ) =~= entry_reads(es.take(j as int), item.name).map_values(
                            |r: (Language, Filter)| (item, r.0, r.1),
                        ).push((item, es[j as int].language, es[j as int].filter)));
                    }
                    j = j + 1;
                }
                assert(es.take(es.len() as int) =~= es);
            },
            _ => {
                let ghost prev = out@;
                out.push((i, language, all));
                assert(reads_model(out@, items@) =~= reads_model(prev, items@).push((item, language, Filter::All)));
                assert(wanted =~= seq![(item, language, Filter::All)]);
            },
        }
        assert(reads_model(out@, items@) =~= before + wanted);
        i = i + 1;
    }
    assert(im.take(items@.len() as int) =~= im);
    out
}

fn has_value_key(entries: &Vec<(StructKey, Value)>, name: &String, language: Language) -> (out: bool)
    ensures
        out == has_key(struct_model(entries@), (name@, language)),
{
    let ghost m = struct_model(entries@);
    proof {
        lemma_struct_model(entries@);
    }
    let mut i: usize = 0;
    while i < entries.len()
        invariant
            i <= entries@.len(),
            m == struct_model(entries@),
            m.len() == entries@.len(),
            forall|k: int| 0 <= k < entries@.len() ==> (#[trigger] m[k]).0 == (entries@[k].0.name@, entries@[k].0.language),
            forall|k: int| 0 <= k < i ==> m[k].0 != (name@, language),
        decreases entries@.len() - i,
    {
        if entries[i].0.name == *name && entries[i].0.language == language {
            assert(m[i as int].0 == (name@, language));
            return true;
        }
        i = i + 1;
    }
    false
}

proof fn lemma_struct_model(s: Seq<(StructKey, Value)>)
    ensures
        struct_model(s).len() == s.len(),
        forall|k: int| 0 <= k < s.len() ==> #[trigger] struct_model(s)[k] == ((s[k].0.name@, s[k].0.language), s[k].1.model()),
    decreases s.len(),
{
    if s.len() > 0 {
        lemma_struct_model(s.drop_last());
    }
}

/// Reads rows of the catalog's sheets, shaped by their schemas and filters.
pub struct Reader<'a> {
    pub sheets: &'a Vec<SheetInfo>,
}

impl<'a> Reader<'a> {
    pub fn new(sheets: &'a Vec<SheetInfo>) -> (out: Reader<'a>)
        ensures
            out.sheets@ == sheets@,
    {
        Reader { sheets }
    }

    /// Reads a row of a sheet, through its schema, keeping what `filter`
    /// selects; references are followed at most `depth` levels deep.
    pub fn read(
        &self,
        sheet_name: &str,
        row_id: u32,
        subrow_id: u16,
        default_language: Language,
        filter: &Filter,
        depth: u8,
    ) -> (out: Result<Value, Error>)
        requires
            catalog_readable(self.sheets@),
        ensures
            outcome_matches(
                out,
                read_sheet(
                    self.sheets@,
                    ReadCtx {
                        sheet: sheet_name@,
                        language: default_language,
                        row_id,
                        subrow_id,
                        filter: *filter,
                        columns: Seq::empty(),
                        depth: depth as nat,
                    },
                ),
            ),
    {
        let ctx = ReaderContext {
            sheet: sheet_name.to_owned(),
            language: default_language,
            row_id,
            subrow_id,
            filter,
            columns: Vec::new(),
            depth,
        };
        assert(ctx.columns@ =~= Seq::<ColumnDefinition>::empty());
        self.read_sheet_at(&ctx)
    }

    fn next_field_at(&self, ctx: &ReaderContext, columns: &Vec<ColumnDefinition>) -> (out: Result<Field, Error>)
        ensures
            match next_field(self.sheets@, ctx.sheet@, ctx.language, ctx.row_id, ctx.subrow_id, columns@) {
                Ok(f) => out == Ok::<Field, Error>(f),
                Err(e) => out matches Err(x) && error_matches(x, e),
            },
    {
        if columns.len() == 0 {
            return Err(
                Error::SchemaGameMismatch(
                    MismatchError {
                        field: "TODO: contextual filter path".to_owned(),
                        reason: "tried to read field but no columns available".to_owned(),
                    },
                ),
            );
        }
        proof {
            lemma_find_sheet(self.sheets@, ctx.sheet@, 0);
        }
        let si = match find_sheet_index(self.sheets, &ctx.sheet) {
            None => return Err(sheet_missing_error(ctx.sheet.as_str())),
            Some(si) => si,
        };
        let data = match &self.sheets[si].data {
            None => return Err(sheet_missing_error(ctx.sheet.as_str())),
            Some(data) => data,
        };
        let ri = match row_index(&data.rows, ctx.language, ctx.row_id, ctx.subrow_id) {
            None => {
                let mut message = "row ".to_owned();
                push_decimal(&mut message, ctx.row_id as u64);
                message.append(":");
                push_decimal(&mut message, ctx.subrow_id as u64);
                message.append(" not found in sheet ");
                message.append(ctx.sheet.as_str());
                return Err(Error::NotFound(message));
            },
            Some(ri) => ri,
        };
        let row = &data.rows[ri];
        match field_index(&row.fields, columns[0]) {
            None => Err(Error::Failure("column not found in row".to_owned())),
            Some(fi) => Ok(duplicate_field(&row.fields[fi].1)),
        }
    }

    fn read_sheet_at(&self, ctx: &ReaderContext) -> (out: Result<Value, Error>)
        requires
            catalog_readable(self.sheets@),
        ensures
            outcome_matches(out, read_sheet(self.sheets@, ctx.model())),
        decreases 2 * ctx.depth + 1, SchemaNode::Scalar(Scalar::Default), 0int, 0int,
    {
        proof {
            lemma_find_sheet(self.sheets@, ctx.sheet@, 0);
        }
        let si = match find_sheet_index(self.sheets, &ctx.sheet) {
            None => return Err(sheet_missing_error(ctx.sheet.as_str())),
            Some(si) => si,
        };
        let info = &self.sheets[si];
        let (schema, data) = match (&info.schema, &info.data) {
            (Some(schema), Some(data)) => (schema, data),
            _ => return Err(sheet_missing_error(ctx.sheet.as_str())),
        };
        let columns = match schema.order {
            crate::schema::Order::Index => {
                let all = copy_columns(&data.columns, 0, data.columns.len());
                assert(data.columns@.subrange(0, data.columns@.len() as int) == data.columns@);
                all
            },
            crate::schema::Order::Offset => sort_columns_by_offset(&data.columns),
        };
        proof {
            assert(readable(schema.node, columns@.len() as int));
        }
        let sub = ReaderContext {
            sheet: ctx.sheet.clone(),
            language: ctx.language,
            row_id: ctx.row_id,
            subrow_id: ctx.subrow_id,
            filter: ctx.filter,
            columns,
            depth: ctx.depth,
        };
        self.read_node_at(&schema.node, &sub)
    }

    fn read_node_at(&self, node: &SchemaNode, ctx: &ReaderContext) -> (out: Result<Value, Error>)
        requires
            catalog_readable(self.sheets@),
            readable(*node, ctx.columns@.len() as int),
        ensures
            outcome_matches(out, read_node(self.sheets@, *node, ctx.model())),
        decreases 2 * ctx.depth, *node, 1int, 0int,
    {
        let all = Filter::All;
        match node {
            SchemaNode::Array { count, node: element } => {
                let inner: &Filter = match ctx.filter {
                    Filter::Array(inner) => inner,
                    Filter::All => &all,
                    Filter::Struct(_) => {
                        // A struct filter selects nothing inside an array.
                        let none: Vec<Value> = Vec::new();
                        assert(values_model(none@) == Seq::<ValueModel>::empty());
                        return Ok(Value::Array(none));
                    },
                };
                let ghost inner_ctx = ReadCtx { filter: *inner, ..ctx.model() };
                let size = element.size();
                let mut values: Vec<Value> = Vec::new();
                let mut index: u32 = 0;
                let mut start: u64 = 0;
                while index < *count
                    invariant
                        index <= *count,
                        *node == (SchemaNode::Array { count: *count, node: *element }),
                        inner_ctx == (ReadCtx { filter: *inner, ..ctx.model() }),
                        !(ctx.filter is Struct),
                        *inner == (match *ctx.filter {
                            Filter::Array(i) => *i,
                            _ => Filter::All,
                        }),
                        catalog_readable(self.sheets@),
                        readable(**element, size as int),
                        size == node_size(**element),
                        0 <= *count * size <= u32::MAX,
                        start == index * size,
                        read_array(self.sheets@, *node, inner_ctx, index as int) == Ok::<
                            Seq<ValueModel>,
                            ReadErrorModel,
                        >(values_model(values@)),
                    decreases *count - index,
                {
                    proof {
                        assert(start + size <= *count * size) by (nonlinear_arith)
                            requires
                                start == index * size,
                                index < *count,
                        ;
                    }
                    let end: u64 = start + size as u64;
                    if end > ctx.columns.len() as u64 {
                        let e = Error::SchemaGameMismatch(
                            MismatchError {
                                field: "TODO: contextual filter path".to_owned(),
                                reason: "insufficient columns to satisfy array".to_owned(),
                            },
                        );
                        proof {
                            let em = ReadErrorModel::SchemaGameMismatch(
                                contextual_path(),
                                "insufficient columns to satisfy array"@,
                            );
                            lemma_array_err(self.sheets@, *node, inner_ctx, index + 1, *count as int, em);
                        }
                        return Err(e);
                    }
                    let sub = ReaderContext {
                        sheet: ctx.sheet.clone(),
                        language: ctx.language,
                        row_id: ctx.row_id,
                        subrow_id: ctx.subrow_id,
                        filter: inner,
                        columns: copy_columns(&ctx.columns, start as usize, end as usize),
                        depth: ctx.depth,
                    };
                    proof {
                        assert(sub.model() == (ReadCtx {
                            columns: inner_ctx.columns.subrange(start as int, end as int),
                            ..inner_ctx
                        }));
                        assert(decreases_to!(*node => node->node));
                    }
                    match self.read_node_at(element, &sub) {
                        Err(e) => {
                            proof {
                                let em = choose|em: ReadErrorModel| read_node(self.sheets@, **element, sub.model()) == Err::<
                                    ValueModel,
                                    ReadErrorModel,
                                >(em);
                                lemma_array_err(self.sheets@, *node, inner_ctx, index + 1, *count as int, em);
                            }
                            return Err(e);
                        },
                        Ok(v) => {
                            let ghost before = values@;
                            values.push(v);
                            assert(values@.drop_last() == before);
                        },
                    }
                    proof {
                        assert((index + 1) * size == index * size + size) by (nonlinear_arith);
                    }
                    index = index + 1;
                    start = end;
                }
                Ok(Value::Array(values))
            },
            SchemaNode::Scalar(scalar) => {
                let field = self.next_field_at(ctx, &ctx.columns)?;
                match scalar {
                    Scalar::Reference(targets) => {
                        let value = convert_reference_value(&field)?;
                        if value < 0 || ctx.depth == 0 {
                            return Ok(Value::Reference(Reference::Scalar(value)));
                        }
                        let ghost cm = ctx.model();
                        let mut reference = Reference::Scalar(value);
                        let mut stopped = false;
                        let mut i: usize = 0;
                        while i < targets.len() && !stopped
                            invariant
                                i <= targets@.len(),
                                *node == SchemaNode::Scalar(Scalar::Reference(*targets)),
                                cm == ctx.model(),
                                ctx.depth > 0,
                                value >= 0,
                                next_field(self.sheets@, cm.sheet, cm.language, cm.row_id, cm.subrow_id, cm.columns)
                                    == Ok::<Field, ReadErrorModel>(field),
                                reference_value(field) == Ok::<i32, ReadErrorModel>(value),
                                catalog_readable(self.sheets@),
                                read_targets(self.sheets@, *node, cm, value, i as int) == Ok::<
                                    (ReferenceModel, bool),
                                    ReadErrorModel,
                                >((Value::Reference(reference).model()->Reference_0, stopped)),
                            decreases targets@.len() - i,
                        {
                            let target = &targets[i];
                            if target.condition.is_some() || target.selector.is_some() {
                                stopped = true;
                            } else {
                                proof {
                                    lemma_find_sheet(self.sheets@, target.sheet@, 0);
                                }
                                let si = match find_sheet_index(self.sheets, &target.sheet) {
                                    None => {
                                        proof {
                                            lemma_targets_final(
                                                self.sheets@,
                                                *node,
                                                cm,
                                                value,
                                                i + 1,
                                                targets@.len() as int,
                                                Err(sheet_missing(target.sheet@)),
                                            );
                                        }
                                        return Err(sheet_missing_error(target.sheet.as_str()));
                                    },
                                    Some(si) => si,
                                };
                                let data = match &self.sheets[si].data {
                                    None => {
                                        proof {
                                            lemma_targets_final(
                                                self.sheets@,
                                                *node,
                                                cm,
                                                value,
                                                i + 1,
                                                targets@.len() as int,
                                                Err(sheet_missing(target.sheet@)),
                                            );
                                        }
                                        return Err(sheet_missing_error(target.sheet.as_str()));
                                    },
                                    Some(data) => data,
                                };
                                if data.kind == SheetKind::Subrows {
                                    stopped = true;
                                } else {
                                    match row_index(&data.rows, ctx.language, value as u32, 0) {
                                        None => {},
                                        Some(_) => {
                                            let sub = ReaderContext {
                                                sheet: target.sheet.clone(),
                                                language: ctx.language,
                                                row_id: value as u32,
                                                subrow_id: 0,
                                                filter: ctx.filter,
                                                columns: copy_columns(&ctx.columns, 0, ctx.columns.len()),
                                                depth: ctx.depth - 1,
                                            };
                                            proof {
                                                assert(ctx.columns@.subrange(0, ctx.columns@.len() as int)
                                                    == ctx.columns@);
                                            }
                                            match self.read_sheet_at(&sub) {
                                                Err(e) => {
                                                    proof {
                                                        let em = choose|em: ReadErrorModel| read_sheet(
                                                            self.sheets@,
                                                            sub.model(),
                                                        ) == Err::<ValueModel, ReadErrorModel>(em);
                                                        lemma_targets_final(
                                                            self.sheets@,
                                                            *node,
                                                            cm,
                                                            value,
                                                            i + 1,
                                                            targets@.len() as int,
                                                            Err(em),
                                                        );
                                                    }
                                                    return Err(e);
                                                },
                                                Ok(child) => {
                                                    reference = Reference::Populated {
                                                        value: value as u32,
                                                        sheet: target.sheet.clone(),
                                                        row_id: value as u32,
                                                        subrow_id: None,
                                                        fields: Box::new(child),
                                                    };
                                                    stopped = true;
                                                },
                                            }
                                        },
                                    }
                                }
                            }
                            i = i + 1;
                        }
                        proof {
                            if stopped && i < targets@.len() {
                                lemma_targets_final(
                                    self.sheets@,
                                    *node,
                                    cm,
                                    value,
                                    i as int,
                                    targets@.len() as int,
                                    read_targets(self.sheets@, *node, cm, value, i as int),
                                );
                            }
                        }
                        Ok(Value::Reference(reference))
                    },
                    _ => Ok(Value::Scalar(field)),
                }
            },
            SchemaNode::Struct(fields) => {
                match ctx.filter {
                    Filter::Array(_) => {
                        let mut reason = "expected struct filter, got ".to_owned();
                        let text = ctx.filter.describe();
                        reason.append(text.as_str());
                        return Err(
                            Error::FilterSchemaMismatch(
                                MismatchError { field: "TODO: contextual filter path".to_owned(), reason },
                            ),
                        );
                    },
                    _ => {},
                }
                proof {
                    lemma_fields_ok_each(fields@);
                    assert forall|i: int| 0 <= i < fields@.len() implies node_fits(#[trigger] fields@[i].node) by {
                        lemma_readable_fits(fields@[i].node, node_size(fields@[i].node));
                    }
                    lemma_struct_items_range(fields@, ctx.columns@.len() as int);
                }
                let items = iterate_struct_fields(fields, ctx.columns.len())?;
                let reads = build_reads(&items, ctx.filter, ctx.language, &all);
                let ghost cm = ctx.model();
                let ghost rm = reads_model(reads@, items@);
                let mut entries: Vec<(StructKey, Value)> = Vec::new();
                let mut k: usize = 0;
                while k < reads.len()
                    invariant
                        k <= reads@.len(),
                        *node == SchemaNode::Struct(*fields),
                        cm == ctx.model(),
                        !(ctx.filter is Array),
                        struct_items(fields@, ctx.columns@.len() as int) == Ok::<Seq<Item>, ReadErrorModel>(
                            items_model(items@),
                        ),
                        rm == reads_model(reads@, items@),
                        rm == struct_reads(items_model(items@), *ctx.filter, ctx.language),
                        forall|j: int| 0 <= j < reads@.len() ==> (#[trigger] reads@[j]).0 < items@.len(),
                        forall|m: int|
                            0 <= m < items_model(items@).len() ==> 0 <= (#[trigger] items_model(items@)[m]).start
                                <= items_model(items@)[m].end <= ctx.columns@.len() && (items_model(items@)[m].field matches Some(
                                fi) ==> 0 <= fi < fields@.len() && items_model(items@)[m].end - items_model(items@)[m].start
                                == node_size(fields@[fi].node)),
                        forall|j: int| 0 <= j < fields@.len() ==> readable(
                            #[trigger] fields@[j].node,
                            node_size(fields@[j].node),
                        ),
                        catalog_readable(self.sheets@),
                        read_struct(self.sheets@, *node, rm, cm, k as int) == Ok::<
                            Seq<((Seq<char>, Language), ValueModel)>,
                            ReadErrorModel,
                        >(struct_model(entries@)),
                    decreases reads@.len() - k,
                {
                    let ghost done = struct_model(entries@);
                    let (idx, language, filter) = reads[k];
                    let item = &items[idx];
                    proof {
                        assert(items_model(items@)[idx as int] == item.model());
                        assert(rm[k as int] == (item.model(), language, *filter));
                    }
                    let columns = copy_columns(&ctx.columns, item.start, item.end);
                    let sub = ReaderContext {
                        sheet: ctx.sheet.clone(),
                        language,
                        row_id: ctx.row_id,
                        subrow_id: ctx.subrow_id,
                        filter,
                        columns,
                        depth: ctx.depth,
                    };
                    let value = match item.field {
                        Some(fi) => {
                            proof {
                                assert(decreases_to!(*node => node->Struct_0));
                                assert(decreases_to!(node->Struct_0 => fields@));
                                assert(decreases_to!(fields@ => fields@[fi as int]));
                            }
                            match self.read_node_at(&fields[fi].node, &sub) {
                                Ok(v) => v,
                                Err(e) => {
                                    proof {
                                        let em = choose|em: ReadErrorModel| read_node(
                                            self.sheets@,
                                            fields@[fi as int].node,
                                            sub.model(),
                                        ) == Err::<ValueModel, ReadErrorModel>(em);
                                        lemma_struct_err(self.sheets@, *node, rm, cm, k + 1, rm.len() as int, em);
                                    }
                                    return Err(e);
                                },
                            }
                        },
                        None => match self.next_field_at(&sub, &sub.columns) {
                            Ok(f) => Value::Scalar(f),
                            Err(e) => {
                                proof {
                                    let em = choose|em: ReadErrorModel| next_field(
                                        self.sheets@,
                                        sub.sheet@,
                                        language,
                                        sub.row_id,
                                        sub.subrow_id,
                                        sub.columns@,
                                    ) == Err::<Field, ReadErrorModel>(em);
                                    lemma_struct_err(self.sheets@, *node, rm, cm, k + 1, rm.len() as int, em);
                                }
                                return Err(e);
                            },
                        },
                    };
                    let ghost vm = value.model();
                    proof {
                        let sub_m = ReadCtx {
                            filter: *filter,
                            language,
                            columns: cm.columns.subrange(item.model().start, item.model().end),
                            ..cm
                        };
                        assert(sub.model() == sub_m);
                        match item.field {
                            Some(fi) => {
                                assert(read_node(self.sheets@, fields@[fi as int].node, sub_m) == Ok::<
                                    ValueModel,
                                    ReadErrorModel,
                                >(vm));
                            },
                            None => {
                                assert(next_field(self.sheets@, cm.sheet, language, cm.row_id, cm.subrow_id, sub_m.columns)
                                    == Ok::<Field, ReadErrorModel>(vm->Scalar_0));
                            },
                        }
                    }
                    let present = has_value_key(&entries, &item.name, language);
                    if !present {
                        let ghost before = entries@;
                        entries.push((StructKey { name: item.name.clone(), language }, value));
                        assert(entries@.drop_last() == before);
                    }
                    proof {
                        assert(read_struct(self.sheets@, *node, rm, cm, k + 1) == if has_key(done, (item.name@, language)) {
                            Ok::<Seq<((Seq<char>, Language), ValueModel)>, ReadErrorModel>(done)
                        } else {
                            Ok::<Seq<((Seq<char>, Language), ValueModel)>, ReadErrorModel>(
                                done.push(((item.name@, language), vm)),
                            )
                        });
                    }
                    k = k + 1;
                }
                Ok(Value::Struct(entries))
            },
        }
    }
}

} // verus!
