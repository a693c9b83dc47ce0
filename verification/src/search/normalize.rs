use vstd::prelude::*;

use crate::excel::{copy_columns, sort_by_offset, sort_columns_by_offset, ColumnDefinition, ColumnKind, SheetData};
use crate::language::{contains_language, language_name, language_name_str, Language};
use crate::text::{chars_of, push_char, push_decimal};
use vstd::string::StringExecFns;
use crate::schema::{node_fits, node_size, Node as SchemaNode, Order, Scalar, Sheet as SheetSchema, StructField};
use crate::search::post::{self, clauses_model, lemma_clauses_model_ext, NodeModel, OperationModel};
use crate::search::pre::{self, Occur};
use crate::search::{Error, ErrorModel, MismatchError};

verus! {

// ---------------------------------------------------------------------------
// Scalar columns below a schema node.
// ---------------------------------------------------------------------------

/// The columns of the non-reference scalars below `node`, in schema order,
/// when `columns` holds every column the node spans.
pub open spec fn scalars(node: SchemaNode, columns: Seq<ColumnDefinition>) -> Option<Seq<ColumnDefinition>>
    decreases node, 0int,
{
    match node {
        SchemaNode::Array { count, node: element } => array_scalars(*element, columns, count as int),
        SchemaNode::Scalar(Scalar::Reference(_)) => Some(Seq::empty()),
        SchemaNode::Scalar(_) => if columns.len() == 0 {
            None
        } else {
            Some(seq![columns[0]])
        },
        SchemaNode::Struct(fields) => {
            proof {
                assert(decreases_to!(node => node->Struct_0));
                assert(decreases_to!(node->Struct_0 => fields@));
            }
            fields_scalars(fields@, columns, fields@.len() as int)
        },
    }
}

/// The scalar columns of the first `i` elements of an array of `element`.
pub open spec fn array_scalars(element: SchemaNode, columns: Seq<ColumnDefinition>, i: int) -> Option<
    Seq<ColumnDefinition>,
>
    decreases element, i + 1,
{
    if i <= 0 {
        Some(Seq::empty())
    } else {
        match array_scalars(element, columns, i - 1) {
            None => None,
            Some(acc) => {
                let size = node_size(element);
                let start = (i - 1) * size;
                let end = start + size;
                if end > columns.len() {
                    None
                } else {
                    match scalars(element, columns.subrange(start, end)) {
                        None => None,
                        Some(s) => Some(acc + s),
                    }
                }
            },
        }
    }
}

/// The scalar columns of the first `i` fields of a struct.
pub open spec fn fields_scalars(fields: Seq<StructField>, columns: Seq<ColumnDefinition>, i: int) -> Option<
    Seq<ColumnDefinition>,
>
    decreases fields, i,
{
    if i <= 0 || i > fields.len() {
        Some(Seq::empty())
    } else {
        match fields_scalars(fields, columns, i - 1) {
            None => None,
            Some(acc) => {
                let field = fields[i - 1];
                let start = field.offset as int;
                let end = start + node_size(field.node);
                if end > columns.len() {
                    None
                } else {
                    proof {
                        assert(decreases_to!(fields => fields[i - 1]));
                    }
                    match scalars(fields[i - 1].node, columns.subrange(start, end)) {
                        None => None,
                        Some(s) => Some(acc + s),
                    }
                }
            },
        }
    }
}

proof fn lemma_array_scalars_none(element: SchemaNode, columns: Seq<ColumnDefinition>, i: int, j: int)
    requires
        0 <= i <= j,
        array_scalars(element, columns, i) is None,
    ensures
        array_scalars(element, columns, j) is None,
    decreases j - i,
{
    if i < j {
        lemma_array_scalars_none(element, columns, i, j - 1);
    }
}

proof fn lemma_fields_scalars_none(fields: Seq<StructField>, columns: Seq<ColumnDefinition>, i: int, j: int)
    requires
        0 < i <= j <= fields.len(),
        fields_scalars(fields, columns, i) is None,
    ensures
        fields_scalars(fields, columns, j) is None,
    decreases j - i,
{
    if i < j {
        lemma_fields_scalars_none(fields, columns, i, j - 1);
    }
}

proof fn lemma_fields_fit_each(fields: Seq<StructField>)
    requires
        crate::schema::fields_fit(fields),
    ensures
        forall|i: int| 0 <= i < fields.len() ==> node_fits(#[trigger] fields[i].node),
    decreases fields.len(),
{
    if fields.len() > 0 {
        let p = fields.drop_last();
        lemma_fields_fit_each(p);
        assert forall|i: int| 0 <= i < fields.len() implies node_fits(#[trigger] fields[i].node) by {
            if i < p.len() {
                assert(fields[i] == p[i]);
            }
        }
    }
}

/// Appends to `output` the columns of the non-reference scalars below
/// `schema`; `None` when `columns` does not hold every column the schema
/// needs.
pub fn collect_scalars(
    schema: &SchemaNode,
    columns: &Vec<ColumnDefinition>,
    output: Vec<ColumnDefinition>,
) -> (out: Option<Vec<ColumnDefinition>>)
    requires
        node_fits(*schema),
    ensures
        match scalars(*schema, columns@) {
            None => out is None,
            Some(s) => out matches Some(v) && v@ == output@ + s,
        },
    decreases schema,
{
    match schema {
        SchemaNode::Array { count, node } => {
            let size = node.size();
            let mut output = output;
            let ghost output0 = output@;
            let mut index: u32 = 0;
            let mut start: u64 = 0;
            while index < *count
                invariant
                    index <= *count,
                    *schema == (SchemaNode::Array { count: *count, node: *node }),
                    node_fits(**node),
                    size == node_size(**node),
                    0 <= *count * size <= u32::MAX,
                    start == index * size,
                    array_scalars(**node, columns@, index as int) matches Some(s) && output@ == output0
                        + s,
                decreases *count - index,
            {
                proof {
                    assert(start + size <= *count * size) by (nonlinear_arith)
                        requires
                            start == index * size,
                            index < *count,
                    ;
                    assert(decreases_to!(*schema => schema->node));
                }
                let end: u64 = start + size as u64;
                let ghost acc = array_scalars(**node, columns@, index as int)->Some_0;
                if end > columns.len() as u64 {
                    proof {
                        assert(array_scalars(**node, columns@, index + 1) is None);
                        lemma_array_scalars_none(**node, columns@, index + 1, *count as int);
                    }
                    return None;
                }
                let slice = copy_columns(columns, start as usize, end as usize);
                match collect_scalars(node, &slice, output) {
                    None => {
                        proof {
                            assert(array_scalars(**node, columns@, index + 1) is None);
                            lemma_array_scalars_none(**node, columns@, index + 1, *count as int);
                        }
                        return None;
                    },
                    Some(o) => {
                        output = o;
                    },
                }
                proof {
                    assert(output@ == output0 + (acc + scalars(**node, slice@)->Some_0));
                    assert((index + 1) * size == index * size + size) by (nonlinear_arith);
                }
                index = index + 1;
                start = end;
            }
            Some(output)
        },
        SchemaNode::Scalar(Scalar::Reference(_)) => {
            assert(output@ + Seq::<ColumnDefinition>::empty() == output@);
            Some(output)
        },
        SchemaNode::Scalar(_) => {
            if columns.len() == 0 {
                None
            } else {
                let mut output = output;
                output.push(columns[0]);
                Some(output)
            }
        },
        SchemaNode::Struct(fields) => {
            proof {
                lemma_fields_fit_each(fields@);
            }
            let mut output = output;
            let ghost output0 = output@;
            let mut i: usize = 0;
            while i < fields.len()
                invariant
                    i <= fields@.len(),
                    *schema == SchemaNode::Struct(*fields),
                    forall|j: int| 0 <= j < fields@.len() ==> node_fits(#[trigger] fields@[j].node),
                    fields_scalars(fields@, columns@, i as int) matches Some(s) && output@ == output0
                        + s,
                decreases fields@.len() - i,
            {
                let field = &fields[i];
                let ghost acc = fields_scalars(fields@, columns@, i as int)->Some_0;
                let start: u64 = field.offset as u64;
                let end: u64 = start + field.node.size() as u64;
                if end > columns.len() as u64 {
                    proof {
                        assert(fields_scalars(fields@, columns@, i + 1) is None);
                        lemma_fields_scalars_none(fields@, columns@, i + 1, fields@.len() as int);
                    }
                    return None;
                }
                let slice = copy_columns(columns, start as usize, end as usize);
                proof {
                    assert(decreases_to!(*schema => schema->Struct_0));
                    assert(decreases_to!(*fields => fields@));
                    assert(decreases_to!(fields@ => fields@[i as int]));
                }
                match collect_scalars(&field.node, &slice, output) {
                    None => {
                        proof {
                            assert(fields_scalars(fields@, columns@, i + 1) is None);
                            lemma_fields_scalars_none(fields@, columns@, i + 1, fields@.len() as int);
                        }
                        return None;
                    },
                    Some(o) => {
                        output = o;
                    },
                }
                proof {
                    assert(output@ == output0 + (acc + scalars(fields@[i as int].node, slice@)->Some_0));
                }
                i = i + 1;
            }
            Some(output)
        },
    }
}

// ---------------------------------------------------------------------------
// Or-groups.
// ---------------------------------------------------------------------------

/// The node that matches when any of `nodes` matches: none for no nodes, the
/// node itself for one, and a group of `Should` clauses otherwise.
pub open spec fn or_group(nodes: Seq<NodeModel>) -> Option<NodeModel> {
    if nodes.len() == 0 {
        None
    } else if nodes.len() == 1 {
        Some(nodes[0])
    } else {
        Some(NodeModel::Group(nodes.map_values(|n: NodeModel| (Occur::Should, n))))
    }
}

pub open spec fn nodes_model(nodes: Seq<post::Node>) -> Seq<NodeModel> {
    nodes.map_values(|n: post::Node| n.model())
}

pub open spec fn option_node_model(node: Option<post::Node>) -> Option<NodeModel> {
    match node {
        Some(n) => Some(n.model()),
        None => None,
    }
}

/// Combines nodes into one that matches when any of them matches.
pub fn create_or_group(nodes: Vec<post::Node>) -> (out: Option<post::Node>)
    ensures
        option_node_model(out) == or_group(nodes_model(nodes@)),
{
    let ghost m = nodes_model(nodes@);
    let n = nodes.len();
    if n == 0 {
        return None;
    }
    let mut nodes = nodes;
    if n == 1 {
        let node = nodes.remove(0);
        return Some(node);
    }
    let ghost all = nodes@;
    let mut clauses: Vec<(Occur, post::Node)> = Vec::new();
    let mut i: usize = 0;
    while nodes.len() > 0
        invariant
            i + nodes@.len() == all.len(),
            all.len() == n,
            nodes@ == all.skip(i as int),
            clauses@.len() == i,
            forall|j: int| 0 <= j < i ==> (#[trigger] clauses@[j].0, clauses@[j].1.model()) == (
                Occur::Should,
                all[j].model(),
            ),
        decreases nodes@.len(),
    {
        let node = nodes.remove(0);
        clauses.push((Occur::Should, node));
        proof {
            assert(nodes@ == all.skip(i + 1));
        }
        i = i + 1;
    }
    proof {
        let target = m.map_values(|x: NodeModel| (Occur::Should, x));
        lemma_clauses_model_ext(clauses@, target);
    }
    Some(post::Node::Group(post::Group { clauses }))
}

// ---------------------------------------------------------------------------
// The catalog of sheets that queries are tied to.
// ---------------------------------------------------------------------------

/// What is known of one sheet: its schema, when the schema describes it, and
/// its game data, when the game holds it.
pub struct SheetInfo {
    pub name: String,
    pub schema: Option<SheetSchema>,
    pub data: Option<SheetData>,
}

/// Every schema in the catalog spans column counts that a `u32` holds.
pub open spec fn catalog_fits(sheets: Seq<SheetInfo>) -> bool {
    forall|i: int|
        0 <= i < sheets.len() ==> (#[trigger] sheets[i].schema matches Some(s) ==> node_fits(s.node))
}

/// The first sheet at or after `i` with the given name.
pub open spec fn find_sheet(sheets: Seq<SheetInfo>, name: Seq<char>, i: int) -> Option<int>
    decreases sheets.len() - i,
{
    if !(0 <= i < sheets.len()) {
        None
    } else if sheets[i].name@ == name {
        Some(i)
    } else {
        find_sheet(sheets, name, i + 1)
    }
}

/// The language a sheet is read in: the requested one when the sheet holds
/// it, else the neutral language when the sheet holds that.
pub open spec fn sheet_language(languages: Seq<Language>, ambient: Language) -> Option<Language> {
    if languages.contains(ambient) {
        Some(ambient)
    } else if languages.contains(Language::Neutral) {
        Some(Language::Neutral)
    } else {
        None
    }
}

/// The columns of a sheet in the order its schema walks them.
pub open spec fn prepared_columns(order: Order, columns: Seq<ColumnDefinition>) -> Seq<ColumnDefinition> {
    match order {
        Order::Index => columns,
        Order::Offset => sort_by_offset(columns),
    }
}

pub open spec fn is_bracket(c: char) -> bool {
    c == '{' || c == '}' || c == '[' || c == ']' || c == '<' || c == '>' || c == '(' || c == ')'
}

/// A schema field name as queries spell it: without brackets.
pub open spec fn sanitized(name: Seq<char>) -> Seq<char>
    decreases name.len(),
{
    if name.len() == 0 {
        Seq::empty()
    } else if is_bracket(name.last()) {
        sanitized(name.drop_last())
    } else {
        sanitized(name.drop_last()).push(name.last())
    }
}

/// The first field at or after `i` whose sanitized name is `name`.
pub open spec fn find_field(fields: Seq<StructField>, name: Seq<char>, i: int) -> Option<int>
    decreases fields.len() - i,
{
    if !(0 <= i < fields.len()) {
        None
    } else if sanitized(fields[i].name@) == name {
        Some(i)
    } else {
        find_field(fields, name, i + 1)
    }
}

pub proof fn lemma_find_sheet(sheets: Seq<SheetInfo>, name: Seq<char>, k: int)
    requires
        0 <= k,
    ensures
        find_sheet(sheets, name, k) matches Some(i) ==> k <= i < sheets.len() && sheets[i].name@ == name,
    decreases sheets.len() - k,
{
    if 0 <= k < sheets.len() && sheets[k].name@ != name {
        lemma_find_sheet(sheets, name, k + 1);
    }
}

proof fn lemma_find_field(fields: Seq<StructField>, name: Seq<char>, k: int)
    requires
        0 <= k,
    ensures
        find_field(fields, name, k) matches Some(i) ==> k <= i < fields.len(),
    decreases fields.len() - k,
{
    if 0 <= k < fields.len() && sanitized(fields[k].name@) != name {
        lemma_find_field(fields, name, k + 1);
    }
}

/// What a query is tied against at some point of the walk: the sheet's
/// languages, the schema node, the columns that node spans, the language of
/// the current field, and the language the query asked for overall.
pub struct Ctx {
    pub languages: Seq<Language>,
    pub schema: SchemaNode,
    pub columns: Seq<ColumnDefinition>,
    pub language: Language,
    pub ambient: Language,
}

pub open spec fn with_columns(ctx: Ctx, columns: Seq<ColumnDefinition>) -> Ctx {
    Ctx { columns, ..ctx }
}

pub open spec fn qsm(field: Seq<char>, reason: Seq<char>) -> ErrorModel {
    ErrorModel::QuerySchemaMismatch(field, reason)
}

pub open spec fn qgm(field: Seq<char>, reason: Seq<char>) -> ErrorModel {
    ErrorModel::QueryGameMismatch(field, reason)
}

pub open spec fn sgm(field: Seq<char>, reason: Seq<char>) -> ErrorModel {
    ErrorModel::SchemaGameMismatch(field, reason)
}

pub open spec fn specifier_word(specifier: pre::FieldSpecifier) -> Seq<char> {
    match specifier {
        pre::FieldSpecifier::Struct(..) => "struct"@,
        pre::FieldSpecifier::Array => "array"@,
    }
}

pub open spec fn node_word(node: SchemaNode) -> Seq<char> {
    match node {
        SchemaNode::Array { .. } => "array"@,
        SchemaNode::Scalar(..) => "scalar"@,
        SchemaNode::Struct(..) => "struct"@,
    }
}

/// The columns that hold strings, in order.
pub open spec fn string_columns(columns: Seq<ColumnDefinition>) -> Seq<ColumnDefinition>
    decreases columns.len(),
{
    if columns.len() == 0 {
        Seq::empty()
    } else if columns.last().kind == ColumnKind::String {
        string_columns(columns.drop_last()).push(columns.last())
    } else {
        string_columns(columns.drop_last())
    }
}

/// One leaf per column, each applying the same operation.
pub open spec fn leaves(columns: Seq<ColumnDefinition>, language: Language, operation: OperationModel) -> Seq<NodeModel> {
    columns.map_values(|c: ColumnDefinition| NodeModel::Leaf(c, language, operation))
}

// ---------------------------------------------------------------------------
// Tying a query to a sheet.
// ---------------------------------------------------------------------------

/// The query tied to the named sheet, read in `ambient` where the sheet
/// holds that language.
pub open spec fn norm_sheet(sheets: Seq<SheetInfo>, query: pre::Node, sheet: Seq<char>, ambient: Language) -> Result<
    NodeModel,
    ErrorModel,
>
    decreases query, 1int,
{
    match find_sheet(sheets, sheet, 0) {
        None => Err(qsm("sheet "@ + sheet, "not found"@)),
        Some(i) => match sheets[i].schema {
            None => Err(qsm("sheet "@ + sheet, "not found"@)),
            Some(schema) => match sheets[i].data {
                None => Err(sgm(sheet, "not found"@)),
                Some(data) => match sheet_language(data.languages@, ambient) {
                    None => Err(
                        qgm("sheet "@ + sheet, "unsupported language "@ + language_name(ambient)),
                    ),
                    Some(language) => norm_node(
                        sheets,
                        query,
                        Ctx {
                            languages: data.languages@,
                            schema: schema.node,
                            columns: prepared_columns(schema.order, data.columns@),
                            language,
                            ambient,
                        },
                    ),
                },
            },
        },
    }
}

pub open spec fn norm_node(sheets: Seq<SheetInfo>, node: pre::Node, ctx: Ctx) -> Result<NodeModel, ErrorModel>
    decreases node, 0int,
{
    match node {
        pre::Node::Group(g) => {
            proof {
                assert(decreases_to!(node => node->Group_0));
                assert(decreases_to!(node->Group_0 => g.clauses));
                assert(decreases_to!(g.clauses => g.clauses@));
            }
            match norm_clauses(sheets, g.clauses@, ctx, g.clauses@.len() as int) {
                Ok(clauses) => Ok(NodeModel::Group(clauses)),
                Err(e) => Err(e),
            }
        },
        pre::Node::Leaf(leaf) => norm_leaf(sheets, leaf, ctx),
    }
}

/// The first `i` clauses, each tied in turn; the first failure wins.
pub open spec fn norm_clauses(sheets: Seq<SheetInfo>, clauses: Seq<(Occur, pre::Node)>, ctx: Ctx, i: int) -> Result<
    Seq<(Occur, NodeModel)>,
    ErrorModel,
>
    decreases clauses, i,
{
    if i <= 0 || i > clauses.len() {
        Ok(Seq::empty())
    } else {
        match norm_clauses(sheets, clauses, ctx, i - 1) {
            Err(e) => Err(e),
            Ok(done) => {
                proof {
                    assert(decreases_to!(clauses => clauses[i - 1]));
                }
                match norm_node(sheets, clauses[i - 1].1, ctx) {
                    Err(e) => Err(e),
                    Ok(m) => Ok(done.push((clauses[i - 1].0, m))),
                }
            },
        }
    }
}

pub open spec fn norm_leaf(sheets: Seq<SheetInfo>, leaf: pre::Leaf, ctx: Ctx) -> Result<NodeModel, ErrorModel>
    decreases leaf, 0int,
{
    match leaf.field {
        None => Err(ErrorModel::MalformedQuery("unbound query nodes are not currently supported"@)),
        Some(specifier) => match (specifier, ctx.schema) {
            (pre::FieldSpecifier::Struct(name, requested), SchemaNode::Struct(fields)) => {
                match find_field(fields@, name@, 0) {
                    None => Err(qsm(name@, "field does not exist"@)),
                    Some(fi) => {
                        let field = fields@[fi];
                        let language = match requested {
                            Some(l) => l,
                            None => ctx.language,
                        };
                        if !ctx.languages.contains(language) {
                            Err(qgm(name@, language_name(language) + " is not supported by this sheet"@))
                        } else {
                            let start = field.offset as int;
                            let end = start + node_size(field.node);
                            if end > ctx.columns.len() {
                                Err(sgm(name@, "game data does not contain enough columns"@))
                            } else {
                                norm_op(
                                    sheets,
                                    leaf.operation,
                                    Ctx {
                                        languages: ctx.languages,
                                        schema: field.node,
                                        columns: ctx.columns.subrange(start, end),
                                        language,
                                        ambient: ctx.ambient,
                                    },
                                )
                            }
                        }
                    },
                }
            },
            (pre::FieldSpecifier::Array, SchemaNode::Array { count, node: element }) => {
                match norm_array(
                    sheets,
                    leaf.operation,
                    Ctx { schema: *element, ..ctx },
                    count as int,
                ) {
                    Ok(clauses) => Ok(NodeModel::Group(clauses)),
                    Err(e) => Err(e),
                }
            },
            (specifier, node) => Err(
                qsm(
                    "TODO query"@,
                    "cannot use "@ + specifier_word(specifier) + " query specifier for "@ + node_word(
                        node,
                    ) + " schema structures"@,
                ),
            ),
        },
    }
}

/// Whether a tied query is a leaf read in `language`, or a group whose
/// clauses all are.
pub open spec fn leaves_read_in(m: NodeModel, language: Language) -> bool {
    match m {
        NodeModel::Leaf(_, l, _) => l == language,
        NodeModel::Group(clauses) => forall|i: int|
            0 <= i < clauses.len() ==> ((#[trigger] clauses[i]).1 matches NodeModel::Leaf(_, l, _) && l == language),
    }
}

/// A match or equality on a struct field that names its language (`a@ja`)
/// is searched in that language, whatever the language around it: every
/// leaf it ties to is read in the requested language, and the sheet must
/// hold that language.
pub proof fn lemma_requested_language_is_searched(
    sheets: Seq<SheetInfo>,
    leaf: pre::Leaf,
    ctx: Ctx,
    requested: Language,
)
    requires
        leaf.field matches Some(pre::FieldSpecifier::Struct(_, Some(l))) && l == requested,
        !(leaf.operation is Relation),
    ensures
        norm_leaf(sheets, leaf, ctx) matches Ok(m) ==> leaves_read_in(m, requested) && ctx.languages.contains(
            requested,
        ),
{
}

/// A match or equality on a struct field that names no language is searched
/// in the language around it.
pub proof fn lemma_current_language_is_searched(sheets: Seq<SheetInfo>, leaf: pre::Leaf, ctx: Ctx)
    requires
        leaf.field matches Some(pre::FieldSpecifier::Struct(_, None)),
        !(leaf.operation is Relation),
    ensures
        norm_leaf(sheets, leaf, ctx) matches Ok(m) ==> leaves_read_in(m, ctx.language),
{
}

/// The operation tied to each of the first `i` elements of an array whose
/// element schema is `ctx.schema`; the first failure wins.
pub open spec fn norm_array(sheets: Seq<SheetInfo>, operation: pre::Operation, ctx: Ctx, i: int) -> Result<
    Seq<(Occur, NodeModel)>,
    ErrorModel,
>
    decreases operation, i,
{
    if i <= 0 {
        Ok(Seq::empty())
    } else {
        match norm_array(sheets, operation, ctx, i - 1) {
            Err(e) => Err(e),
            Ok(done) => {
                let size = node_size(ctx.schema);
                let start = (i - 1) * size;
                let end = start + size;
                if end > ctx.columns.len() {
                    Err(sgm("TODO: query path"@, "game data does not contain enough columns"@))
                } else {
                    match norm_op(sheets, operation, with_columns(ctx, ctx.columns.subrange(start, end))) {
                        Err(e) => Err(e),
                        Ok(m) => Ok(done.push((Occur::Should, m))),
                    }
                }
            },
        }
    }
}

pub open spec fn norm_op(sheets: Seq<SheetInfo>, operation: pre::Operation, ctx: Ctx) -> Result<NodeModel, ErrorModel>
    decreases operation, 0int,
{
    match operation {
        pre::Operation::Relation(relation) => match ctx.schema {
            SchemaNode::Scalar(Scalar::Reference(targets)) => {
                if ctx.columns.len() != 1 {
                    Err(
                        sgm(
                            "TODO: query path"@,
                            "cross-sheet references must have a single source (found "@ + crate::text::decimal(
                                ctx.columns.len(),
                            ) + ")"@,
                        ),
                    )
                } else {
                    proof {
                        assert(decreases_to!(operation => operation->Relation_0));
                        assert(decreases_to!(operation->Relation_0 => relation.query));
                    }
                    match norm_targets(sheets, *relation.query, targets@, ctx, targets@.len() as int) {
                        Err(e) => Err(e),
                        Ok(nodes) => match or_group(nodes) {
                            None => Err(
                                qsm("TODO: query path"@, "no target queries can be resolved against this schema"@),
                            ),
                            Some(g) => Ok(g),
                        },
                    }
                }
            },
            SchemaNode::Scalar(_) => Err(
                qsm("TODO: query path"@, "cannot perform relation operations on this schema node"@),
            ),
            _ => {
                proof {
                    assert(decreases_to!(operation => operation->Relation_0));
                    assert(decreases_to!(operation->Relation_0 => relation.query));
                }
                norm_node(sheets, *relation.query, ctx)
            },
        },
        pre::Operation::Match(text) => match scalars(ctx.schema, ctx.columns) {
            None => Err(sgm("TODO: query path"@, "insufficient game data to satisfy schema"@)),
            Some(columns) => match or_group(
                leaves(string_columns(columns), ctx.language, OperationModel::Match(text@)),
            ) {
                None => Err(qsm("TODO: query path"@, "no string columns with this name exist."@)),
                Some(g) => Ok(g),
            },
        },
        pre::Operation::Equal(value) => match scalars(ctx.schema, ctx.columns) {
            None => Err(sgm("TODO: query path"@, "insufficient game data to satisfy schema"@)),
            Some(columns) => match or_group(
                leaves(columns, ctx.language, OperationModel::Equal(value.model())),
            ) {
                None => Err(qgm("TODO: query path"@, "no scalar columns with this name exist"@)),
                Some(g) => Ok(g),
            },
        },
    }
}

/// The relation's query tied to each of the first `i` reference targets.
/// Targets whose sheet does not fit the query are left out; any other
/// failure wins. A target with a selector or a condition is not handled.
pub open spec fn norm_targets(
    sheets: Seq<SheetInfo>,
    query: pre::Node,
    targets: Seq<crate::schema::ReferenceTarget>,
    ctx: Ctx,
    i: int,
) -> Result<Seq<NodeModel>, ErrorModel>
    decreases query, i + 2,
{
    if i <= 0 || i > targets.len() {
        Ok(Seq::empty())
    } else {
        match norm_targets(sheets, query, targets, ctx, i - 1) {
            Err(e) => Err(e),
            Ok(done) => {
                let target = targets[i - 1];
                if target.selector is Some || target.condition is Some {
                    Err(ErrorModel::Unsupported)
                } else {
                    match norm_sheet(sheets, query, target.sheet@, ctx.ambient) {
                        Err(ErrorModel::QuerySchemaMismatch(_, _)) => Ok(done),
                        Err(e) => Err(e),
                        Ok(m) => Ok(
                            done.push(
                                NodeModel::Leaf(
                                    ctx.columns[0],
                                    ctx.language,
                                    OperationModel::Relation(target.sheet@, None, Box::new(m)),
                                ),
                            ),
                        ),
                    }
                }
            },
        }
    }
}

// ---------------------------------------------------------------------------
// Lemmas: the first failure of a list stays the list's failure.
// ---------------------------------------------------------------------------

proof fn lemma_clauses_err(
    sheets: Seq<SheetInfo>,
    clauses: Seq<(Occur, pre::Node)>,
    ctx: Ctx,
    i: int,
    j: int,
    e: ErrorModel,
)
    requires
        0 < i <= j <= clauses.len(),
        norm_clauses(sheets, clauses, ctx, i) == Err::<Seq<(Occur, NodeModel)>, ErrorModel>(e),
    ensures
        norm_clauses(sheets, clauses, ctx, j) == Err::<Seq<(Occur, NodeModel)>, ErrorModel>(e),
    decreases j - i,
{
    if i < j {
        lemma_clauses_err(sheets, clauses, ctx, i, j - 1, e);
    }
}

proof fn lemma_array_err(sheets: Seq<SheetInfo>, operation: pre::Operation, ctx: Ctx, i: int, j: int, e: ErrorModel)
    requires
        0 < i <= j,
        norm_array(sheets, operation, ctx, i) == Err::<Seq<(Occur, NodeModel)>, ErrorModel>(e),
    ensures
        norm_array(sheets, operation, ctx, j) == Err::<Seq<(Occur, NodeModel)>, ErrorModel>(e),
    decreases j - i,
{
    if i < j {
        lemma_array_err(sheets, operation, ctx, i, j - 1, e);
    }
}

proof fn lemma_targets_err(
    sheets: Seq<SheetInfo>,
    query: pre::Node,
    targets: Seq<crate::schema::ReferenceTarget>,
    ctx: Ctx,
    i: int,
    j: int,
    e: ErrorModel,
)
    requires
        0 < i <= j <= targets.len(),
        norm_targets(sheets, query, targets, ctx, i) == Err::<Seq<NodeModel>, ErrorModel>(e),
    ensures
        norm_targets(sheets, query, targets, ctx, j) == Err::<Seq<NodeModel>, ErrorModel>(e),
    decreases j - i,
{
    if i < j {
        lemma_targets_err(sheets, query, targets, ctx, i, j - 1, e);
    }
}

// ---------------------------------------------------------------------------
// Executable tying of queries to sheets.
// ---------------------------------------------------------------------------

/// The outcome of tying a query: `Unsupported` never comes out of the code,
/// which requires that it is not what the query leads to.
pub open spec fn supported<T>(r: Result<T, ErrorModel>) -> bool {
    !(r matches Err(ErrorModel::Unsupported))
}

pub open spec fn result_model(r: Result<post::Node, Error>) -> Result<NodeModel, ErrorModel> {
    match r {
        Ok(n) => Ok(n.model()),
        Err(e) => Err(e.model()),
    }
}

/// Where in a sheet a query is being tied: see `Ctx`.
pub struct Context<'a> {
    pub languages: &'a Vec<Language>,
    pub schema: &'a SchemaNode,
    pub columns: Vec<ColumnDefinition>,
    pub language: Language,
    pub ambient: Language,
}

impl<'a> Context<'a> {
    pub open spec fn model(&self) -> Ctx {
        Ctx {
            languages: self.languages@,
            schema: *self.schema,
            columns: self.columns@,
            language: self.language,
            ambient: self.ambient,
        }
    }
}

fn mismatch(field: String, reason: &str) -> (out: MismatchError)
    ensures
        out.field@ == field@,
        out.reason@ == reason@,
{
    MismatchError { field, reason: reason.to_owned() }
}

pub fn find_sheet_index(sheets: &Vec<SheetInfo>, name: &String) -> (out: Option<usize>)
    ensures
        match out {
            Some(i) => find_sheet(sheets@, name@, 0) == Some(i as int),
            None => find_sheet(sheets@, name@, 0) is None,
        },
{
    let mut i: usize = 0;
    while i < sheets.len()
        invariant
            i <= sheets@.len(),
            find_sheet(sheets@, name@, 0) == find_sheet(sheets@, name@, i as int),
        decreases sheets@.len() - i,
    {
        if sheets[i].name == *name {
            return Some(i);
        }
        i = i + 1;
    }
    None
}

/// A schema field name without its brackets.
pub fn sanitize_name(name: &String) -> (out: String)
    ensures
        out@ == sanitized(name@),
{
    let cs = chars_of(name.as_str());
    let mut out = String::new();
    let mut i: usize = 0;
    while i < cs.len()
        invariant
            i <= cs@.len(),
            cs@ == name@,
            out@ == sanitized(cs@.take(i as int)),
        decreases cs@.len() - i,
    {
        let c = cs[i];
        assert(cs@.take(i + 1).drop_last() == cs@.take(i as int));
        assert(cs@.take(i + 1).last() == c);
        if !(c == '{' || c == '}' || c == '[' || c == ']' || c == '<' || c == '>' || c == '(' || c == ')') {
            push_char(&mut out, c);
        }
        i = i + 1;
    }
    assert(cs@.take(cs@.len() as int) == cs@);
    out
}

fn find_field_index(fields: &Vec<StructField>, name: &String) -> (out: Option<usize>)
    ensures
        match out {
            Some(i) => find_field(fields@, name@, 0) == Some(i as int),
            None => find_field(fields@, name@, 0) is None,
        },
{
    let mut i: usize = 0;
    while i < fields.len()
        invariant
            i <= fields@.len(),
            find_field(fields@, name@, 0) == find_field(fields@, name@, i as int),
        decreases fields@.len() - i,
    {
        let sanitized_name = sanitize_name(&fields[i].name);
        if sanitized_name == *name {
            return Some(i);
        }
        i = i + 1;
    }
    None
}

/// The columns that hold strings, in order.
fn string_columns_of(columns: &Vec<ColumnDefinition>) -> (out: Vec<ColumnDefinition>)
    ensures
        out@ == string_columns(columns@),
{
    let mut out: Vec<ColumnDefinition> = Vec::new();
    let mut i: usize = 0;
    while i < columns.len()
        invariant
            i <= columns@.len(),
            out@ == string_columns(columns@.take(i as int)),
        decreases columns@.len() - i,
    {
        assert(columns@.take(i + 1).drop_last() == columns@.take(i as int));
        assert(columns@.take(i + 1).last() == columns@[i as int]);
        if columns[i].kind == ColumnKind::String {
            out.push(columns[i]);
        }
        i = i + 1;
    }
    assert(columns@.take(columns@.len() as int) == columns@);
    out
}

proof fn lemma_nodes_model_push(nodes: Seq<post::Node>, n: post::Node)
    ensures
        nodes_model(nodes.push(n)) == nodes_model(nodes).push(n.model()),
{
    assert(nodes_model(nodes.push(n)) =~= nodes_model(nodes).push(n.model()));
}

proof fn lemma_leaves_take(columns: Seq<ColumnDefinition>, language: Language, operation: OperationModel, j: int)
    requires
        0 <= j < columns.len(),
    ensures
        leaves(columns.take(j + 1), language, operation) == leaves(columns.take(j), language, operation).push(
            NodeModel::Leaf(columns[j], language, operation),
        ),
{
    assert(leaves(columns.take(j + 1), language, operation) =~= leaves(columns.take(j), language, operation).push(
        NodeModel::Leaf(columns[j], language, operation),
    ));
}

/// Ties search queries to the sheets of a catalog.
pub struct Normalizer<'a> {
    pub sheets: &'a Vec<SheetInfo>,
}

impl<'a> Normalizer<'a> {
    pub fn new(sheets: &'a Vec<SheetInfo>) -> (out: Normalizer<'a>)
        ensures
            out.sheets@ == sheets@,
    {
        Normalizer { sheets }
    }

    /// Ties `query` to the sheet named `sheet_name`, reading fields in
    /// `ambient_language` where the sheet holds it.
    pub fn normalize(&self, query: &pre::Node, sheet_name: &str, ambient_language: Language) -> (out: Result<
        post::Node,
        Error,
    >)
        requires
            catalog_fits(self.sheets@),
            supported(norm_sheet(self.sheets@, *query, sheet_name@, ambient_language)),
        ensures
            result_model(out) == norm_sheet(self.sheets@, *query, sheet_name@, ambient_language),
        decreases query, 1int,
    {
        let name = sheet_name.to_owned();
        let mut described = "sheet ".to_owned();
        described.append(sheet_name);
        let index = match find_sheet_index(self.sheets, &name) {
            None => return Err(Error::QuerySchemaMismatch(mismatch(described, "not found"))),
            Some(i) => i,
        };
        proof {
            lemma_find_sheet(self.sheets@, name@, 0);
        }
        let info = &self.sheets[index];
        let schema = match &info.schema {
            None => return Err(Error::QuerySchemaMismatch(mismatch(described, "not found"))),
            Some(schema) => schema,
        };
        let data = match &info.data {
            None => return Err(Error::SchemaGameMismatch(mismatch(name, "not found"))),
            Some(data) => data,
        };
        let language = if contains_language(&data.languages, ambient_language) {
            ambient_language
        } else if contains_language(&data.languages, Language::Neutral) {
            Language::Neutral
        } else {
            let mut reason = "unsupported language ".to_owned();
            reason.append(language_name_str(ambient_language));
            return Err(
                Error::QueryGameMismatch(MismatchError { field: described, reason }),
            );
        };
        let columns = match schema.order {
            Order::Index => {
                let all = copy_columns(&data.columns, 0, data.columns.len());
                assert(data.columns@.subrange(0, data.columns@.len() as int) == data.columns@);
                all
            },
            Order::Offset => sort_columns_by_offset(&data.columns),
        };
        proof {
            assert(self.sheets@[index as int].schema matches Some(s) ==> node_fits(s.node));
        }
        let ctx = Context { languages: &data.languages, schema: &schema.node, columns, language, ambient: ambient_language };
        self.normalize_node(query, &ctx)
    }

    fn normalize_node(&self, node: &pre::Node, ctx: &Context) -> (out: Result<post::Node, Error>)
        requires
            catalog_fits(self.sheets@),
            node_fits(*ctx.schema),
            supported(norm_node(self.sheets@, *node, ctx.model())),
        ensures
            result_model(out) == norm_node(self.sheets@, *node, ctx.model()),
        decreases node, 0int,
    {
        match node {
            pre::Node::Group(group) => {
                let ghost cm = ctx.model();
                let ghost cs = group.clauses@;
                let mut clauses: Vec<(Occur, post::Node)> = Vec::new();
                let mut i: usize = 0;
                while i < group.clauses.len()
                    invariant
                        i <= cs.len(),
                        cs == group.clauses@,
                        *node == pre::Node::Group(*group),
                        cm == ctx.model(),
                        catalog_fits(self.sheets@),
                        node_fits(*ctx.schema),
                        supported(norm_clauses(self.sheets@, cs, cm, cs.len() as int)),
                        norm_clauses(self.sheets@, cs, cm, i as int) matches Ok(done) && clauses_model(
                            clauses@,
                        ) == done,
                    decreases cs.len() - i,
                {
                    let clause = &group.clauses[i];
                    proof {
                        assert(decreases_to!(*node => node->Group_0));
                        assert(decreases_to!(node->Group_0 => group.clauses));
                        assert(decreases_to!(group.clauses => group.clauses@));
                        assert(decreases_to!(group.clauses@ => group.clauses@[i as int]));
                        match norm_node(self.sheets@, clause.1, cm) {
                            Err(e) => {
                                lemma_clauses_err(self.sheets@, cs, cm, i + 1, cs.len() as int, e);
                            },
                            Ok(_) => {},
                        }
                    }
                    match self.normalize_node(&clause.1, ctx) {
                        Err(e) => {
                            proof {
                                lemma_clauses_err(self.sheets@, cs, cm, i + 1, cs.len() as int, e.model());
                            }
                            return Err(e);
                        },
                        Ok(m) => {
                            let ghost before = clauses@;
                            clauses.push((clause.0, m));
                            assert(clauses@.drop_last() == before);
                        },
                    }
                    i = i + 1;
                }
                Ok(post::Node::Group(post::Group { clauses }))
            },
            pre::Node::Leaf(leaf) => self.normalize_leaf(leaf, ctx),
        }
    }

    fn normalize_leaf(&self, leaf: &pre::Leaf, ctx: &Context) -> (out: Result<post::Node, Error>)
        requires
            catalog_fits(self.sheets@),
            node_fits(*ctx.schema),
            supported(norm_leaf(self.sheets@, *leaf, ctx.model())),
        ensures
            result_model(out) == norm_leaf(self.sheets@, *leaf, ctx.model()),
        decreases leaf, 0int,
    {
        let specifier = match &leaf.field {
            None => {
                return Err(Error::MalformedQuery("unbound query nodes are not currently supported".to_owned()));
            },
            Some(specifier) => specifier,
        };
        proof {
            assert(decreases_to!(*leaf => leaf.operation));
        }
        match (specifier, ctx.schema) {
            (pre::FieldSpecifier::Struct(name, requested), SchemaNode::Struct(fields)) => {
                let index = match find_field_index(fields, name) {
                    None => return Err(Error::QuerySchemaMismatch(mismatch(name.clone(), "field does not exist"))),
                    Some(i) => i,
                };
                proof {
                    lemma_find_field(fields@, name@, 0);
                }
                let field = &fields[index];
                let language = match requested {
                    Some(l) => *l,
                    None => ctx.language,
                };
                if !contains_language(ctx.languages, language) {
                    let mut reason = language_name_str(language).to_owned();
                    reason.append(" is not supported by this sheet");
                    return Err(Error::QueryGameMismatch(MismatchError { field: name.clone(), reason }));
                }
                proof {
                    lemma_fields_fit_each(fields@);
                    assert(node_fits(fields@[index as int].node));
                }
                let start: u64 = field.offset as u64;
                let end: u64 = start + field.node.size() as u64;
                if end > ctx.columns.len() as u64 {
                    return Err(
                        Error::SchemaGameMismatch(mismatch(name.clone(), "game data does not contain enough columns")),
                    );
                }
                let narrowed = copy_columns(&ctx.columns, start as usize, end as usize);
                let sub = Context {
                    languages: ctx.languages,
                    schema: &field.node,
                    columns: narrowed,
                    language,
                    ambient: ctx.ambient,
                };
                self.normalize_operation(&leaf.operation, &sub)
            },
            (pre::FieldSpecifier::Array, SchemaNode::Array { count, node: element }) => {
                let ghost element_ctx = Ctx { schema: **element, ..ctx.model() };
                let size = element.size();
                let mut clauses: Vec<(Occur, post::Node)> = Vec::new();
                let mut index: u32 = 0;
                let mut start: u64 = 0;
                while index < *count
                    invariant
                        index <= *count,
                        *ctx.schema == (SchemaNode::Array { count: *count, node: *element }),
                        leaf.field == Some(pre::FieldSpecifier::Array),
                        element_ctx == (Ctx { schema: **element, ..ctx.model() }),
                        catalog_fits(self.sheets@),
                        node_fits(**element),
                        size == node_size(**element),
                        0 <= *count * size <= u32::MAX,
                        start == index * size,
                        supported(norm_array(self.sheets@, leaf.operation, element_ctx, *count as int)),
                        norm_array(self.sheets@, leaf.operation, element_ctx, index as int) matches Ok(done)
                            && clauses_model(clauses@) == done,
                    decreases *count - index,
                {
                    proof {
                        assert(start + size <= *count * size) by (nonlinear_arith)
                            requires
                                start == index * size,
                                index < *count,
                        ;
                    }
                    let end: u64 = start + size as u64;
                    if end > ctx.columns.len() as u64 {
                        let e = Error::SchemaGameMismatch(
                            mismatch("TODO: query path".to_owned(), "game data does not contain enough columns"),
                        );
                        proof {
                            lemma_array_err(self.sheets@, leaf.operation, element_ctx, index + 1, *count as int, e.model());
                        }
                        return Err(e);
                    }
                    let narrowed = copy_columns(&ctx.columns, start as usize, end as usize);
                    let sub = Context {
                        languages: ctx.languages,
                        schema: element,
                        columns: narrowed,
                        language: ctx.language,
                        ambient: ctx.ambient,
                    };
                    proof {
                        assert(sub.model() == with_columns(element_ctx, ctx.columns@.subrange(start as int, end as int)));
                        match norm_op(self.sheets@, leaf.operation, sub.model()) {
                            Err(e) => {
                                lemma_array_err(self.sheets@, leaf.operation, element_ctx, index + 1, *count as int, e);
                            },
                            Ok(_) => {},
                        }
                    }
                    match self.normalize_operation(&leaf.operation, &sub) {
                        Err(e) => {
                            proof {
                                lemma_array_err(self.sheets@, leaf.operation, element_ctx, index + 1, *count as int, e.model());
                            }
                            return Err(e);
                        },
                        Ok(m) => {
                            let ghost before = clauses@;
                            clauses.push((Occur::Should, m));
                            assert(clauses@.drop_last() == before);
                        },
                    }
                    proof {
                        assert((index + 1) * size == index * size + size) by (nonlinear_arith);
                    }
                    index = index + 1;
                    start = end;
                }
                Ok(post::Node::Group(post::Group { clauses }))
            },
            (specifier, node) => {
                let mut reason = "cannot use ".to_owned();
                reason.append(
                    match specifier {
                        pre::FieldSpecifier::Struct(..) => "struct",
                        pre::FieldSpecifier::Array => "array",
                    },
                );
                reason.append(" query specifier for ");
                reason.append(
                    match node {
                        SchemaNode::Array { .. } => "array",
                        SchemaNode::Scalar(..) => "scalar",
                        SchemaNode::Struct(..) => "struct",
                    },
                );
                reason.append(" schema structures");
                Err(Error::QuerySchemaMismatch(MismatchError { field: "TODO query".to_owned(), reason }))
            },
        }
    }

    fn normalize_operation(&self, operation: &pre::Operation, ctx: &Context) -> (out: Result<post::Node, Error>)
        requires
            catalog_fits(self.sheets@),
            node_fits(*ctx.schema),
            supported(norm_op(self.sheets@, *operation, ctx.model())),
        ensures
            result_model(out) == norm_op(self.sheets@, *operation, ctx.model()),
        decreases operation, 0int,
    {
        match operation {
            pre::Operation::Relation(relation) => {
                proof {
                    assert(decreases_to!(*operation => operation->Relation_0));
                    assert(decreases_to!(operation->Relation_0 => relation.query));
                }
                match ctx.schema {
                    SchemaNode::Scalar(Scalar::Reference(targets)) => {
                        if ctx.columns.len() != 1 {
                            let mut reason = "cross-sheet references must have a single source (found ".to_owned();
                            push_decimal(&mut reason, ctx.columns.len() as u64);
                            reason.append(")");
                            return Err(
                                Error::SchemaGameMismatch(MismatchError { field: "TODO: query path".to_owned(), reason }),
                            );
                        }
                        let column = ctx.columns[0];
                        let ghost cm = ctx.model();
                        let ghost ts = targets@;
                        let mut nodes: Vec<post::Node> = Vec::new();
                        let mut i: usize = 0;
                        while i < targets.len()
                            invariant
                                i <= ts.len(),
                                *operation == pre::Operation::Relation(*relation),
                                *ctx.schema == SchemaNode::Scalar(Scalar::Reference(*targets)),
                                ts == targets@,
                                cm == ctx.model(),
                                cm.columns.len() == 1,
                                column == cm.columns[0],
                                catalog_fits(self.sheets@),
                                supported(norm_targets(self.sheets@, *relation.query, ts, cm, ts.len() as int)),
                                norm_targets(self.sheets@, *relation.query, ts, cm, i as int) matches Ok(done)
                                    && nodes_model(nodes@) == done,
                            decreases ts.len() - i,
                        {
                            let target = &targets[i];
                            proof {
                                assert(decreases_to!(*operation => operation->Relation_0));
                                assert(decreases_to!(operation->Relation_0 => relation.query));
                                if target.selector is Some || target.condition is Some {
                                    lemma_targets_err(
                                        self.sheets@,
                                        *relation.query,
                                        ts,
                                        cm,
                                        i + 1,
                                        ts.len() as int,
                                        ErrorModel::Unsupported,
                                    );
                                }
                                let r = norm_sheet(self.sheets@, *relation.query, target.sheet@, cm.ambient);
                                if r matches Err(ErrorModel::Unsupported) {
                                    lemma_targets_err(
                                        self.sheets@,
                                        *relation.query,
                                        ts,
                                        cm,
                                        i + 1,
                                        ts.len() as int,
                                        ErrorModel::Unsupported,
                                    );
                                }
                            }
                            match self.normalize(&relation.query, target.sheet.as_str(), ctx.ambient) {
                                Err(Error::QuerySchemaMismatch(_)) => {},
                                Err(e) => {
                                    proof {
                                        lemma_targets_err(
                                            self.sheets@,
                                            *relation.query,
                                            ts,
                                            cm,
                                            i + 1,
                                            ts.len() as int,
                                            e.model(),
                                        );
                                    }
                                    return Err(e);
                                },
                                Ok(m) => {
                                    let leaf = post::Node::Leaf(
                                        post::Leaf {
                                            field: (column, ctx.language),
                                            operation: post::Operation::Relation(
                                                post::Relation {
                                                    target: post::RelationTarget {
                                                        sheet: target.sheet.clone(),
                                                        condition: None,
                                                    },
                                                    query: Box::new(m),
                                                },
                                            ),
                                        },
                                    );
                                    proof {
                                        lemma_nodes_model_push(nodes@, leaf);
                                    }
                                    nodes.push(leaf);
                                },
                            }
                            i = i + 1;
                        }
                        match create_or_group(nodes) {
                            None => Err(
                                Error::QuerySchemaMismatch(
                                    mismatch(
                                        "TODO: query path".to_owned(),
                                        "no target queries can be resolved against this schema",
                                    ),
                                ),
                            ),
                            Some(g) => Ok(g),
                        }
                    },
                    SchemaNode::Scalar(_) => Err(
                        Error::QuerySchemaMismatch(
                            mismatch(
                                "TODO: query path".to_owned(),
                                "cannot perform relation operations on this schema node",
                            ),
                        ),
                    ),
                    _ => self.normalize_node(&relation.query, ctx),
                }
            },
            pre::Operation::Match(text) => {
                let columns = match collect_scalars(ctx.schema, &ctx.columns, Vec::new()) {
                    None => return Err(
                        Error::SchemaGameMismatch(
                            mismatch("TODO: query path".to_owned(), "insufficient game data to satisfy schema"),
                        ),
                    ),
                    Some(columns) => columns,
                };
                assert(columns@ == scalars(*ctx.schema, ctx.columns@)->Some_0);
                let strings = string_columns_of(&columns);
                let ghost op = OperationModel::Match(text@);
                let mut nodes: Vec<post::Node> = Vec::new();
                let mut j: usize = 0;
                while j < strings.len()
                    invariant
                        j <= strings@.len(),
                        nodes_model(nodes@) == leaves(strings@.take(j as int), ctx.language, op),
                        op == OperationModel::Match(text@),
                    decreases strings@.len() - j,
                {
                    let leaf = post::Node::Leaf(
                        post::Leaf { field: (strings[j], ctx.language), operation: post::Operation::Match(text.clone()) },
                    );
                    proof {
                        lemma_nodes_model_push(nodes@, leaf);
                        lemma_leaves_take(strings@, ctx.language, op, j as int);
                    }
                    nodes.push(leaf);
                    j = j + 1;
                }
                assert(strings@.take(strings@.len() as int) == strings@);
                match create_or_group(nodes) {
                    None => Err(
                        Error::QuerySchemaMismatch(
                            mismatch("TODO: query path".to_owned(), "no string columns with this name exist."),
                        ),
                    ),
                    Some(g) => Ok(g),
                }
            },
            pre::Operation::Equal(value) => {
                let columns = match collect_scalars(ctx.schema, &ctx.columns, Vec::new()) {
                    None => return Err(
                        Error::SchemaGameMismatch(
                            mismatch("TODO: query path".to_owned(), "insufficient game data to satisfy schema"),
                        ),
                    ),
                    Some(columns) => columns,
                };
                assert(columns@ == scalars(*ctx.schema, ctx.columns@)->Some_0);
                let ghost op = OperationModel::Equal(value.model());
                let mut nodes: Vec<post::Node> = Vec::new();
                let mut j: usize = 0;
                while j < columns.len()
                    invariant
                        j <= columns@.len(),
                        nodes_model(nodes@) == leaves(columns@.take(j as int), ctx.language, op),
                        op == OperationModel::Equal(value.model()),
                    decreases columns@.len() - j,
                {
                    let leaf = post::Node::Leaf(
                        post::Leaf { field: (columns[j], ctx.language), operation: post::Operation::Equal(value.duplicate()) },
                    );
                    proof {
                        lemma_nodes_model_push(nodes@, leaf);
                        lemma_leaves_take(columns@, ctx.language, op, j as int);
                    }
                    nodes.push(leaf);
                    j = j + 1;
                }
                assert(columns@.take(columns@.len() as int) == columns@);
                match create_or_group(nodes) {
                    None => Err(
                        Error::QueryGameMismatch(
                            mismatch("TODO: query path".to_owned(), "no scalar columns with this name exist"),
                        ),
                    ),
                    Some(g) => Ok(g),
                }
            },
        }
    }
}

} // verus!
