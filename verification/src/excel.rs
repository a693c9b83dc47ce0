use vstd::prelude::*;

use crate::language::Language;
use crate::text::{decimal, push_char, push_decimal};
use vstd::string::StringExecFns;

verus! {

/// The storage type of a column of sheet data.
#[derive(Debug, Clone, Copy, PartialEq, Eq, Structural)]
pub enum ColumnKind {
    String,
    Bool,
    Int8,
    UInt8,
    Int16,
    UInt16,
    Int32,
    UInt32,
    Float32,
    Int64,
    UInt64,
    /// One bit, numbered 0 to 7, of a byte of packed flags.
    PackedBool(u8),
}

/// One column of a sheet: its storage type and its byte offset within a row.
#[derive(Debug, Clone, Copy, PartialEq, Eq, Structural)]
pub struct ColumnDefinition {
    pub kind: ColumnKind,
    pub offset: u16,
}

/// Whether the rows of a sheet are plain rows or hold sub-rows.
#[derive(Debug, Clone, Copy, PartialEq, Eq, Structural)]
pub enum SheetKind {
    Default,
    Subrows,
}

/// A value read from one column of a row. A 32-bit float is held as its
/// bits.
#[derive(Debug, Clone, PartialEq)]
pub enum Field {
    String(String),
    Bool(bool),
    I8(i8),
    I16(i16),
    I32(i32),
    I64(i64),
    U8(u8),
    U16(u16),
    U32(u32),
    U64(u64),
    F32(u32),
}

/// One row (or sub-row) of a sheet, read in one language: the value of each
/// column.
#[derive(Debug)]
pub struct RowData {
    pub row_id: u32,
    pub subrow_id: u16,
    pub language: Language,
    pub fields: Vec<(ColumnDefinition, Field)>,
}

/// What the game data holds about one sheet: the languages it is stored in,
/// its columns in the order the data lists them, its kind, and its rows.
pub struct SheetData {
    pub languages: Vec<Language>,
    pub columns: Vec<ColumnDefinition>,
    pub kind: SheetKind,
    pub rows: Vec<RowData>,
}

/// Where a column is placed among the columns already sorted: after every
/// column whose offset is not greater than its own.
pub open spec fn insertion_point(sorted: Seq<ColumnDefinition>, column: ColumnDefinition) -> int
    decreases sorted.len(),
{
    if sorted.len() == 0 {
        0
    } else if sorted.last().offset <= column.offset {
        sorted.len() as int
    } else {
        insertion_point(sorted.drop_last(), column)
    }
}

/// `sorted` with `column` placed at its insertion point.
pub open spec fn insert_column(sorted: Seq<ColumnDefinition>, column: ColumnDefinition) -> Seq<ColumnDefinition> {
    let k = insertion_point(sorted, column);
    sorted.take(k).push(column) + sorted.skip(k)
}

/// The columns ordered by offset; columns of equal offset keep their order
/// (a stable sort).
pub open spec fn sort_by_offset(columns: Seq<ColumnDefinition>) -> Seq<ColumnDefinition>
    decreases columns.len(),
{
    if columns.len() == 0 {
        Seq::empty()
    } else {
        insert_column(sort_by_offset(columns.drop_last()), columns.last())
    }
}

pub open spec fn sorted_by_offset(s: Seq<ColumnDefinition>) -> bool {
    forall|i: int, j: int| 0 <= i <= j < s.len() ==> s[i].offset <= s[j].offset
}

proof fn lemma_insertion_point(sorted: Seq<ColumnDefinition>, column: ColumnDefinition)
    requires
        sorted_by_offset(sorted),
    ensures
        0 <= insertion_point(sorted, column) <= sorted.len(),
        forall|i: int|
            0 <= i < insertion_point(sorted, column) ==> #[trigger] sorted[i].offset <= column.offset,
        forall|i: int|
            insertion_point(sorted, column) <= i < sorted.len() ==> #[trigger] sorted[i].offset
                > column.offset,
    decreases sorted.len(),
{
    if sorted.len() > 0 {
        let n = sorted.len() - 1;
        if sorted.last().offset > column.offset {
            let p = sorted.drop_last();
            assert(sorted_by_offset(p)) by {
                assert forall|i: int, j: int| 0 <= i <= j < p.len() implies p[i].offset <= p[j].offset by {
                    assert(p[i] == sorted[i] && p[j] == sorted[j]);
                }
            }
            lemma_insertion_point(p, column);
            let k = insertion_point(p, column);
            assert forall|i: int| 0 <= i < k implies #[trigger] sorted[i].offset <= column.offset by {
                assert(p[i] == sorted[i]);
            }
            assert forall|i: int| k <= i < sorted.len() implies #[trigger] sorted[i].offset > column.offset by {
                if i < n {
                    assert(p[i] == sorted[i]);
                }
            }
        } else {
            assert forall|i: int| 0 <= i < sorted.len() implies #[trigger] sorted[i].offset <= column.offset by {
                assert(sorted[i].offset <= sorted[n].offset);
            }
        }
    }
}

/// Sorting gives columns in order of offset, and the same columns.
pub proof fn lemma_sort_by_offset(columns: Seq<ColumnDefinition>)
    ensures
        sorted_by_offset(sort_by_offset(columns)),
        sort_by_offset(columns).len() == columns.len(),
        sort_by_offset(columns).to_multiset() == columns.to_multiset(),
    decreases columns.len(),
{
    broadcast use vstd::multiset::group_multiset_axioms;
    broadcast use vstd::seq_lib::group_to_multiset_ensures;

    if columns.len() > 0 {
        let prefix = columns.drop_last();
        let s = sort_by_offset(prefix);
        let c = columns.last();
        lemma_sort_by_offset(prefix);
        lemma_insertion_point(s, c);
        let k = insertion_point(s, c);
        let r = insert_column(s, c);
        assert(r.len() == columns.len());
        assert forall|x: int| 0 <= x < r.len() implies #[trigger] r[x] == (if x < k {
            s[x]
        } else if x == k {
            c
        } else {
            s[x - 1]
        }) by {}
        assert forall|i: int, j: int| 0 <= i <= j < r.len() implies r[i].offset <= r[j].offset by {
            if i < k {
                if j < k {
                } else if j == k {
                } else {
                    assert(s[i].offset <= s[j - 1].offset);
                }
            } else if i == k {
                if j > k {
                    assert(s[j - 1].offset > c.offset);
                }
            } else {
                assert(s[i - 1].offset <= s[j - 1].offset);
            }
        }
        let a = s.take(k);
        let b = s.skip(k);
        assert(s =~= a + b);
        vstd::seq_lib::lemma_multiset_commutative(a, b);
        vstd::seq_lib::lemma_multiset_commutative(a.push(c), b);
        assert(r == a.push(c) + b);
        assert(a.push(c).to_multiset() =~= a.to_multiset().insert(c));
        assert(r.to_multiset() =~= s.to_multiset().insert(c));
        assert(columns =~= prefix.push(c));
        assert(columns.to_multiset() =~= prefix.to_multiset().insert(c));
        assert(sort_by_offset(columns) == r);
    } else {
        assert(columns =~= Seq::<ColumnDefinition>::empty());
    }
}

/// Whether a column sits at offset `o`.
pub open spec fn offset_is(o: u16) -> spec_fn(ColumnDefinition) -> bool {
    |c: ColumnDefinition| c.offset == o
}

/// The columns at offset `o`, in their order in `s`.
pub open spec fn at_offset(s: Seq<ColumnDefinition>, o: u16) -> Seq<ColumnDefinition> {
    s.filter(offset_is(o))
}

proof fn lemma_filter_none(s: Seq<ColumnDefinition>, pred: spec_fn(ColumnDefinition) -> bool)
    requires
        forall|i: int| 0 <= i < s.len() ==> !pred(#[trigger] s[i]),
    ensures
        s.filter(pred) == Seq::<ColumnDefinition>::empty(),
    decreases s.len(),
{
    reveal(Seq::filter);
    if s.len() > 0 {
        lemma_filter_none(s.drop_last(), pred);
    }
}

/// Sorting by offset is stable: the columns at each offset keep their order.
pub proof fn lemma_sort_by_offset_stable(columns: Seq<ColumnDefinition>)
    ensures
        forall|o: u16| #[trigger] at_offset(sort_by_offset(columns), o) == at_offset(columns, o),
    decreases columns.len(),
{
    if columns.len() == 0 {
        assert(columns =~= Seq::<ColumnDefinition>::empty());
    } else {
        let prefix = columns.drop_last();
        let c = columns.last();
        lemma_sort_by_offset_stable(prefix);
        lemma_sort_by_offset(prefix);
        let s = sort_by_offset(prefix);
        lemma_insertion_point(s, c);
        let k = insertion_point(s, c);
        let a = s.take(k);
        let b = s.skip(k);
        assert(s =~= a + b);
        assert(columns =~= prefix.push(c));
        assert forall|o: u16| #[trigger] at_offset(sort_by_offset(columns), o) == at_offset(columns, o) by {
            let pred = offset_is(o);
            Seq::filter_distributes_over_add(a.push(c), b, pred);
            Seq::filter_distributes_over_add(a, b, pred);
            a.lemma_filter_push(c, pred);
            prefix.lemma_filter_push(c, pred);
            assert(at_offset(s, o) == at_offset(prefix, o));
            if pred(c) {
                assert forall|i: int| 0 <= i < b.len() implies !pred(#[trigger] b[i]) by {
                    assert(b[i] == s[k + i]);
                }
                lemma_filter_none(b, pred);
                assert(b.filter(pred) + Seq::<ColumnDefinition>::empty() =~= b.filter(pred));
                assert(a.filter(pred) + b.filter(pred) =~= a.filter(pred));
                assert(a.filter(pred).push(c) + b.filter(pred) =~= a.filter(pred).push(c));
            }
        }
    }
}

/// Copies the columns `columns[from..to]`.
pub fn copy_columns(columns: &Vec<ColumnDefinition>, from: usize, to: usize) -> (out: Vec<ColumnDefinition>)
    requires
        from <= to <= columns@.len(),
    ensures
        out@ == columns@.subrange(from as int, to as int),
{
    let mut out: Vec<ColumnDefinition> = Vec::new();
    let mut i = from;
    while i < to
        invariant
            from <= i <= to <= columns@.len(),
            out@ == columns@.subrange(from as int, i as int),
        decreases to - i,
    {
        out.push(columns[i]);
        assert(columns@.subrange(from as int, i + 1) == columns@.subrange(from as int, i as int).push(
            columns@[i as int],
        ));
        i = i + 1;
    }
    out
}

/// Sorts columns by offset, keeping columns of equal offset in their order.
pub fn sort_columns_by_offset(columns: &Vec<ColumnDefinition>) -> (out: Vec<ColumnDefinition>)
    ensures
        out@ == sort_by_offset(columns@),
{
    let mut out: Vec<ColumnDefinition> = Vec::new();
    let mut i: usize = 0;
    while i < columns.len()
        invariant
            i <= columns@.len(),
            out@ == sort_by_offset(columns@.take(i as int)),
        decreases columns@.len() - i,
    {
        let column = columns[i];
        // Find the insertion point, scanning from the end.
        let mut k: usize = out.len();
        assert(out@.take(k as int) =~= out@);
        while k > 0 && out[k - 1].offset > column.offset
            invariant
                k <= out@.len(),
                insertion_point(out@, column) == insertion_point(out@.take(k as int), column),
            decreases k,
        {
            assert(out@.take(k as int).drop_last() == out@.take(k - 1));
            k = k - 1;
        }
        proof {
            if k > 0 {
                assert(out@.take(k as int).last() == out@[k - 1]);
            }
            assert(insertion_point(out@.take(k as int), column) == k);
        }
        let ghost before = out@;
        out.insert(k, column);
        proof {
            assert(columns@.take(i + 1).drop_last() == columns@.take(i as int));
            assert(columns@.take(i + 1).last() == column);
            assert(out@ =~= insert_column(before, column));
        }
        i = i + 1;
    }
    assert(columns@.take(columns@.len() as int) == columns@);
    out
}

/// A signed number in decimal, with a leading `-` when negative.
pub open spec fn signed_decimal(v: int) -> Seq<char> {
    if v < 0 {
        seq!['-'] + decimal((-v) as nat)
    } else {
        decimal(v as nat)
    }
}

/// Text with each `"` and `\` preceded by a backslash.
pub open spec fn escaped(s: Seq<char>) -> Seq<char>
    decreases s.len(),
{
    if s.len() == 0 {
        Seq::empty()
    } else {
        let c = s.last();
        escaped(s.drop_last()) + if c == '"' || c == '\\' {
            seq!['\\', c]
        } else {
            seq![c]
        }
    }
}

/// How a field value is described in messages: the kind of value and, in
/// brackets, the value itself; text in double quotes, a float by its bits.
pub open spec fn field_text(field: Field) -> Seq<char> {
    match field {
        Field::String(s) => "String(\""@ + escaped(s@) + "\")"@,
        Field::Bool(b) => if b {
            "Bool(true)"@
        } else {
            "Bool(false)"@
        },
        Field::I8(v) => "I8("@ + signed_decimal(v as int) + ")"@,
        Field::I16(v) => "I16("@ + signed_decimal(v as int) + ")"@,
        Field::I32(v) => "I32("@ + signed_decimal(v as int) + ")"@,
        Field::I64(v) => "I64("@ + signed_decimal(v as int) + ")"@,
        Field::U8(v) => "U8("@ + decimal(v as nat) + ")"@,
        Field::U16(v) => "U16("@ + decimal(v as nat) + ")"@,
        Field::U32(v) => "U32("@ + decimal(v as nat) + ")"@,
        Field::U64(v) => "U64("@ + decimal(v as nat) + ")"@,
        Field::F32(bits) => "F32("@ + decimal(bits as nat) + ")"@,
    }
}

/// Appends a signed number in decimal.
fn push_signed(out: &mut String, v: i64)
    ensures
        final(out)@ == old(out)@ + signed_decimal(v as int),
{
    if v < 0 {
        push_char(out, '-');
        let magnitude: u64 = if v == i64::MIN {
            9223372036854775808u64
        } else {
            (-v) as u64
        };
        push_decimal(out, magnitude);
        assert(old(out)@ + signed_decimal(v as int) == old(out)@.push('-') + decimal(magnitude as nat));
    } else {
        push_decimal(out, v as u64);
    }
}

/// Appends `s` with each `"` and `\` preceded by a backslash.
pub(crate) fn push_escaped(out: &mut String, s: &str)
    ensures
        final(out)@ == old(out)@ + escaped(s@),
{
    let ghost start = out@;
    let ghost text = s@;
    for c in it: s.chars()
        invariant
            it.seq() == text,
            out@ == start + escaped(text.take(it.index() as int)),
    {
        proof {
            assert(text.take(it.index() + 1).drop_last() =~= text.take(it.index() as int));
            assert(text.take(it.index() + 1).last() == c);
        }
        if c == '"' || c == '\\' {
            push_char(out, '\\');
        }
        push_char(out, c);
        assert(out@ == start + escaped(text.take(it.index() + 1)));
    }
    assert(text.take(text.len() as int) =~= text);
}

impl Field {
    /// A description of this value for messages.
    pub fn describe(&self) -> (out: String)
        ensures
            out@ == field_text(*self),
    {
        let mut out = String::new();
        match self {
            Field::String(s) => {
                out.append("String(\"");
                push_escaped(&mut out, s.as_str());
                out.append("\")");
            },
            Field::Bool(b) => out.append(if *b { "Bool(true)" } else { "Bool(false)" }),
            Field::I8(v) => {
                out.append("I8(");
                push_signed(&mut out, *v as i64);
                out.append(")");
            },
            Field::I16(v) => {
                out.append("I16(");
                push_signed(&mut out, *v as i64);
                out.append(")");
            },
            Field::I32(v) => {
                out.append("I32(");
                push_signed(&mut out, *v as i64);
                out.append(")");
            },
            Field::I64(v) => {
                out.append("I64(");
                push_signed(&mut out, *v);
                out.append(")");
            },
            Field::U8(v) => {
                out.append("U8(");
                push_decimal(&mut out, *v as u64);
                out.append(")");
            },
            Field::U16(v) => {
                out.append("U16(");
                push_decimal(&mut out, *v as u64);
                out.append(")");
            },
            Field::U32(v) => {
                out.append("U32(");
                push_decimal(&mut out, *v as u64);
                out.append(")");
            },
            Field::U64(v) => {
                out.append("U64(");
                push_decimal(&mut out, *v);
                out.append(")");
            },
            Field::F32(bits) => {
                out.append("F32(");
                push_decimal(&mut out, *bits as u64);
                out.append(")");
            },
        }
        out
    }
}

} // verus!
