use vstd::prelude::*;

use crate::excel::Field;
use crate::language::Language;

verus! {

/// The key of a struct value: a field name, read in a language.
#[derive(Debug, Clone, PartialEq)]
pub struct StructKey {
    pub name: String,
    pub language: Language,
}

/// A value read from a row, shaped as the schema shapes it.
#[derive(Debug)]
pub enum Value {
    Array(Vec<Value>),
    Icon(i32),
    Reference(Reference),
    Scalar(Field),
    /// Fields by key; no key occurs twice.
    Struct(Vec<(StructKey, Value)>),
}

/// A reference to a row of another sheet: the raw value when no row was
/// read, else the row read through it.
#[derive(Debug)]
pub enum Reference {
    Scalar(i32),
    Populated { value: u32, sheet: String, row_id: u32, subrow_id: Option<u16>, fields: Box<Value> },
}

} // verus!
