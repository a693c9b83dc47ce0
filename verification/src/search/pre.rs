use vstd::prelude::*;

use crate::language::Language;

verus! {

/// How a clause of a group takes part in a match.
#[derive(Debug, Clone, Copy, PartialEq, Eq, Structural)]
pub enum Occur {
    Must,
    Should,
    MustNot,
}

/// A value that a query compares fields against.
#[derive(Debug)]
pub enum Value {
    Boolean(bool),
    UInteger(u64),
    Integer(i64),
    String(String),
}

/// The mathematical value of a query value.
pub enum ValueModel {
    Boolean(bool),
    UInteger(u64),
    Integer(i64),
    String(Seq<char>),
}

impl Value {
    pub open spec fn model(self) -> ValueModel {
        match self {
            Value::Boolean(b) => ValueModel::Boolean(b),
            Value::UInteger(u) => ValueModel::UInteger(u),
            Value::Integer(i) => ValueModel::Integer(i),
            Value::String(s) => ValueModel::String(s@),
        }
    }

    /// A copy of this value.
    pub fn duplicate(&self) -> (out: Value)
        ensures
            out.model() == self.model(),
    {
        match self {
            Value::Boolean(b) => Value::Boolean(*b),
            Value::UInteger(u) => Value::UInteger(*u),
            Value::Integer(i) => Value::Integer(*i),
            Value::String(s) => Value::String(s.clone()),
        }
    }
}

/// A search query as written, before it is tied to a sheet's schema.
#[derive(Debug)]
pub enum Node {
    Group(Group),
    Leaf(Leaf),
}

/// Clauses combined by their occurrence.
#[derive(Debug)]
pub struct Group {
    pub clauses: Vec<(Occur, Node)>,
}

/// An operation on the field that `field` names, or on the current node when
/// no field is named.
#[derive(Debug)]
pub struct Leaf {
    pub field: Option<FieldSpecifier>,
    pub operation: Operation,
}

/// How a leaf names a field: a struct field, optionally in a given language,
/// or the elements of an array.
#[derive(Debug)]
pub enum FieldSpecifier {
    Struct(String, Option<Language>),
    Array,
}

#[derive(Debug)]
pub enum Operation {
    /// A query to run against the row that the field refers to.
    Relation(Relation),
    /// Text that string fields are matched against.
    Match(String),
    /// A value that fields must equal.
    Equal(Value),
}

#[derive(Debug)]
pub struct Relation {
    pub query: Box<Node>,
}

} // verus!
