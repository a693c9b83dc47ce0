use vstd::prelude::*;

use crate::excel::ColumnDefinition;
use crate::language::Language;
use crate::search::pre::{Occur, Value, ValueModel};

verus! {

/// A search query tied to the columns of a sheet.
#[derive(Debug)]
pub enum Node {
    Group(Group),
    Leaf(Leaf),
}

/// Clauses combined by their occurrence.
#[derive(Debug)]
pub struct Group {
    pub clauses: Vec<(Occur, Node)>,
}

/// An operation on one column, read in one language.
#[derive(Debug)]
pub struct Leaf {
    pub field: (ColumnDefinition, Language),
    pub operation: Operation,
}

#[derive(Debug)]
pub enum Operation {
    /// A query to run against the row the column refers to.
    Relation(Relation),
    /// Text that the column is matched against.
    Match(String),
    /// A value that the column must equal.
    Equal(Value),
}

#[derive(Debug)]
pub struct Relation {
    pub target: RelationTarget,
    pub query: Box<Node>,
}

/// The sheet a relation reads from, and a query on the current row that
/// must hold for the relation to be followed.
#[derive(Debug)]
pub struct RelationTarget {
    pub sheet: String,
    pub condition: Option<Box<Node>>,
}

/// The mathematical value of a tied query.
pub enum NodeModel {
    Group(Seq<(Occur, NodeModel)>),
    Leaf(ColumnDefinition, Language, OperationModel),
}

pub enum OperationModel {
    /// The target sheet, the target's condition, and the query.
    Relation(Seq<char>, Option<Box<NodeModel>>, Box<NodeModel>),
    Match(Seq<char>),
    Equal(ValueModel),
}

impl Node {
    pub open spec fn model(self) -> NodeModel
        decreases self,
    {
        match self {
            Node::Group(g) => NodeModel::Group(clauses_model(g.clauses@)),
            Node::Leaf(l) => NodeModel::Leaf(l.field.0, l.field.1, match l.operation {
                Operation::Relation(r) => OperationModel::Relation(
                    r.target.sheet@,
                    match r.target.condition {
                        Some(c) => Some(Box::new(c.model())),
                        None => None,
                    },
                    Box::new(r.query.model()),
                ),
                Operation::Match(s) => OperationModel::Match(s@),
                Operation::Equal(v) => OperationModel::Equal(v.model()),
            }),
        }
    }
}

pub open spec fn clauses_model(s: Seq<(Occur, Node)>) -> Seq<(Occur, NodeModel)>
    decreases s,
{
    if s.len() == 0 {
        Seq::empty()
    } else {
        clauses_model(s.drop_last()).push((s.last().0, s.last().1.model()))
    }
}

/// The model of a clause list holds the model of each clause, in order.
pub proof fn lemma_clauses_model(s: Seq<(Occur, Node)>)
    ensures
        clauses_model(s).len() == s.len(),
        forall|i: int|
            0 <= i < s.len() ==> #[trigger] clauses_model(s)[i] == (s[i].0, s[i].1.model()),
    decreases s.len(),
{
    if s.len() > 0 {
        lemma_clauses_model(s.drop_last());
    }
}

/// Clause lists whose clauses have the given models have the given model.
pub proof fn lemma_clauses_model_ext(s: Seq<(Occur, Node)>, m: Seq<(Occur, NodeModel)>)
    requires
        s.len() == m.len(),
        forall|i: int| 0 <= i < s.len() ==> (#[trigger] s[i].0, s[i].1.model()) == m[i],
    ensures
        clauses_model(s) == m,
{
    lemma_clauses_model(s);
    assert(clauses_model(s) =~= m);
}

} // verus!
