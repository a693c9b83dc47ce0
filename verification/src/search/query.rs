use vstd::prelude::*;

use crate::excel::ColumnDefinition;
use crate::language::{code_chars, contains_language, language_code, Language};
use crate::search::post::{
    clauses_model, lemma_clauses_model, Group, Leaf, Node, NodeModel, Operation, OperationModel,
};
use crate::search::pre::{Occur, Value, ValueModel};
use crate::search::Error;
use crate::text::{chars_of, decimal, push_char, push_chars, push_decimal};
use vstd::string::StringSliceAdditionalSpecFns;

verus! {

// ---------------------------------------------------------------------------
// The statement a search runs: tables joined under aliases, a condition on
// their columns, and a score for each matching row.
// ---------------------------------------------------------------------------
/// A column that a statement reads: a field of the table under an alias, or
/// the row or subrow identifier of the table under an alias.
#[derive(Debug)]
pub enum Column {
    Field(String, ColumnDefinition),
    RowId(String),
    SubrowId(String),
}

/// A test on columns.
#[derive(Debug)]
pub enum Predicate {
    /// The column is like the pattern, in which `\` escapes `%`, `_` and itself.
    Like(Column, String),
    /// The column equals the value.
    Equal(Column, Value),
    /// The two columns hold the same value.
    Same(Column, Column),
}

/// A junction of terms: all of them (or any of them, where `any` is set),
/// negated where `negate` is set.
#[derive(Debug)]
pub struct Condition {
    pub any: bool,
    pub negate: bool,
    pub terms: Vec<Term>,
}

#[derive(Debug)]
pub enum Term {
    Condition(Condition),
    Predicate(Predicate),
}

/// How a matching row is scored.
#[derive(Debug)]
pub enum Score {
    Constant(u32),
    /// The given length, divided by the character length of the column.
    Ratio(u32, Column),
    /// The score where the condition holds, zero elsewhere.
    Case(Condition, Box<Score>),
    Sum(Box<Score>, Box<Score>),
}

/// A sheet's table in one language, under an alias.
#[derive(Debug)]
pub struct Table {
    pub sheet: String,
    pub language: Language,
    pub alias: String,
}

/// A table joined to a statement: a left join where `left` is set, an inner
/// join otherwise.
#[derive(Debug)]
pub struct Join {
    pub left: bool,
    pub table: Table,
    pub on: Condition,
}

/// One select of a search: it yields `sheet`, the row and subrow identifiers
/// of the `from` table and the score, for each row where `condition` holds.
#[derive(Debug)]
pub struct Select {
    pub sheet: String,
    pub from: Table,
    pub joins: Vec<Join>,
    pub score: Score,
    pub condition: Condition,
}

/// The union of all the rows of the selects, highest score first.
#[derive(Debug)]
pub struct Statement {
    pub selects: Vec<Select>,
}

// ---------------------------------------------------------------------------
// Models.
// ---------------------------------------------------------------------------
pub enum ColumnModel {
    Field(Seq<char>, ColumnDefinition),
    RowId(Seq<char>),
    SubrowId(Seq<char>),
}

pub enum PredicateModel {
    Like(ColumnModel, Seq<char>),
    Equal(ColumnModel, ValueModel),
    Same(ColumnModel, ColumnModel),
}

pub enum TermModel {
    Condition(ConditionModel),
    Predicate(PredicateModel),
}

pub struct ConditionModel {
    pub any: bool,
    pub negate: bool,
    pub terms: Seq<TermModel>,
}

pub enum ScoreModel {
    Constant(u32),
    Ratio(u32, ColumnModel),
    Case(ConditionModel, Box<ScoreModel>),
    Sum(Box<ScoreModel>, Box<ScoreModel>),
}

pub struct TableModel {
    pub sheet: Seq<char>,
    pub language: Language,
    pub alias: Seq<char>,
}

pub struct JoinModel {
    pub left: bool,
    pub table: TableModel,
    pub on: ConditionModel,
}

pub struct SelectModel {
    pub sheet: Seq<char>,
    pub from: TableModel,
    pub joins: Seq<JoinModel>,
    pub score: ScoreModel,
    pub condition: ConditionModel,
}

impl Column {
    pub open spec fn model(self) -> ColumnModel {
        match self {
            Column::Field(a, c) => ColumnModel::Field(a@, c),
            Column::RowId(a) => ColumnModel::RowId(a@),
            Column::SubrowId(a) => ColumnModel::SubrowId(a@),
        }
    }
}

impl Predicate {
    pub open spec fn model(self) -> PredicateModel {
        match self {
            Predicate::Like(c, p) => PredicateModel::Like(c.model(), p@),
            Predicate::Equal(c, v) => PredicateModel::Equal(c.model(), v.model()),
            Predicate::Same(a, b) => PredicateModel::Same(a.model(), b.model()),
        }
    }
}

impl Condition {
    pub open spec fn model(self) -> ConditionModel
        decreases self,
    {
        ConditionModel { any: self.any, negate: self.negate, terms: terms_model(self.terms@) }
    }
}

pub open spec fn terms_model(terms: Seq<Term>) -> Seq<TermModel>
    decreases terms,
{
    if terms.len() == 0 {
        Seq::empty()
    } else {
        proof {
            assert(decreases_to!(terms => terms.last()));
        }
        terms_model(terms.drop_last()).push(
            match terms.last() {
                Term::Condition(c) => TermModel::Condition(c.model()),
                Term::Predicate(p) => TermModel::Predicate(p.model()),
            },
        )
    }
}

impl Term {
    pub open spec fn model(self) -> TermModel {
        match self {
            Term::Condition(c) => TermModel::Condition(c.model()),
            Term::Predicate(p) => TermModel::Predicate(p.model()),
        }
    }
}

impl Score {
    pub open spec fn model(self) -> ScoreModel
        decreases self,
    {
        match self {
            Score::Constant(n) => ScoreModel::Constant(n),
            Score::Ratio(n, c) => ScoreModel::Ratio(n, c.model()),
            Score::Case(c, s) => ScoreModel::Case(c.model(), Box::new(s.model())),
            Score::Sum(a, b) => ScoreModel::Sum(Box::new(a.model()), Box::new(b.model())),
        }
    }
}

impl Table {
    pub open spec fn model(self) -> TableModel {
        TableModel { sheet: self.sheet@, language: self.language, alias: self.alias@ }
    }
}

impl Join {
    pub open spec fn model(self) -> JoinModel {
        JoinModel { left: self.left, table: self.table.model(), on: self.on.model() }
    }
}

pub open spec fn joins_model(joins: Seq<Join>) -> Seq<JoinModel> {
    Seq::new(joins.len(), |i: int| joins[i].model())
}

impl Select {
    pub open spec fn model(self) -> SelectModel {
        SelectModel {
            sheet: self.sheet@,
            from: self.from.model(),
            joins: joins_model(self.joins@),
            score: self.score.model(),
            condition: self.condition.model(),
        }
    }
}

pub open spec fn selects_model(selects: Seq<Select>) -> Seq<SelectModel> {
    Seq::new(selects.len(), |i: int| selects[i].model())
}

/// The model of a term list holds the model of each term, in order.
pub proof fn lemma_terms_model(terms: Seq<Term>)
    ensures
        terms_model(terms).len() == terms.len(),
        forall|i: int| 0 <= i < terms.len() ==> #[trigger] terms_model(terms)[i] == terms[i].model(),
    decreases terms.len(),
{
    if terms.len() > 0 {
        lemma_terms_model(terms.drop_last());
    }
}

/// Term lists whose terms have the given models have the given model.
pub proof fn lemma_terms_model_ext(terms: Seq<Term>, m: Seq<TermModel>)
    requires
        terms.len() == m.len(),
        forall|i: int| 0 <= i < terms.len() ==> #[trigger] terms[i].model() == m[i],
    ensures
        terms_model(terms) == m,
{
    lemma_terms_model(terms);
    assert(terms_model(terms) =~= m);
}

// ---------------------------------------------------------------------------
// What a query resolves to.
// ---------------------------------------------------------------------------
/// A sheet that a query refers to through a relation.
pub struct RelationModel {
    pub sheet: Seq<char>,
    pub alias: Seq<char>,
    pub foreign_key: ColumnModel,
    pub condition: Option<ConditionModel>,
    pub languages: Seq<Language>,
}

/// A query resolved against the tables under an alias: the condition it puts
/// on them, its score, the languages whose tables it reads, and the sheets it
/// reaches through relations.
pub struct ResolvedModel {
    pub condition: ConditionModel,
    pub score: ScoreModel,
    pub languages: Seq<Language>,
    pub relations: Seq<RelationModel>,
}

/// The alias of a language's table, for tables under the alias `base`.
pub open spec fn language_alias(base: Seq<char>, language: Language) -> Seq<char> {
    base + seq!['@'] + language_code(language)
}

/// The alias given to the `index`th clause below the alias `next`.
pub open spec fn child_alias(next: Seq<char>, index: nat) -> Seq<char> {
    next + seq!['-'] + decimal(index)
}

/// A character, escaped for a like pattern.
pub open spec fn escape_char(c: char) -> Seq<char> {
    if c == '%' || c == '_' || c == '\\' {
        seq!['\\', c]
    } else {
        seq![c]
    }
}

/// Text with each `%`, `_` and `\` escaped by a `\`.
pub open spec fn escape_like(s: Seq<char>) -> Seq<char>
    decreases s.len(),
{
    if s.len() == 0 {
        Seq::empty()
    } else {
        escape_like(s.drop_last()) + escape_char(s.last())
    }
}

/// The like pattern that matches text containing `s`.
pub open spec fn like_pattern(s: Seq<char>) -> Seq<char> {
    seq!['%'] + escape_like(s) + seq!['%']
}

/// The length of text in UTF-8 bytes.
pub open spec fn byte_len(s: Seq<char>) -> usize {
    vstd::utf8::encode_utf8(s).len() as usize
}

pub open spec fn oversized_message() -> Seq<char> {
    "excessively large string expression: out of range integral type conversion attempted"@
}

/// The languages of `a`, followed by those of `b` that `a` lacks.
pub open spec fn union_languages(a: Seq<Language>, b: Seq<Language>) -> Seq<Language>
    decreases b.len(),
{
    if b.len() == 0 {
        a
    } else {
        let u = union_languages(a, b.drop_last());
        if u.contains(b.last()) {
            u
        } else {
            u.push(b.last())
        }
    }
}

pub open spec fn all_of(terms: Seq<TermModel>) -> ConditionModel {
    ConditionModel { any: false, negate: false, terms }
}

pub open spec fn one_predicate(p: PredicateModel) -> ConditionModel {
    all_of(seq![TermModel::Predicate(p)])
}

/// The parts of a group gathered clause by clause.
pub struct GroupParts {
    pub must: Seq<TermModel>,
    pub should: Seq<TermModel>,
    pub must_not: Seq<TermModel>,
    pub scores: Seq<ScoreModel>,
    pub languages: Seq<Language>,
    pub relations: Seq<RelationModel>,
}

pub open spec fn empty_parts() -> GroupParts {
    GroupParts {
        must: Seq::empty(),
        should: Seq::empty(),
        must_not: Seq::empty(),
        scores: Seq::empty(),
        languages: Seq::empty(),
        relations: Seq::empty(),
    }
}

/// Adds a resolved clause to the parts: a required clause adds its score, an
/// optional one its score where it holds, an excluded one no score.
pub open spec fn add_clause(p: GroupParts, occur: Occur, r: ResolvedModel) -> GroupParts {
    let c = TermModel::Condition(r.condition);
    let languages = union_languages(p.languages, r.languages);
    let relations = p.relations + r.relations;
    match occur {
        Occur::Must => GroupParts {
            must: p.must.push(c),
            scores: p.scores.push(r.score),
            languages,
            relations,
            ..p
        },
        Occur::Should => GroupParts {
            should: p.should.push(c),
            scores: p.scores.push(ScoreModel::Case(r.condition, Box::new(r.score))),
            languages,
            relations,
            ..p
        },
        Occur::MustNot => GroupParts { must_not: p.must_not.push(c), languages, relations, ..p },
    }
}

/// The scores added up from the first on; zero where there are none.
pub open spec fn sum_scores(scores: Seq<ScoreModel>) -> ScoreModel
    decreases scores.len(),
{
    if scores.len() == 0 {
        ScoreModel::Constant(0)
    } else if scores.len() == 1 {
        scores[0]
    } else {
        ScoreModel::Sum(Box::new(sum_scores(scores.drop_last())), Box::new(scores.last()))
    }
}

/// A group from its parts. Its score counts only where every required clause
/// holds; optional clauses filter only where nothing is required; no
/// excluded clause may hold.
pub open spec fn group_result(p: GroupParts) -> ResolvedModel {
    let total = sum_scores(p.scores);
    let score = if p.must.len() > 0 {
        ScoreModel::Case(all_of(p.must), Box::new(total))
    } else {
        total
    };
    let with_should = if p.should.len() > 0 && p.must.len() == 0 {
        p.must.push(TermModel::Condition(ConditionModel { any: true, negate: false, terms: p.should }))
    } else {
        p.must
    };
    let terms = if p.must_not.len() > 0 {
        with_should.push(
            TermModel::Condition(ConditionModel { any: true, negate: true, terms: p.must_not }),
        )
    } else {
        with_should
    };
    ResolvedModel {
        condition: all_of(terms),
        score,
        languages: p.languages,
        relations: p.relations,
    }
}

/// A query resolved against the tables under `alias`, where relations take
/// aliases from `next` on; the text of the failure where it has one.
pub open spec fn resolve_spec(node: NodeModel, alias: Seq<char>, next: Seq<char>) -> Result<
    ResolvedModel,
    Seq<char>,
>
    decreases node,
{
    match node {
        NodeModel::Group(clauses) => {
            match resolve_clauses(clauses, alias, next) {
                Ok(p) => Ok(group_result(p)),
                Err(e) => Err(e),
            }
        },
        NodeModel::Leaf(column, language, operation) => {
            let col = ColumnModel::Field(language_alias(alias, language), column);
            match operation {
                OperationModel::Relation(sheet, condition, query) => {
                    match resolve_spec(*query, next, child_alias(next, 0)) {
                        Err(e) => Err(e),
                        Ok(inner) => {
                            let cond: Result<Option<ResolvedModel>, Seq<char>> = match condition {
                                None => Ok(None),
                                Some(c) => match resolve_spec(*c, alias, next) {
                                    Ok(r) => Ok(Some(r)),
                                    Err(e) => Err(e),
                                },
                            };
                            match cond {
                                Err(e) => Err(e),
                                Ok(cr) => {
                                    let relation = RelationModel {
                                        sheet,
                                        alias: next,
                                        foreign_key: col,
                                        condition: match cr {
                                            Some(r) => Some(r.condition),
                                            None => None,
                                        },
                                        languages: inner.languages,
                                    };
                                    let extra = match cr {
                                        Some(r) => r.relations,
                                        None => Seq::empty(),
                                    };
                                    Ok(
                                        ResolvedModel {
                                            condition: inner.condition,
                                            score: inner.score,
                                            languages: match cr {
                                                Some(r) => union_languages(seq![language], r.languages),
                                                None => seq![language],
                                            },
                                            relations: seq![relation] + inner.relations + extra,
                                        },
                                    )
                                },
                            }
                        },
                    }
                },
                OperationModel::Match(text) => {
                    if byte_len(text) > u32::MAX {
                        Err(oversized_message())
                    } else {
                        Ok(
                            ResolvedModel {
                                condition: one_predicate(PredicateModel::Like(col, like_pattern(text))),
                                score: ScoreModel::Ratio(byte_len(text) as u32, col),
                                languages: seq![language],
                                relations: Seq::empty(),
                            },
                        )
                    }
                },
                OperationModel::Equal(value) => Ok(
                    ResolvedModel {
                        condition: one_predicate(PredicateModel::Equal(col, value)),
                        score: ScoreModel::Constant(1),
                        languages: seq![language],
                        relations: Seq::empty(),
                    },
                ),
            }
        },
    }
}

/// The clauses of a group resolved in order, the `i`th under the alias
/// `child_alias(next, i)`; the first failure wins.
pub open spec fn resolve_clauses(
    clauses: Seq<(Occur, NodeModel)>,
    alias: Seq<char>,
    next: Seq<char>,
) -> Result<GroupParts, Seq<char>>
    decreases clauses,
{
    if clauses.len() == 0 {
        Ok(empty_parts())
    } else {
        proof {
            assert(decreases_to!(clauses => clauses.last()));
        }
        match resolve_clauses(clauses.drop_last(), alias, next) {
            Err(e) => Err(e),
            Ok(p) => match resolve_spec(
                clauses.last().1,
                alias,
                child_alias(next, (clauses.len() - 1) as nat),
            ) {
                Err(e) => Err(e),
                Ok(r) => Ok(add_clause(p, clauses.last().0, r)),
            },
        }
    }
}


// ---------------------------------------------------------------------------
// Resolution.
// ---------------------------------------------------------------------------
/// A sheet reached through a relation: the alias its tables take, the column
/// of the referring table that holds the row it refers to, a further
/// condition on the referring table, and the languages read from it.
#[derive(Debug)]
pub struct ResolveRelation {
    pub sheet: String,
    pub alias: String,
    pub foreign_key: Column,
    pub condition: Option<Condition>,
    pub languages: Vec<Language>,
}

/// A query resolved against the tables under an alias.
#[derive(Debug)]
pub struct ResolveResult {
    pub condition: Condition,
    pub score: Score,
    pub languages: Vec<Language>,
    pub relations: Vec<ResolveRelation>,
}

impl ResolveRelation {
    pub open spec fn model(self) -> RelationModel {
        RelationModel {
            sheet: self.sheet@,
            alias: self.alias@,
            foreign_key: self.foreign_key.model(),
            condition: match self.condition {
                Some(c) => Some(c.model()),
                None => None,
            },
            languages: self.languages@,
        }
    }
}

pub open spec fn relations_model(relations: Seq<ResolveRelation>) -> Seq<RelationModel> {
    Seq::new(relations.len(), |i: int| relations[i].model())
}

impl ResolveResult {
    pub open spec fn model(self) -> ResolvedModel {
        ResolvedModel {
            condition: self.condition.model(),
            score: self.score.model(),
            languages: self.languages@,
            relations: relations_model(self.relations@),
        }
    }
}

/// The outcome of resolving, against its model.
pub open spec fn outcome_matches(out: Result<ResolveResult, Error>, spec: Result<ResolvedModel, Seq<char>>) -> bool {
    match out {
        Ok(r) => spec == Ok::<ResolvedModel, Seq<char>>(r.model()),
        Err(Error::MalformedQuery(m)) => spec == Err::<ResolvedModel, Seq<char>>(m@),
        Err(_) => false,
    }
}

fn language_alias_string(base: &str, language: Language) -> (out: String)
    ensures
        out@ == language_alias(base@, language),
{
    let mut out = base.to_owned();
    push_char(&mut out, '@');
    push_chars(&mut out, &code_chars(language));
    out
}

fn child_alias_string(next: &str, index: usize) -> (out: String)
    ensures
        out@ == child_alias(next@, index as nat),
{
    let mut out = next.to_owned();
    push_char(&mut out, '-');
    push_decimal(&mut out, index as u64);
    out
}

/// The like pattern that matches text containing `text`.
pub fn like_pattern_string(text: &str) -> (out: String)
    ensures
        out@ == like_pattern(text@),
{
    let cs = chars_of(text);
    let mut out = String::new();
    push_char(&mut out, '%');
    let mut i: usize = 0;
    while i < cs.len()
        invariant
            i <= cs@.len(),
            cs@ == text@,
            out@ == seq!['%'] + escape_like(cs@.take(i as int)),
        decreases cs@.len() - i,
    {
        let c = cs[i];
        if c == '%' || c == '_' || c == '\\' {
            push_char(&mut out, '\\');
        }
        push_char(&mut out, c);
        proof {
            assert(cs@.take(i + 1).drop_last() =~= cs@.take(i as int));
            assert(out@ =~= seq!['%'] + escape_like(cs@.take(i + 1)));
        }
        i = i + 1;
    }
    push_char(&mut out, '%');
    assert(cs@.take(cs@.len() as int) =~= cs@);
    out
}

/// Adds to `languages` those of `more` that it lacks, in order.
fn union_into(languages: &mut Vec<Language>, more: &Vec<Language>)
    ensures
        final(languages)@ == union_languages(old(languages)@, more@),
{
    let ghost start = languages@;
    let mut i: usize = 0;
    while i < more.len()
        invariant
            i <= more@.len(),
            languages@ == union_languages(start, more@.take(i as int)),
        decreases more@.len() - i,
    {
        let l = more[i];
        assert(more@.take(i + 1).drop_last() =~= more@.take(i as int));
        if !contains_language(languages, l) {
            languages.push(l);
        }
        i = i + 1;
    }
    assert(more@.take(more@.len() as int) =~= more@);
}

impl Column {
    /// A copy of this column.
    pub fn duplicate(&self) -> (out: Column)
        ensures
            out.model() == self.model(),
    {
        match self {
            Column::Field(a, c) => Column::Field(a.clone(), *c),
            Column::RowId(a) => Column::RowId(a.clone()),
            Column::SubrowId(a) => Column::SubrowId(a.clone()),
        }
    }
}

impl Predicate {
    /// A copy of this predicate.
    pub fn duplicate(&self) -> (out: Predicate)
        ensures
            out.model() == self.model(),
    {
        match self {
            Predicate::Like(c, p) => Predicate::Like(c.duplicate(), p.clone()),
            Predicate::Equal(c, v) => Predicate::Equal(c.duplicate(), v.duplicate()),
            Predicate::Same(a, b) => Predicate::Same(a.duplicate(), b.duplicate()),
        }
    }
}

impl Condition {
    /// A copy of this condition.
    pub fn duplicate(&self) -> (out: Condition)
        ensures
            out.model() == self.model(),
        decreases self,
    {
        let mut terms: Vec<Term> = Vec::new();
        let mut i: usize = 0;
        while i < self.terms.len()
            invariant
                i <= self.terms@.len(),
                terms@.len() == i,
                forall|j: int| 0 <= j < i ==> #[trigger] terms@[j].model() == self.terms@[j].model(),
            decreases self.terms@.len() - i,
        {
            proof {
                assert(decreases_to!(*self => self.terms));
                assert(decreases_to!(self.terms => self.terms@));
                assert(decreases_to!(self.terms@ => self.terms@[i as int]));
            }
            let t = match &self.terms[i] {
                Term::Condition(c) => {
                    proof {
                        assert(decreases_to!(self.terms@[i as int] => self.terms@[i as int]->Condition_0));
                    }
                    Term::Condition(c.duplicate())
                },
                Term::Predicate(p) => Term::Predicate(p.duplicate()),
            };
            terms.push(t);
            i = i + 1;
        }
        proof {
            lemma_terms_model(self.terms@);
            lemma_terms_model_ext(terms@, terms_model(self.terms@));
        }
        Condition { any: self.any, negate: self.negate, terms }
    }
}


/// Appending a term appends its model.
pub proof fn lemma_terms_model_push(terms: Seq<Term>, t: Term)
    ensures
        terms_model(terms.push(t)) == terms_model(terms).push(t.model()),
{
    assert(terms.push(t).drop_last() =~= terms);
}

proof fn lemma_relations_model_append(a: Seq<ResolveRelation>, b: Seq<ResolveRelation>)
    ensures
        relations_model(a + b) == relations_model(a) + relations_model(b),
{
    assert(relations_model(a + b) =~= relations_model(a) + relations_model(b));
}

/// Once a prefix of the clauses fails, the clauses fail the same way.
proof fn lemma_clauses_failure(
    clauses: Seq<(Occur, NodeModel)>,
    k: int,
    alias: Seq<char>,
    next: Seq<char>,
)
    requires
        0 <= k <= clauses.len(),
        resolve_clauses(clauses.take(k), alias, next) is Err,
    ensures
        resolve_clauses(clauses, alias, next) == resolve_clauses(clauses.take(k), alias, next),
    decreases clauses.len(),
{
    if k < clauses.len() {
        assert(clauses.drop_last().take(k) =~= clauses.take(k));
        lemma_clauses_failure(clauses.drop_last(), k, alias, next);
    } else {
        assert(clauses.take(k) =~= clauses);
    }
}

/// Resolves a query against the tables under `alias`, taking aliases for the
/// sheets it reaches through relations from `next` on.
pub fn resolve_node(node: &Node, alias: &str, next: &str) -> (out: Result<ResolveResult, Error>)
    ensures
        outcome_matches(out, resolve_spec(node.model(), alias@, next@)),
    decreases node,
{
    match node {
        Node::Group(g) => {
            proof {
                assert(decreases_to!(*node => *g));
            }
            resolve_group(g, alias, next)
        },
        Node::Leaf(l) => {
            proof {
                assert(decreases_to!(*node => *l));
            }
            resolve_leaf(l, alias, next)
        },
    }
}

fn resolve_group(group: &Group, alias: &str, next: &str) -> (out: Result<ResolveResult, Error>)
    ensures
        outcome_matches(out, resolve_spec(Node::Group(*group).model(), alias@, next@)),
    decreases group,
{
    let ghost cm = clauses_model(group.clauses@);
    proof {
        lemma_clauses_model(group.clauses@);
    }
    let mut must: Vec<Term> = Vec::new();
    let mut should: Vec<Term> = Vec::new();
    let mut must_not: Vec<Term> = Vec::new();
    let mut total: Option<Score> = None;
    let ghost mut scores: Seq<ScoreModel> = Seq::empty();
    let mut languages: Vec<Language> = Vec::new();
    let mut relations: Vec<ResolveRelation> = Vec::new();
    let mut i: usize = 0;
    assert(cm.take(0) =~= Seq::<(Occur, NodeModel)>::empty());
    assert(relations_model(relations@) =~= Seq::<RelationModel>::empty());
    while i < group.clauses.len()
        invariant
            i <= group.clauses@.len(),
            cm == clauses_model(group.clauses@),
            cm.len() == group.clauses@.len(),
            forall|j: int|
                0 <= j < group.clauses@.len() ==> #[trigger] cm[j] == (
                    group.clauses@[j].0,
                    group.clauses@[j].1.model(),
                ),
            resolve_clauses(cm.take(i as int), alias@, next@) == Ok::<GroupParts, Seq<char>>(
                GroupParts {
                    must: terms_model(must@),
                    should: terms_model(should@),
                    must_not: terms_model(must_not@),
                    scores,
                    languages: languages@,
                    relations: relations_model(relations@),
                },
            ),
            match total {
                None => scores.len() == 0,
                Some(t) => scores.len() > 0 && t.model() == sum_scores(scores),
            },
        decreases group.clauses@.len() - i,
    {
        let clause = &group.clauses[i];
        let occur = clause.0;
        let child_next = child_alias_string(next, i);
        proof {
            assert(decreases_to!(*group => group.clauses));
            assert(decreases_to!(group.clauses => group.clauses@));
            assert(decreases_to!(group.clauses@ => group.clauses@[i as int]));
            assert(decreases_to!(group.clauses@[i as int] => group.clauses@[i as int].1));
            assert(cm.take(i + 1).drop_last() =~= cm.take(i as int));
            assert(cm.take(i + 1).last() == cm[i as int]);
        }
        let r = match resolve_node(&clause.1, alias, child_next.as_str()) {
            Ok(r) => r,
            Err(e) => {
                proof {
                    lemma_clauses_failure(cm, i + 1, alias@, next@);
                }
                return Err(e);
            },
        };
        let ghost rm = r.model();
        let ResolveResult { condition, score, languages: inner_languages, relations: mut inner_relations } = r;
        let ghost parts = GroupParts {
            must: terms_model(must@),
            should: terms_model(should@),
            must_not: terms_model(must_not@),
            scores,
            languages: languages@,
            relations: relations_model(relations@),
        };
        match occur {
            Occur::Must => {
                proof {
                    lemma_terms_model_push(must@, Term::Condition(condition));
                    assert(scores.push(rm.score).drop_last() =~= scores);
                    scores = scores.push(rm.score);
                }
                must.push(Term::Condition(condition));
                total = match total {
                    None => Some(score),
                    Some(t) => Some(Score::Sum(Box::new(t), Box::new(score))),
                };
            },
            Occur::Should => {
                let copy = condition.duplicate();
                let gated = Score::Case(copy, Box::new(score));
                proof {
                    lemma_terms_model_push(should@, Term::Condition(condition));
                    assert(scores.push(gated.model()).drop_last() =~= scores);
                    scores = scores.push(gated.model());
                }
                should.push(Term::Condition(condition));
                total = match total {
                    None => Some(gated),
                    Some(t) => Some(Score::Sum(Box::new(t), Box::new(gated))),
                };
            },
            Occur::MustNot => {
                proof {
                    lemma_terms_model_push(must_not@, Term::Condition(condition));
                }
                must_not.push(Term::Condition(condition));
            },
        }
        union_into(&mut languages, &inner_languages);
        let ghost before = relations@;
        let ghost appended = inner_relations@;
        relations.append(&mut inner_relations);
        proof {
            lemma_relations_model_append(before, appended);
        }
        i = i + 1;
    }
    assert(cm.take(group.clauses@.len() as int) =~= cm);
    let ghost p = GroupParts {
        must: terms_model(must@),
        should: terms_model(should@),
        must_not: terms_model(must_not@),
        scores,
        languages: languages@,
        relations: relations_model(relations@),
    };
    assert(resolve_clauses(cm, alias@, next@) == Ok::<GroupParts, Seq<char>>(p));
    assert(Node::Group(*group).model() == NodeModel::Group(cm));
    proof {
        lemma_terms_model(must@);
        lemma_terms_model(should@);
        lemma_terms_model(must_not@);
    }
    let total_score = match total {
        None => Score::Constant(0),
        Some(t) => t,
    };
    assert(total_score.model() == sum_scores(p.scores));
    let required = Condition { any: false, negate: false, terms: must };
    assert(required.model() == all_of(p.must));
    let score = if required.terms.len() > 0 {
        let gate = required.duplicate();
        assert(gate.model() == all_of(p.must));
        let s = Score::Case(gate, Box::new(total_score));
        assert(s.model() == ScoreModel::Case(all_of(p.must), Box::new(sum_scores(p.scores))));
        s
    } else {
        total_score
    };
    assert(score.model() == group_result(p).score);
    let mut terms = required.terms;
    if should.len() > 0 && terms.len() == 0 {
        let optional = Term::Condition(Condition { any: true, negate: false, terms: should });
        proof {
            lemma_terms_model_push(terms@, optional);
        }
        terms.push(optional);
    }
    if must_not.len() > 0 {
        let excluded = Term::Condition(Condition { any: true, negate: true, terms: must_not });
        proof {
            lemma_terms_model_push(terms@, excluded);
        }
        terms.push(excluded);
    }
    let out = ResolveResult {
        condition: Condition { any: false, negate: false, terms },
        score,
        languages,
        relations,
    };
    assert(out.model().score == group_result(p).score);
    assert(out.model().condition == group_result(p).condition);
    assert(out.model() == group_result(p));
    Ok(out)
}


fn resolve_leaf(leaf: &Leaf, alias: &str, next: &str) -> (out: Result<ResolveResult, Error>)
    ensures
        outcome_matches(out, resolve_spec(Node::Leaf(*leaf).model(), alias@, next@)),
    decreases leaf,
{
    let column = leaf.field.0;
    let language = leaf.field.1;
    let column_alias = language_alias_string(alias, language);
    let mut languages: Vec<Language> = Vec::new();
    languages.push(language);
    assert(languages@ =~= seq![language]);
    match &leaf.operation {
        Operation::Relation(relation) => {
            let inner_next = child_alias_string(next, 0);
            proof {
                assert(decreases_to!(*leaf => leaf.operation));
                assert(decreases_to!(leaf.operation => *relation));
                assert(decreases_to!(*relation => relation.query));
            }
            let inner = match resolve_node(&*relation.query, next, inner_next.as_str()) {
                Ok(r) => r,
                Err(e) => return Err(e),
            };
            let mut extra: Vec<ResolveRelation> = Vec::new();
            let mut condition_languages: Vec<Language> = Vec::new();
            let condition = match &relation.target.condition {
                None => None,
                Some(c) => {
                    proof {
                        assert(decreases_to!(*relation => relation.target));
                        assert(decreases_to!(relation.target => relation.target.condition));
                        assert(decreases_to!(relation.target.condition => *c));
                    }
                    match resolve_node(&**c, alias, next) {
                        Ok(r) => {
                            let ResolveResult { condition, score: _, languages: used, relations } = r;
                            extra = relations;
                            condition_languages = used;
                            Some(condition)
                        },
                        Err(e) => return Err(e),
                    }
                },
            };
            // The condition reads the current sheet, so its languages join this leaf's.
            union_into(&mut languages, &condition_languages);
            let ghost im = inner.model();
            let ResolveResult {
                condition: inner_condition,
                score: inner_score,
                languages: inner_languages,
                relations: mut inner_relations,
            } = inner;
            let mut relations: Vec<ResolveRelation> = Vec::new();
            relations.push(
                ResolveRelation {
                    sheet: relation.target.sheet.clone(),
                    alias: next.to_owned(),
                    foreign_key: Column::Field(column_alias, column),
                    condition,
                    languages: inner_languages,
                },
            );
            let ghost first = relations@;
            let ghost inner_part = inner_relations@;
            let ghost extra_part = extra@;
            relations.append(&mut inner_relations);
            relations.append(&mut extra);
            proof {
                assert(relations@ == first + inner_part + extra_part);
                lemma_relations_model_append(first, inner_part);
                lemma_relations_model_append(first + inner_part, extra_part);
            }
            let out = ResolveResult {
                condition: inner_condition,
                score: inner_score,
                languages,
                relations,
            };
            assert(out.model().relations == relations_model(first) + relations_model(inner_part) + relations_model(extra_part));
            assert(relations_model(first) == seq![relations@[0].model()]);
            assert(out.model().condition == im.condition);
            assert(out.model() == resolve_spec(Node::Leaf(*leaf).model(), alias@, next@)->Ok_0);
            Ok(out)
        },
        Operation::Match(text) => {
            let n = text.as_str().len();
            if n > u32::MAX as usize {
                return Err(
                    Error::MalformedQuery(
                        "excessively large string expression: out of range integral type conversion attempted".to_owned(),
                    ),
                );
            }
            assert(n == byte_len(text@));
            let pattern = like_pattern_string(text.as_str());
            let mut terms: Vec<Term> = Vec::new();
            terms.push(Term::Predicate(Predicate::Like(Column::Field(column_alias.clone(), column), pattern)));
            proof {
                lemma_terms_model_push(Seq::empty(), terms@[0]);
                assert(Seq::<Term>::empty().push(terms@[0]) =~= terms@);
            }
            let relations: Vec<ResolveRelation> = Vec::new();
            assert(relations_model(relations@) =~= Seq::<RelationModel>::empty());
            Ok(
                ResolveResult {
                    condition: Condition { any: false, negate: false, terms },
                    score: Score::Ratio(n as u32, Column::Field(column_alias, column)),
                    languages,
                    relations,
                },
            )
        },
        Operation::Equal(value) => {
            let mut terms: Vec<Term> = Vec::new();
            terms.push(Term::Predicate(Predicate::Equal(Column::Field(column_alias, column), value.duplicate())));
            proof {
                lemma_terms_model_push(Seq::empty(), terms@[0]);
                assert(Seq::<Term>::empty().push(terms@[0]) =~= terms@);
            }
            let relations: Vec<ResolveRelation> = Vec::new();
            assert(relations_model(relations@) =~= Seq::<RelationModel>::empty());
            Ok(
                ResolveResult {
                    condition: Condition { any: false, negate: false, terms },
                    score: Score::Constant(1),
                    languages,
                    relations,
                },
            )
        },
    }
}


// ---------------------------------------------------------------------------
// Statements.
// ---------------------------------------------------------------------------
/// The alias of the tables of the sheet a query is run against.
pub open spec fn root_alias() -> Seq<char> {
    "alias-base"@
}

/// The alias from which the sheets reached by relations take theirs.
pub open spec fn first_relation_alias() -> Seq<char> {
    "alias-0"@
}

/// A sheet's table in a language, under the language's alias below `alias`.
pub open spec fn language_table(sheet: Seq<char>, alias: Seq<char>, language: Language) -> TableModel {
    TableModel { sheet, language, alias: language_alias(alias, language) }
}

/// The condition that two tables hold the same row.
pub open spec fn same_row(a: Seq<char>, b: Seq<char>) -> ConditionModel {
    one_predicate(PredicateModel::Same(ColumnModel::RowId(a), ColumnModel::RowId(b)))
}

/// Inner joins of the sheet's tables in the given languages, each on the row
/// of the table under `target`.
pub open spec fn row_joins(
    sheet: Seq<char>,
    alias: Seq<char>,
    languages: Seq<Language>,
    target: Seq<char>,
) -> Seq<JoinModel> {
    Seq::new(
        languages.len(),
        |i: int|
            JoinModel {
                left: false,
                table: language_table(sheet, alias, languages[i]),
                on: same_row(language_alias(alias, languages[i]), target),
            },
    )
}

pub open spec fn joined_unreferenced_message(sheet: Seq<char>) -> Seq<char> {
    "joined sheet "@ + sheet + " not referenced"@
}

pub open spec fn target_unreferenced_message() -> Seq<char> {
    "target sheet not referenced"@
}

pub open spec fn no_queries_message() -> Seq<char> {
    "no queries could be resolved"@
}

/// The joins of a relation: a left join of the related sheet's table in its
/// first language, on the foreign key (and on the relation's condition, where
/// it has one), then inner joins of its tables in its other languages.
pub open spec fn relation_join(r: RelationModel) -> Result<Seq<JoinModel>, Seq<char>> {
    if r.languages.len() == 0 {
        Err(joined_unreferenced_message(r.sheet))
    } else {
        let first = language_alias(r.alias, r.languages[0]);
        let link = one_predicate(PredicateModel::Same(r.foreign_key, ColumnModel::RowId(first)));
        let on = match r.condition {
            None => link,
            Some(c) => all_of(seq![TermModel::Condition(link), TermModel::Condition(c)]),
        };
        Ok(
            seq![JoinModel { left: true, table: language_table(r.sheet, r.alias, r.languages[0]), on }]
                + row_joins(r.sheet, r.alias, r.languages.drop_first(), first),
        )
    }
}

/// The joins of the relations, in order; the first failure wins.
pub open spec fn relation_joins(relations: Seq<RelationModel>) -> Result<Seq<JoinModel>, Seq<char>>
    decreases relations.len(),
{
    if relations.len() == 0 {
        Ok(Seq::empty())
    } else {
        match relation_joins(relations.drop_last()) {
            Err(e) => Err(e),
            Ok(joins) => match relation_join(relations.last()) {
                Err(e) => Err(e),
                Ok(more) => Ok(joins + more),
            },
        }
    }
}

/// The select that runs a query against a sheet.
pub open spec fn select_spec(sheet: Seq<char>, node: NodeModel) -> Result<SelectModel, Seq<char>> {
    match resolve_spec(node, root_alias(), first_relation_alias()) {
        Err(e) => Err(e),
        Ok(r) => if r.languages.len() == 0 {
            Err(target_unreferenced_message())
        } else {
            let base = language_alias(root_alias(), r.languages[0]);
            match relation_joins(r.relations) {
                Err(e) => Err(e),
                Ok(joins) => Ok(
                    SelectModel {
                        sheet,
                        from: language_table(sheet, root_alias(), r.languages[0]),
                        joins: row_joins(sheet, root_alias(), r.languages.drop_first(), base) + joins,
                        score: r.score,
                        condition: r.condition,
                    },
                ),
            }
        },
    }
}

/// The selects of the queries, in order; the first failure wins.
pub open spec fn selects_spec(queries: Seq<(Seq<char>, NodeModel)>) -> Result<Seq<SelectModel>, Seq<char>>
    decreases queries.len(),
{
    if queries.len() == 0 {
        Ok(Seq::empty())
    } else {
        match selects_spec(queries.drop_last()) {
            Err(e) => Err(e),
            Ok(selects) => match select_spec(queries.last().0, queries.last().1) {
                Err(e) => Err(e),
                Ok(s) => Ok(selects.push(s)),
            },
        }
    }
}

/// The statement that runs the queries: there must be at least one.
pub open spec fn statement_spec(queries: Seq<(Seq<char>, NodeModel)>) -> Result<Seq<SelectModel>, Seq<char>> {
    if queries.len() == 0 {
        Err(no_queries_message())
    } else {
        selects_spec(queries)
    }
}

pub open spec fn queries_model(queries: Seq<(String, Node)>) -> Seq<(Seq<char>, NodeModel)> {
    Seq::new(queries.len(), |i: int| (queries[i].0@, queries[i].1.model()))
}

fn language_table_for(sheet: &str, alias: &str, language: Language) -> (out: Table)
    ensures
        out.model() == language_table(sheet@, alias@, language),
{
    Table { sheet: sheet.to_owned(), language, alias: language_alias_string(alias, language) }
}

fn same_row_condition(a: &str, b: &str) -> (out: Condition)
    ensures
        out.model() == same_row(a@, b@),
{
    let mut terms: Vec<Term> = Vec::new();
    terms.push(Term::Predicate(Predicate::Same(Column::RowId(a.to_owned()), Column::RowId(b.to_owned()))));
    proof {
        lemma_terms_model_push(Seq::empty(), terms@[0]);
        assert(Seq::<Term>::empty().push(terms@[0]) =~= terms@);
    }
    Condition { any: false, negate: false, terms }
}

/// Appends the inner joins of the sheet's tables in the languages from the
/// `from`th on, each on the row of the table under `target`.
fn push_row_joins(
    joins: &mut Vec<Join>,
    sheet: &str,
    alias: &str,
    languages: &Vec<Language>,
    from: usize,
    target: &str,
)
    requires
        from <= languages@.len(),
    ensures
        joins_model(final(joins)@) == joins_model(old(joins)@) + row_joins(
            sheet@,
            alias@,
            languages@.skip(from as int),
            target@,
        ),
{
    let ghost start = joins@;
    let mut i: usize = from;
    while i < languages.len()
        invariant
            from <= i <= languages@.len(),
            joins_model(joins@) == joins_model(start) + row_joins(
                sheet@,
                alias@,
                languages@.subrange(from as int, i as int),
                target@,
            ),
        decreases languages@.len() - i,
    {
        let language = languages[i];
        let table_alias = language_alias_string(alias, language);
        let on = same_row_condition(table_alias.as_str(), target);
        let join = Join { left: false, table: language_table_for(sheet, alias, language), on };
        let ghost before = joins@;
        joins.push(join);
        proof {
            assert(joins_model(joins@) =~= joins_model(before).push(join.model()));
            assert(row_joins(sheet@, alias@, languages@.subrange(from as int, i + 1), target@) =~= row_joins(
                sheet@,
                alias@,
                languages@.subrange(from as int, i as int),
                target@,
            ).push(join.model()));
        }
        i = i + 1;
    }
    assert(languages@.subrange(from as int, languages@.len() as int) =~= languages@.skip(from as int));
}

/// Appends the joins of a relation.
fn push_relation_joins(joins: &mut Vec<Join>, relation: &ResolveRelation) -> (out: Result<(), Error>)
    ensures
        match relation_join(relation.model()) {
            Ok(more) => out is Ok && joins_model(final(joins)@) == joins_model(old(joins)@) + more,
            Err(m) => match out {
                Err(Error::MalformedQuery(e)) => e@ == m,
                _ => false,
            },
        },
{
    let ghost rm = relation.model();
    let sheet = &relation.sheet;
    let alias = &relation.alias;
    let languages = &relation.languages;
    if languages.len() == 0 {
        let mut message = "joined sheet ".to_owned();
        message.append(sheet.as_str());
        message.append(" not referenced");
        return Err(Error::MalformedQuery(message));
    }
    let first_language = languages[0];
    let first = language_alias_string(alias.as_str(), first_language);
    let mut link_terms: Vec<Term> = Vec::new();
    link_terms.push(
        Term::Predicate(Predicate::Same(relation.foreign_key.duplicate(), Column::RowId(first.clone()))),
    );
    proof {
        lemma_terms_model_push(Seq::empty(), link_terms@[0]);
        assert(Seq::<Term>::empty().push(link_terms@[0]) =~= link_terms@);
    }
    let link = Condition { any: false, negate: false, terms: link_terms };
    let ghost first_model = language_alias(rm.alias, rm.languages[0]);
    let ghost link_model = one_predicate(PredicateModel::Same(rm.foreign_key, ColumnModel::RowId(first_model)));
    assert(link.model() == link_model);
    let on = match &relation.condition {
        None => link,
        Some(c) => {
            let mut terms: Vec<Term> = Vec::new();
            terms.push(Term::Condition(link));
            terms.push(Term::Condition(c.duplicate()));
            proof {
                lemma_terms_model_push(Seq::empty(), terms@[0]);
                lemma_terms_model_push(seq![terms@[0]], terms@[1]);
                assert(Seq::<Term>::empty().push(terms@[0]) =~= seq![terms@[0]]);
                assert(seq![terms@[0]].push(terms@[1]) =~= terms@);
                assert(terms_model(terms@) =~= seq![TermModel::Condition(link_model), TermModel::Condition(c.model())]);
            }
            Condition { any: false, negate: false, terms }
        },
    };
    assert(on.model() == match rm.condition {
        None => link_model,
        Some(c) => all_of(seq![TermModel::Condition(link_model), TermModel::Condition(c)]),
    });
    let table = language_table_for(sheet.as_str(), alias.as_str(), first_language);
    let ghost before = joins@;
    let join = Join { left: true, table, on };
    let ghost jm = join.model();
    joins.push(join);
    let ghost mid = joins@;
    assert(joins_model(mid) =~= joins_model(before).push(jm));
    push_row_joins(joins, sheet.as_str(), alias.as_str(), languages, 1, first.as_str());
    assert(languages@.skip(1) =~= languages@.drop_first());
    let ghost rest = row_joins(rm.sheet, rm.alias, rm.languages.drop_first(), first_model);
    assert(relation_join(rm) == Ok::<Seq<JoinModel>, Seq<char>>(seq![jm] + rest));
    assert(joins_model(joins@) =~= joins_model(before) + (seq![jm] + rest));
    Ok(())
}

/// The select that runs a query against the sheet `sheet_name`: the rows of
/// its table (in the first language the query reads) joined with its tables
/// in the other languages and with the sheets that relations reach.
pub fn resolve_query(sheet_name: &str, node: &Node) -> (out: Result<Select, Error>)
    ensures
        match select_spec(sheet_name@, node.model()) {
            Ok(m) => out matches Ok(s) && s.model() == m,
            Err(m) => match out {
                Err(Error::MalformedQuery(e)) => e@ == m,
                _ => false,
            },
        },
{
    let resolved = match resolve_node(node, "alias-base", "alias-0") {
        Ok(r) => r,
        Err(e) => {
            assert(select_spec(sheet_name@, node.model()) is Err);
            return Err(e);
        },
    };
    let ghost rm = resolved.model();
    let ResolveResult { condition, score, languages, relations } = resolved;
    if languages.len() == 0 {
        return Err(Error::MalformedQuery("target sheet not referenced".to_owned()));
    }
    let base_language = languages[0];
    let base = language_alias_string("alias-base", base_language);
    let from = language_table_for(sheet_name, "alias-base", base_language);
    let mut joins: Vec<Join> = Vec::new();
    push_row_joins(&mut joins, sheet_name, "alias-base", &languages, 1, base.as_str());
    assert(languages@.skip(1) =~= languages@.drop_first());
    let ghost base_joins = joins@;
    let ghost all = relations_model(relations@);
    let mut k: usize = 0;
    assert(all.take(0) =~= Seq::<RelationModel>::empty());
    while k < relations.len()
        invariant
            k <= relations@.len(),
            all == relations_model(relations@),
            resolve_spec(node.model(), root_alias(), first_relation_alias()) == Ok::<ResolvedModel, Seq<char>>(rm),
            rm.relations == all,
            rm.languages.len() > 0,
            relation_joins(all.take(k as int)) matches Ok(done) && joins_model(joins@) == joins_model(
                base_joins,
            ) + done,
        decreases relations@.len() - k,
    {
        proof {
            assert(all.take(k + 1).drop_last() =~= all.take(k as int));
            assert(all.take(k + 1).last() == relations@[k as int].model());
        }
        match push_relation_joins(&mut joins, &relations[k]) {
            Ok(()) => {},
            Err(e) => {
                proof {
                    lemma_relation_joins_failure(all, k + 1);
                    assert(relation_joins(all) is Err);
                    assert(select_spec(sheet_name@, node.model()) == Err::<SelectModel, Seq<char>>(
                        relation_joins(all)->Err_0,
                    ));
                }
                return Err(e);
            },
        }
        k = k + 1;
    }
    assert(all.take(relations@.len() as int) =~= all);
    let select = Select { sheet: sheet_name.to_owned(), from, joins, score, condition };
    assert(relation_joins(rm.relations) is Ok);
    assert(select.model().joins =~= row_joins(
        sheet_name@,
        root_alias(),
        rm.languages.drop_first(),
        language_alias(root_alias(), rm.languages[0]),
    ) + relation_joins(rm.relations)->Ok_0);
    Ok(select)
}

/// Once a prefix of the relations fails, the relations fail the same way.
proof fn lemma_relation_joins_failure(relations: Seq<RelationModel>, k: int)
    requires
        0 <= k <= relations.len(),
        relation_joins(relations.take(k)) is Err,
    ensures
        relation_joins(relations) == relation_joins(relations.take(k)),
    decreases relations.len(),
{
    if k < relations.len() {
        assert(relations.drop_last().take(k) =~= relations.take(k));
        lemma_relation_joins_failure(relations.drop_last(), k);
    } else {
        assert(relations.take(k) =~= relations);
    }
}

/// A statement holds one select per query, in the order of the queries,
/// each yielding the sheet its query is run against and reading from that
/// sheet's table.
pub proof fn lemma_statement_selects(queries: Seq<(Seq<char>, NodeModel)>)
    ensures
        statement_spec(queries) matches Ok(selects) ==> {
            &&& selects.len() == queries.len()
            &&& forall|i: int|
                0 <= i < queries.len() ==> #[trigger] selects[i].sheet == queries[i].0 && selects[i].from.sheet
                    == queries[i].0
        },
{
    lemma_selects_order(queries);
}

proof fn lemma_selects_order(queries: Seq<(Seq<char>, NodeModel)>)
    ensures
        selects_spec(queries) matches Ok(selects) ==> {
            &&& selects.len() == queries.len()
            &&& forall|i: int|
                0 <= i < queries.len() ==> #[trigger] selects[i].sheet == queries[i].0 && selects[i].from.sheet
                    == queries[i].0
        },
    decreases queries.len(),
{
    if queries.len() > 0 {
        let p = queries.drop_last();
        lemma_selects_order(p);
        match selects_spec(p) {
            Err(_) => {},
            Ok(earlier) => match select_spec(queries.last().0, queries.last().1) {
                Err(_) => {},
                Ok(last) => {
                    let all = earlier.push(last);
                    assert forall|i: int| 0 <= i < queries.len() implies #[trigger] all[i].sheet == queries[i].0
                        && all[i].from.sheet == queries[i].0 by {
                        if i < p.len() {
                            assert(queries[i] == p[i]);
                        }
                    }
                },
            },
        }
    }
}

/// Once a prefix of the queries fails, the queries fail the same way.
proof fn lemma_selects_failure(queries: Seq<(Seq<char>, NodeModel)>, k: int)
    requires
        0 <= k <= queries.len(),
        selects_spec(queries.take(k)) is Err,
    ensures
        selects_spec(queries) == selects_spec(queries.take(k)),
    decreases queries.len(),
{
    if k < queries.len() {
        assert(queries.drop_last().take(k) =~= queries.take(k));
        lemma_selects_failure(queries.drop_last(), k);
    } else {
        assert(queries.take(k) =~= queries);
    }
}

/// The statement that runs each query against its sheet, as one union whose
/// rows come highest score first; it fails where there is no query, or with
/// the first query that cannot be resolved.
pub fn resolve_queries(queries: Vec<(String, Node)>) -> (out: Result<Statement, Error>)
    ensures
        match statement_spec(queries_model(queries@)) {
            Ok(m) => out matches Ok(st) && selects_model(st.selects@) == m,
            Err(m) => match out {
                Err(Error::MalformedQuery(e)) => e@ == m,
                _ => false,
            },
        },
{
    let ghost qm = queries_model(queries@);
    if queries.len() == 0 {
        return Err(Error::MalformedQuery("no queries could be resolved".to_owned()));
    }
    let mut selects: Vec<Select> = Vec::new();
    let mut i: usize = 0;
    assert(qm.take(0) =~= Seq::<(Seq<char>, NodeModel)>::empty());
    assert(selects_model(selects@) =~= Seq::<SelectModel>::empty());
    while i < queries.len()
        invariant
            i <= queries@.len(),
            qm == queries_model(queries@),
            selects_spec(qm.take(i as int)) == Ok::<Seq<SelectModel>, Seq<char>>(selects_model(selects@)),
        decreases queries@.len() - i,
    {
        let query = &queries[i];
        proof {
            assert(qm.take(i + 1).drop_last() =~= qm.take(i as int));
            assert(qm.take(i + 1).last() == (query.0@, query.1.model()));
        }
        match resolve_query(query.0.as_str(), &query.1) {
            Ok(select) => {
                let ghost before = selects@;
                selects.push(select);
                assert(selects_model(selects@) =~= selects_model(before).push(select.model()));
            },
            Err(e) => {
                proof {
                    lemma_selects_failure(qm, i + 1);
                }
                return Err(e);
            },
        }
        i = i + 1;
    }
    assert(qm.take(queries@.len() as int) =~= qm);
    Ok(Statement { selects })
}

} // verus!
