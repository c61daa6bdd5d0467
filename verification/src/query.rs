//! Parsed queries, and what scoring takes from them.

use crate::source::Combine;
use crate::text::{holds_text, same, same_texts, sorted_set, sorted_unique, texts};
use vstd::prelude::*;

verus! {

/// One end of a range of terms.
#[derive(Debug)]
pub enum RangeBound {
    Open,
    Term(String),
}

/// A term position of a span.
#[derive(Debug)]
pub enum SpanTermSlot {
    Term(String),
    Regex(String),
    Range { lower: RangeBound, upper: RangeBound },
    Fuzzy { term: String, prefix: u32, distance: u32 },
}

/// A parsed query. A regular expression is held as its pattern, and a boost
/// factor as the bit pattern of its number.
#[derive(Debug)]
pub enum Query {
    Term(String),
    Fuzzy { term: String, prefix: u32, distance: u32 },
    Regex(String),
    Range { lower: RangeBound, upper: RangeBound },
    Span { term_slots: Vec<SpanTermSlot> },
    SpanExpr { term_slots: Vec<SpanTermSlot> },
    And(Box<Query>, Box<Query>),
    Or(Box<Query>, Box<Query>),
    Conjunction(Vec<Query>),
    Disjunction { min: u32, children: Vec<Query> },
    AtLeast { min: u32, children: Vec<Query> },
    Not(Box<Query>),
    MatchAll,
    Boost { factor: u32, inner: Box<Query> },
    Field { name: String, inner: Box<Query> },
}

/// The field plan of a multi-column index: the name and the weight of each
/// field, the weight as the bit pattern of its number.
#[derive(Debug)]
pub struct FieldMeta {
    pub names: Vec<String>,
    pub weights: Vec<u32>,
}

impl FieldMeta {
    /// Each field has a weight, and a mask has a bit for each field.
    pub open spec fn valid(self) -> bool {
        self.names.len() == self.weights.len() && self.names.len() <= 16
    }

    /// The first field called `name`, looking from field `from` on.
    pub open spec fn field_from(self, name: Seq<char>, from: int) -> Option<int>
        decreases self.names.len() - from,
    {
        if from < 0 || from >= self.names.len() {
            None
        } else if self.names[from]@ == name {
            Some(from)
        } else {
            self.field_from(name, from + 1)
        }
    }

    /// A name that a field has is found.
    pub proof fn lemma_field_known(self, name: Seq<char>, from: int)
        requires
            0 <= from <= self.names.len(),
            texts(self.names@).skip(from).contains(name),
        ensures
            self.field_from(name, from) is Some,
        decreases self.names.len() - from,
    {
        let rest = texts(self.names@).skip(from);
        let k = choose|k: int| 0 <= k < rest.len() && rest[k] == name;
        if self.names[from]@ != name {
            let later = texts(self.names@).skip(from + 1);
            assert(later[k - 1] == name);
            self.lemma_field_known(name, from + 1);
        }
    }

    /// The field called `name`.
    pub fn field_id(&self, name: &str) -> (field: Option<usize>)
        ensures
            match self.field_from(name@, 0) {
                Some(f) => field == Some(f as usize) && 0 <= f < self.names.len(),
                None => field is None,
            },
            field is Some <==> texts(self.names@).contains(name@),
    {
        let mut i: usize = 0;
        while i < self.names.len()
            invariant
                i <= self.names.len(),
                self.field_from(name@, 0) == self.field_from(name@, i as int),
                forall|j: int| 0 <= j < i ==> texts(self.names@)[j] != name@,
            decreases self.names.len() - i,
        {
            if same(self.names[i].as_str(), name) {
                assert(texts(self.names@)[i as int] == name@);
                return Some(i);
            }
            i = i + 1;
        }
        None
    }
}

/// Why a query's field names are refused.
#[derive(Debug)]
pub enum FieldError {
    /// Field syntax on an index without fields.
    NoFields,
    /// No field of the index has the name.
    Unknown(String),
    /// The clause answers the first field, and the query names the second.
    Foreign(String, String),
    /// The clause's column is not a field of its index.
    NotAField,
}

/// The first field name of the query, left to right, that `fields` does not
/// have.
pub open spec fn unresolved_field(query: Query, fields: Option<FieldMeta>) -> Option<FieldError>
    decreases query, 0int,
{
    match query {
        Query::Field { name, inner } => match fields {
            None => Some(FieldError::NoFields),
            Some(plan) => if texts(plan.names@).contains(name@) {
                unresolved_field(*inner, fields)
            } else {
                Some(FieldError::Unknown(name))
            },
        },
        Query::And(left, right) | Query::Or(left, right) => match unresolved_field(*left, fields) {
            Some(error) => Some(error),
            None => unresolved_field(*right, fields),
        },
        Query::Conjunction(children) => unresolved_from(children@, 0, fields),
        Query::Disjunction { min: _, children } => unresolved_from(children@, 0, fields),
        Query::AtLeast { min: _, children } => unresolved_from(children@, 0, fields),
        Query::Not(inner) => unresolved_field(*inner, fields),
        Query::Boost { factor: _, inner } => unresolved_field(*inner, fields),
        _ => None,
    }
}

/// [`unresolved_field`] of the queries from the `i`-th on.
pub open spec fn unresolved_from(children: Seq<Query>, i: int, fields: Option<FieldMeta>) -> Option<
    FieldError,
>
    decreases children, children.len() - i,
{
    if i < 0 || i >= children.len() {
        None
    } else {
        match unresolved_field(children[i], fields) {
            Some(error) => Some(error),
            None => unresolved_from(children, i + 1, fields),
        }
    }
}

/// Resolves every field name a query scopes against: an unknown name, or
/// field syntax on an index without fields, is an error.
pub fn check_query_fields(query: &Query, fields: &Option<FieldMeta>) -> (checked: Result<
    (),
    FieldError,
>)
    ensures
        match unresolved_field(*query, *fields) {
            Some(error) => checked == Err::<(), FieldError>(error),
            None => checked is Ok,
        },
    decreases query,
{
    match query {
        Query::Field { name, inner } => match fields {
            None => Err(FieldError::NoFields),
            Some(plan) => {
                if holds_text(&plan.names, name.as_str()) {
                    check_query_fields(inner, fields)
                } else {
                    Err(FieldError::Unknown(name.clone()))
                }
            },
        },
        Query::And(left, right) | Query::Or(left, right) => {
            match check_query_fields(left, fields) {
                Ok(()) => check_query_fields(right, fields),
                Err(error) => Err(error),
            }
        },
        Query::Conjunction(children) => check_children(children, fields),
        Query::Disjunction { min: _, children } => check_children(children, fields),
        Query::AtLeast { min: _, children } => check_children(children, fields),
        Query::Not(inner) => check_query_fields(inner, fields),
        Query::Boost { factor: _, inner } => check_query_fields(inner, fields),
        _ => Ok(()),
    }
}

fn check_children(children: &Vec<Query>, fields: &Option<FieldMeta>) -> (checked: Result<
    (),
    FieldError,
>)
    ensures
        match unresolved_from(children@, 0, *fields) {
            Some(error) => checked == Err::<(), FieldError>(error),
            None => checked is Ok,
        },
    decreases children,
{
    let mut i: usize = 0;
    while i < children.len()
        invariant
            i <= children.len(),
            unresolved_from(children@, 0, *fields) == unresolved_from(
                children@,
                i as int,
                *fields,
            ),
        decreases children.len() - i,
    {
        match check_query_fields(&children[i], fields) {
            Ok(()) => {},
            Err(error) => {
                return Err(error);
            },
        }
        i = i + 1;
    }
    Ok(())
}

/// The first field name of the query, left to right, that is not `name`.
pub open spec fn foreign_field(query: Query, name: String) -> Option<FieldError>
    decreases query, 0int,
{
    match query {
        Query::Field { name: other, inner } => if other@ != name@ {
            Some(FieldError::Foreign(name, other))
        } else {
            foreign_field(*inner, name)
        },
        Query::And(left, right) | Query::Or(left, right) => match foreign_field(*left, name) {
            Some(error) => Some(error),
            None => foreign_field(*right, name),
        },
        Query::Conjunction(children) => foreign_from(children@, 0, name),
        Query::Disjunction { min: _, children } => foreign_from(children@, 0, name),
        Query::AtLeast { min: _, children } => foreign_from(children@, 0, name),
        Query::Not(inner) => foreign_field(*inner, name),
        Query::Boost { factor: _, inner } => foreign_field(*inner, name),
        _ => None,
    }
}

/// [`foreign_field`] of the queries from the `i`-th on.
pub open spec fn foreign_from(children: Seq<Query>, i: int, name: String) -> Option<FieldError>
    decreases children, children.len() - i,
{
    if i < 0 || i >= children.len() {
        None
    } else {
        match foreign_field(children[i], name) {
            Some(error) => Some(error),
            None => foreign_from(children, i + 1, name),
        }
    }
}

/// Rejects a field group that names a field other than the scan key's: the
/// whole clause answers one column.
pub fn reject_foreign_fields(query: &Query, name: &String) -> (checked: Result<(), FieldError>)
    ensures
        match foreign_field(*query, *name) {
            Some(error) => checked == Err::<(), FieldError>(error),
            None => checked is Ok,
        },
    decreases query,
{
    match query {
        Query::Field { name: other, inner } => {
            if !same(other.as_str(), name.as_str()) {
                Err(FieldError::Foreign(name.clone(), other.clone()))
            } else {
                reject_foreign_fields(inner, name)
            }
        },
        Query::And(left, right) | Query::Or(left, right) => {
            match reject_foreign_fields(left, name) {
                Ok(()) => reject_foreign_fields(right, name),
                Err(error) => Err(error),
            }
        },
        Query::Conjunction(children) => reject_foreign_children(children, name),
        Query::Disjunction { min: _, children } => reject_foreign_children(children, name),
        Query::AtLeast { min: _, children } => reject_foreign_children(children, name),
        Query::Not(inner) => reject_foreign_fields(inner, name),
        Query::Boost { factor: _, inner } => reject_foreign_fields(inner, name),
        _ => Ok(()),
    }
}

fn reject_foreign_children(children: &Vec<Query>, name: &String) -> (checked: Result<
    (),
    FieldError,
>)
    ensures
        match foreign_from(children@, 0, *name) {
            Some(error) => checked == Err::<(), FieldError>(error),
            None => checked is Ok,
        },
    decreases children,
{
    let mut i: usize = 0;
    while i < children.len()
        invariant
            i <= children.len(),
            foreign_from(children@, 0, *name) == foreign_from(children@, i as int, *name),
        decreases children.len() - i,
    {
        match reject_foreign_fields(&children[i], name) {
            Ok(()) => {},
            Err(error) => {
                return Err(error);
            },
        }
        i = i + 1;
    }
    Ok(())
}

/// What [`scope_scan_query`] gives.
pub open spec fn scoped_query(query: Query, fields: Option<FieldMeta>, field: u8) -> Result<
    Query,
    FieldError,
> {
    match fields {
        None => Ok(query),
        Some(plan) => if field >= plan.names.len() {
            Err(FieldError::NotAField)
        } else {
            match foreign_field(query, plan.names[field as int]) {
                Some(error) => Err(error),
                None => Ok(
                    Query::Field { name: plan.names[field as int], inner: Box::new(query) },
                ),
            }
        },
    }
}

/// Restricts a `==>` query to the field its scan key names: the operator's
/// left operand is one column, so every unscoped term in it is scoped to that
/// column's field, and a field group naming another field is rejected. An
/// index without fields needs no scope: its one field is every field.
pub fn scope_scan_query(query: Query, fields: &Option<FieldMeta>, field: u8) -> (scoped: Result<
    Query,
    FieldError,
>)
    ensures
        scoped == scoped_query(query, *fields, field),
{
    match fields {
        None => Ok(query),
        Some(plan) => {
            if field as usize >= plan.names.len() {
                return Err(FieldError::NotAField);
            }
            let name = &plan.names[field as usize];
            match reject_foreign_fields(&query, name) {
                Ok(()) => Ok(Query::Field { name: name.clone(), inner: Box::new(query) }),
                Err(error) => Err(error),
            }
        },
    }
}

/// Why a query is refused.
#[derive(Debug)]
pub enum QueryError {
    /// The text is no query; the parser's message.
    Parse(String),
    Field(FieldError),
}

/// A parsed score query with its field names resolved.
pub open spec fn resolved_query(parsed: Result<Query, String>, fields: Option<FieldMeta>) -> Result<
    Query,
    QueryError,
> {
    match parsed {
        Err(message) => Err(QueryError::Parse(message)),
        Ok(query) => match unresolved_field(query, fields) {
            Some(error) => Err(QueryError::Field(error)),
            None => Ok(query),
        },
    }
}

/// Enforces the field-name contract on what the parser made of a score
/// query's text.
pub fn parse_query(parsed: Result<Query, String>, fields: &Option<FieldMeta>) -> (query: Result<
    Query,
    QueryError,
>)
    ensures
        query == resolved_query(parsed, *fields),
{
    match parsed {
        Err(message) => Err(QueryError::Parse(message)),
        Ok(query) => match check_query_fields(&query, fields) {
            Ok(()) => Ok(query),
            Err(error) => Err(QueryError::Field(error)),
        },
    }
}

/// Resolves the field names of what the parser made of a scan's query text
/// and applies the scan key's implicit field scope.
pub fn scan_query_text(
    parsed: Result<Query, String>,
    fields: &Option<FieldMeta>,
    field: u8,
) -> (query: Result<Query, QueryError>)
    ensures
        match resolved_query(parsed, *fields) {
            Err(error) => query == Err::<Query, QueryError>(error),
            Ok(resolved) => match scoped_query(resolved, *fields, field) {
                Ok(scoped) => query == Ok::<Query, QueryError>(scoped),
                Err(error) => query == Err::<Query, QueryError>(QueryError::Field(error)),
            },
        },
{
    match parse_query(parsed, fields) {
        Err(error) => Err(error),
        Ok(query) => match scope_scan_query(query, fields, field) {
            Ok(scoped) => Ok(scoped),
            Err(error) => Err(QueryError::Field(error)),
        },
    }
}

/// A query that passed a scan's checks scopes only fields of its index, and
/// under the scope it was given none but that column's.
pub proof fn law_scan_query_fields(query: Query, fields: Option<FieldMeta>, field: u8)
    requires
        unresolved_field(query, fields) is None,
        scoped_query(query, fields, field) is Ok,
    ensures
        unresolved_field(scoped_query(query, fields, field)->Ok_0, fields) is None,
        fields matches Some(plan) ==> foreign_field(
            scoped_query(query, fields, field)->Ok_0,
            plan.names[field as int],
        ) is None,
{
    if let Some(plan) = fields {
        let name = plan.names[field as int];
        assert(texts(plan.names@)[field as int] == name@);
    }
}

/// The query under its boosts.
pub open spec fn unboosted(query: Query) -> Query
    decreases query,
{
    match query {
        Query::Boost { factor: _, inner } => unboosted(*inner),
        other => other,
    }
}

/// The texts of `children` from the `i`-th on, when each is a term.
pub open spec fn leaves_from(children: Seq<Query>, i: int) -> Option<Seq<Seq<char>>>
    decreases children.len() - i,
{
    if i < 0 || i >= children.len() {
        Some(Seq::empty())
    } else {
        match (unboosted(children[i]), leaves_from(children, i + 1)) {
            (Query::Term(text), Some(rest)) => Some(seq![text@] + rest),
            _ => None,
        }
    }
}

/// How the leaf terms of a flat query combine, and what they are.
pub open spec fn flat_shape(query: Query) -> Option<(Combine, Seq<Seq<char>>)> {
    match unboosted(query) {
        Query::Term(text) => Some((Combine::Any, seq![text@])),
        Query::And(left, right) => match leaves_from(seq![*left, *right], 0) {
            Some(leaves) => Some((Combine::All, leaves)),
            None => None,
        },
        Query::Conjunction(children) => match leaves_from(children@, 0) {
            Some(leaves) => Some((Combine::All, leaves)),
            None => None,
        },
        Query::Or(left, right) => match leaves_from(seq![*left, *right], 0) {
            Some(leaves) => Some((Combine::Any, leaves)),
            None => None,
        },
        Query::Disjunction { min, children } => if min == 1 {
            match leaves_from(children@, 0) {
                Some(leaves) => Some((Combine::Any, leaves)),
                None => None,
            }
        } else {
            None
        },
        _ => None,
    }
}

fn unboost(query: &Query) -> (inner: &Query)
    ensures
        *inner == unboosted(*query),
    decreases query,
{
    match query {
        Query::Boost { factor: _, inner } => unboost(inner),
        other => other,
    }
}

/// The text of a boosted or plain term.
fn leaf(query: &Query) -> (text: Option<String>)
    ensures
        match unboosted(*query) {
            Query::Term(term) => text == Some(term),
            _ => text is None,
        },
{
    match unboost(query) {
        Query::Term(text) => Some(text.clone()),
        _ => None,
    }
}

fn pair_leaves(left: &Query, right: &Query) -> (leaves: Option<Vec<String>>)
    ensures
        match leaves_from(seq![*left, *right], 0) {
            Some(found) => leaves is Some && texts(leaves->0@) == found,
            None => leaves is None,
        },
{
    proof {
        reveal_with_fuel(leaves_from, 4);
        let pair = seq![*left, *right];
        assert(pair[0] == *left && pair[1] == *right && pair.len() == 2);
    }
    match (leaf(left), leaf(right)) {
        (Some(first), Some(second)) => {
            let mut leaves: Vec<String> = Vec::new();
            leaves.push(first);
            leaves.push(second);
            proof {
                assert(texts(leaves@) =~= seq![first@] + (seq![second@] + Seq::empty()));
            }
            Some(leaves)
        },
        _ => None,
    }
}

fn child_leaves(children: &Vec<Query>) -> (leaves: Option<Vec<String>>)
    ensures
        match leaves_from(children@, 0) {
            Some(found) => leaves is Some && texts(leaves->0@) == found,
            None => leaves is None,
        },
{
    let mut leaves: Vec<String> = Vec::new();
    let mut i: usize = 0;
    while i < children.len()
        invariant
            i <= children.len(),
            match leaves_from(children@, i as int) {
                Some(rest) => leaves_from(children@, 0) == Some(texts(leaves@) + rest),
                None => leaves_from(children@, 0) is None,
            },
        decreases children.len() - i,
    {
        let ghost was = texts(leaves@);
        match leaf(&children[i]) {
            Some(text) => {
                leaves.push(text);
                proof {
                    assert(texts(leaves@) =~= was.push(text@));
                    if let Some(rest) = leaves_from(children@, i + 1) {
                        assert(was + (seq![text@] + rest) =~= texts(leaves@) + rest);
                    }
                }
            },
            None => {
                return None;
            },
        }
        i = i + 1;
    }
    proof {
        assert(texts(leaves@) + Seq::<Seq<char>>::empty() =~= texts(leaves@));
    }
    Some(leaves)
}

fn shaped(combine: Combine, leaves: Option<Vec<String>>) -> (shape: Option<(Combine, Vec<String>)>)
    ensures
        match leaves {
            Some(found) => shape is Some && (shape->0).0 == combine && texts((shape->0).1@)
                == sorted_set(texts(found@)) && same_texts(
                texts((shape->0).1@),
                texts(found@),
            ),
            None => shape is None,
        },
{
    match leaves {
        Some(found) => Some((combine, sorted_unique(&found))),
        None => None,
    }
}

/// A query the scan can prune: a flat conjunction or disjunction of terms
/// (a single term counts), each optionally boosted, with the terms in
/// lexical order and deduplicated.
pub fn prunable_shape(query: &Query) -> (shape: Option<(Combine, Vec<String>)>)
    ensures
        match flat_shape(*query) {
            Some((combine, leaves)) => shape is Some && (shape->0).0 == combine && texts(
                (shape->0).1@,
            ) == sorted_set(leaves) && same_texts(texts((shape->0).1@), leaves),
            None => shape is None,
        },
{
    match unboost(query) {
        Query::Term(text) => {
            let mut leaves: Vec<String> = Vec::new();
            leaves.push(text.clone());
            proof {
                assert(texts(leaves@) =~= seq![text@]);
            }
            shaped(Combine::Any, Some(leaves))
        },
        Query::And(left, right) => shaped(Combine::All, pair_leaves(left, right)),
        Query::Conjunction(children) => shaped(Combine::All, child_leaves(children)),
        Query::Or(left, right) => shaped(Combine::Any, pair_leaves(left, right)),
        Query::Disjunction { min, children } => {
            if *min == 1 {
                shaped(Combine::Any, child_leaves(children))
            } else {
                None
            }
        },
        _ => None,
    }
}

/// What the user is told of an error in a query's fields.
pub open spec fn field_error_text(error: FieldError) -> Seq<char> {
    match error {
        FieldError::NoFields => "stannum: field syntax requires a multi-column index"@,
        FieldError::Unknown(name) => "stannum: unknown field '"@ + name@ + "'"@,
        FieldError::Foreign(name, other) => "stannum: this ==> clause answers '"@ + name@
            + "'; use stannum.search() for '"@ + other@ + "'"@,
        FieldError::NotAField =>
        "stannum: this ==> clause's column is not a field of its index"@,
    }
}

impl FieldError {
    /// What the user is told.
    pub fn message(&self) -> (message: String)
        ensures
            message@ == field_error_text(*self),
    {
        match self {
            FieldError::NoFields => String::from_str(
                "stannum: field syntax requires a multi-column index",
            ),
            FieldError::Unknown(name) => {
                let mut message = String::from_str("stannum: unknown field '");
                message.append(name.as_str());
                message.append("'");
                message
            },
            FieldError::Foreign(name, other) => {
                let mut message = String::from_str("stannum: this ==> clause answers '");
                message.append(name.as_str());
                message.append("'; use stannum.search() for '");
                message.append(other.as_str());
                message.append("'");
                message
            },
            FieldError::NotAField => String::from_str(
                "stannum: this ==> clause's column is not a field of its index",
            ),
        }
    }
}

} // verus!
