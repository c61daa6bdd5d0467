//! `==>` clauses in expressions: recognizing them, and binding them to an
//! index.

use crate::laws::requests::{bound_alike, bound_to, lemma_bound_alike, lemma_bound_to};
use crate::operator::indexed_query;
use crate::plan::Candidate;
use crate::text::same;
use vstd::prelude::*;

verus! {

/// The type of an expression, as far as clauses go.
#[derive(Clone, Copy, Debug, PartialEq, Eq, Structural)]
pub enum ResultType {
    Text,
    IndexedQuery,
    Oid,
    Other,
}

/// An expression of a query.
#[derive(Debug)]
pub enum Expression {
    /// A text constant, or NULL.
    TextConstant(Option<String>),
    /// A bound query as a constant, or NULL.
    BoundConstant(Option<indexed_query>),
    /// An object identifier as a constant, or NULL.
    OidConstant(Option<u32>),
    /// A constant of another type.
    OtherConstant,
    Variable { varno: i32, level: u32, result: ResultType },
    /// A call of the function that binds a query to an index.
    BindQuery(Vec<Expression>),
    Operator { name: String, arguments: Vec<Expression>, result: ResultType },
    /// Anything else, over other expressions.
    Other { arguments: Vec<Expression>, result: ResultType },
}

impl Expression {
    /// The type of the expression.
    pub open spec fn result(self) -> ResultType {
        match self {
            Expression::TextConstant(_) => ResultType::Text,
            Expression::BoundConstant(_) => ResultType::IndexedQuery,
            Expression::OidConstant(_) => ResultType::Oid,
            Expression::OtherConstant => ResultType::Other,
            Expression::Variable { varno: _, level: _, result } => result,
            Expression::BindQuery(_) => ResultType::IndexedQuery,
            Expression::Operator { name: _, arguments: _, result } => result,
            Expression::Other { arguments: _, result } => result,
        }
    }

    /// The type of the expression.
    pub fn result_type(&self) -> (result: ResultType)
        ensures
            result == self.result(),
    {
        match self {
            Expression::TextConstant(_) => ResultType::Text,
            Expression::BoundConstant(_) => ResultType::IndexedQuery,
            Expression::OidConstant(_) => ResultType::Oid,
            Expression::OtherConstant => ResultType::Other,
            Expression::Variable { varno: _, level: _, result } => *result,
            Expression::BindQuery(_) => ResultType::IndexedQuery,
            Expression::Operator { name: _, arguments: _, result } => *result,
            Expression::Other { arguments: _, result } => *result,
        }
    }
}

/// The query of a clause: a bound constant yields its text.
#[derive(Debug)]
pub enum ClauseQuery<'a> {
    Text(&'a String),
    Expression(&'a Expression),
}

/// A `==>` clause in either form.
#[derive(Debug)]
pub struct SearchClause<'a> {
    pub document: &'a Expression,
    /// The query as a text expression.
    pub query: ClauseQuery<'a>,
    /// The index the clause was bound to at plan time.
    pub index: Option<u32>,
}

/// The query and the index of a bound operand: a constant that is not NULL,
/// or a binding of any query.
pub open spec fn unbound_of(operand: &Expression) -> Option<(ClauseQuery<'_>, Option<u32>)> {
    match operand {
        Expression::BoundConstant(Some(bound)) => Some(
            (ClauseQuery::Text(&bound.query), Some(bound.index)),
        ),
        Expression::BindQuery(arguments) => if arguments.len() == 2 {
            Some(
                (
                    ClauseQuery::Expression(&arguments[0]),
                    match arguments[1] {
                        Expression::OidConstant(Some(index)) => Some(index),
                        _ => None,
                    },
                ),
            )
        } else {
            None
        },
        _ => None,
    }
}

/// The clause that an expression is, if it is one.
pub open spec fn clause_of(node: &Expression) -> Option<SearchClause<'_>> {
    match node {
        Expression::Operator { name, arguments, result: _ } => if name@ != "==>"@ || arguments.len()
            != 2 {
            None
        } else if arguments[1].result() == ResultType::Text {
            Some(
                SearchClause {
                    document: &arguments[0],
                    query: ClauseQuery::Expression(&arguments[1]),
                    index: None,
                },
            )
        } else if arguments[1].result() == ResultType::IndexedQuery {
            match unbound_of(&arguments[1]) {
                Some((query, index)) => Some(
                    SearchClause { document: &arguments[0], query, index },
                ),
                None => None,
            }
        } else {
            None
        },
        _ => None,
    }
}

fn unbind(operand: &Expression) -> (unbound: Option<(ClauseQuery<'_>, Option<u32>)>)
    ensures
        unbound == unbound_of(operand),
{
    match operand {
        Expression::BoundConstant(Some(bound)) => Some(
            (ClauseQuery::Text(&bound.query), Some(bound.index)),
        ),
        Expression::BindQuery(arguments) => {
            if arguments.len() != 2 {
                return None;
            }
            let index: Option<u32> = match &arguments[1] {
                Expression::OidConstant(Some(index)) => Some(*index),
                _ => None,
            };
            Some((ClauseQuery::Expression(&arguments[0]), index))
        },
        _ => None,
    }
}

/// Recognizes `document ==> query` with a text or bound right operand.
pub fn search_clause(node: &Expression) -> (clause: Option<SearchClause<'_>>)
    ensures
        clause == clause_of(node),
{
    match node {
        Expression::Operator { name, arguments, result: _ } => {
            if !same(name.as_str(), "==>") || arguments.len() != 2 {
                return None;
            }
            let right = &arguments[1];
            match right.result_type() {
                ResultType::Text => Some(
                    SearchClause {
                        document: &arguments[0],
                        query: ClauseQuery::Expression(right),
                        index: None,
                    },
                ),
                ResultType::IndexedQuery => match unbind(right) {
                    Some((query, index)) => Some(
                        SearchClause { document: &arguments[0], query, index },
                    ),
                    None => None,
                },
                _ => None,
            }
        },
        _ => None,
    }
}

/// The text of a constant query operand, in either form.
pub fn query_text(node: &Expression) -> (text: Option<String>)
    ensures
        text == (match *node {
            Expression::TextConstant(Some(text)) => Some(text),
            Expression::BoundConstant(Some(bound)) => Some(bound.query),
            _ => None,
        }),
{
    match node {
        Expression::TextConstant(Some(text)) => Some(text.clone()),
        Expression::BoundConstant(Some(bound)) => Some(bound.query.clone()),
        _ => None,
    }
}

/// The index a query operand is bound to, when known at plan time.
pub fn bound_index(node: &Expression) -> (index: Option<u32>)
    ensures
        index == (if node.result() == ResultType::IndexedQuery {
            match unbound_of(node) {
                Some((_, index)) => index,
                None => None,
            }
        } else {
            None
        }),
{
    match node.result_type() {
        ResultType::IndexedQuery => match unbind(node) {
            Some((_, index)) => index,
            None => None,
        },
        _ => None,
    }
}

/// What is known of the variables of an expression: the position they are all
/// of, unless they are of several or of an outer query.
#[derive(Clone, Copy, Debug, PartialEq, Eq, Structural)]
pub enum Variables {
    Nothing,
    Of(i32),
    Mixed,
}

/// What two parts of an expression together refer to.
pub open spec fn both(a: Variables, b: Variables) -> Variables {
    match (a, b) {
        (Variables::Nothing, _) => b,
        (_, Variables::Nothing) => a,
        (Variables::Of(x), Variables::Of(y)) => if x == y {
            a
        } else {
            Variables::Mixed
        },
        _ => Variables::Mixed,
    }
}

/// What the variables of an expression refer to.
pub open spec fn variables_of(node: Expression) -> Variables
    decreases node, 0int,
{
    match node {
        Expression::Variable { varno, level, result: _ } => if level != 0 {
            Variables::Mixed
        } else {
            Variables::Of(varno)
        },
        Expression::BindQuery(arguments) => variables_upto(arguments@, arguments.len() as int),
        Expression::Operator { name: _, arguments, result: _ } => variables_upto(
            arguments@,
            arguments.len() as int,
        ),
        Expression::Other { arguments, result: _ } => variables_upto(
            arguments@,
            arguments.len() as int,
        ),
        _ => Variables::Nothing,
    }
}

/// [`variables_of`] the first `upto` of several expressions.
pub open spec fn variables_upto(nodes: Seq<Expression>, upto: int) -> Variables
    decreases nodes, upto,
{
    if upto <= 0 || upto > nodes.len() {
        Variables::Nothing
    } else {
        both(variables_upto(nodes, upto - 1), variables_of(nodes[upto - 1]))
    }
}

fn collect_varno(node: &Expression) -> (found: Variables)
    ensures
        found == variables_of(*node),
    decreases node, 1int,
{
    match node {
        Expression::Variable { varno, level, result: _ } => if *level != 0 {
            Variables::Mixed
        } else {
            Variables::Of(*varno)
        },
        Expression::BindQuery(arguments) => collect_all(arguments),
        Expression::Operator { name: _, arguments, result: _ } => collect_all(arguments),
        Expression::Other { arguments, result: _ } => collect_all(arguments),
        _ => Variables::Nothing,
    }
}

fn collect_all(nodes: &Vec<Expression>) -> (found: Variables)
    ensures
        found == variables_upto(nodes@, nodes.len() as int),
    decreases nodes, 0int,
{
    let mut found = Variables::Nothing;
    let mut i: usize = 0;
    while i < nodes.len()
        invariant
            i <= nodes.len(),
            found == variables_upto(nodes@, i as int),
        decreases nodes.len() - i,
    {
        let more = collect_varno(&nodes[i]);
        found = match (found, more) {
            (Variables::Nothing, _) => more,
            (_, Variables::Nothing) => found,
            (Variables::Of(x), Variables::Of(y)) => if x == y {
                found
            } else {
                Variables::Mixed
            },
            _ => Variables::Mixed,
        };
        i = i + 1;
    }
    found
}

/// The one range-table position an expression's variables refer to.
pub fn single_varno(node: &Expression) -> (varno: Option<i32>)
    ensures
        varno == (match variables_of(*node) {
            Variables::Of(varno) => Some(varno),
            _ => None,
        }),
{
    match collect_varno(node) {
        Variables::Of(varno) => Some(varno),
        _ => None,
    }
}

/// The expression is a clause in the text form.
pub open spec fn is_unbound(node: Expression) -> bool {
    clause_of(&node) is Some && (node matches Expression::Operator { name: _, arguments, result: _ }
        && arguments[1].result() == ResultType::Text)
}

/// How many clauses in the text form an expression holds.
pub open spec fn unbound_count(node: Expression) -> nat
    decreases node, 0int,
{
    (if is_unbound(node) {
        1nat
    } else {
        0nat
    }) + match node {
        Expression::BindQuery(arguments) => unbound_count_upto(arguments@, arguments.len() as int),
        Expression::Operator { name: _, arguments, result: _ } => unbound_count_upto(
            arguments@,
            arguments.len() as int,
        ),
        Expression::Other { arguments, result: _ } => unbound_count_upto(
            arguments@,
            arguments.len() as int,
        ),
        _ => 0nat,
    }
}

/// [`unbound_count`] of the first `upto` of several expressions.
pub open spec fn unbound_count_upto(nodes: Seq<Expression>, upto: int) -> nat
    decreases nodes, upto,
{
    if upto <= 0 || upto > nodes.len() {
        0
    } else {
        unbound_count_upto(nodes, upto - 1) + unbound_count(nodes[upto - 1])
    }
}

/// Whether an expression holds a clause in the text form.
pub fn has_unbound_clause(node: &Expression) -> (has: bool)
    ensures
        has == (unbound_count(*node) > 0),
    decreases node, 1int,
{
    if search_clause(node).is_some() {
        if let Expression::Operator { name: _, arguments, result: _ } = node {
            if let ResultType::Text = arguments[1].result_type() {
                return true;
            }
        }
    }
    match node {
        Expression::BindQuery(arguments) => any_unbound(arguments),
        Expression::Operator { name: _, arguments, result: _ } => any_unbound(arguments),
        Expression::Other { arguments, result: _ } => any_unbound(arguments),
        _ => false,
    }
}

fn any_unbound(nodes: &Vec<Expression>) -> (has: bool)
    ensures
        has == (unbound_count_upto(nodes@, nodes.len() as int) > 0),
    decreases nodes, 0int,
{
    let mut i: usize = 0;
    while i < nodes.len()
        invariant
            i <= nodes.len(),
            unbound_count_upto(nodes@, i as int) == 0,
        decreases nodes.len() - i,
    {
        if has_unbound_clause(&nodes[i]) {
            proof {
                lemma_unbound_grows(nodes@, i + 1);
            }
            return true;
        }
        i = i + 1;
    }
    false
}

proof fn lemma_unbound_grows(nodes: Seq<Expression>, upto: int)
    requires
        0 <= upto <= nodes.len(),
    ensures
        unbound_count_upto(nodes, upto) <= unbound_count_upto(nodes, nodes.len() as int),
    decreases nodes.len() - upto,
{
    if upto < nodes.len() {
        lemma_unbound_grows(nodes, upto + 1);
    }
}

/// The warning for an index whose predicate holds a `==>` clause and whose
/// settings are not the defaults: a predicate is evaluated with the defaults,
/// and a clause bound to the index cannot prove it.
pub fn warn_about_search_predicate(predicate: &Expression, default_settings: bool, name: &str) -> (
warning: Option<String>)
    ensures
        match warning {
            Some(text) => unbound_count(*predicate) > 0 && !default_settings && text@
                == "==> in the predicate of index \""@ + name@
                + "\" uses the default tokenizer settings, not the index's: the index holds the rows the defaults match, and a query bound to the index cannot prove its predicate"@,
            None => unbound_count(*predicate) == 0 || default_settings,
        },
{
    if !has_unbound_clause(predicate) || default_settings {
        return None;
    }
    let mut text = String::from_str("==> in the predicate of index \"");
    text.append(name);
    text.append(
        "\" uses the default tokenizer settings, not the index's: the index holds the rows the defaults match, and a query bound to the index cannot prove its predicate",
    );
    Some(text)
}

/// The range-table entry that a document's variables refer to.
#[derive(Clone, Copy, Debug, PartialEq, Eq, Structural)]
pub enum RelationKind {
    /// A table, a partitioned table or a materialized view.
    Indexable,
    Other,
}

/// The first candidate, from the `i`-th on, whose predicate holds.
pub open spec fn first_holding(candidates: Seq<Candidate>, holds: Seq<bool>, i: int) -> Option<
    Candidate,
>
    decreases candidates.len() - i,
{
    if i < 0 || i >= candidates.len() {
        None
    } else if holds[i] {
        Some(candidates[i])
    } else {
        first_holding(candidates, holds, i + 1)
    }
}

/// The index a document expression binds to: the first covering index by OID
/// whose predicate holds. `holds` says of which candidates it does.
pub fn bind_to_index(
    document: &Expression,
    relations: &Vec<RelationKind>,
    candidates: &Vec<Candidate>,
    holds: &Vec<bool>,
) -> (index: Option<Candidate>)
    requires
        holds.len() == candidates.len(),
    ensures
        index == (match variables_of(*document) {
            Variables::Of(varno) => if 1 <= varno <= relations.len() && relations[varno - 1]
                == RelationKind::Indexable {
                first_holding(candidates@, holds@, 0)
            } else {
                None
            },
            _ => None,
        }),
        bound_to(*document, relations@, candidates@, holds@, index),
{
    proof {
        lemma_bound_to(*document, relations@, candidates@, holds@);
    }
    let varno: i32 = match single_varno(document) {
        Some(varno) => varno,
        None => {
            return None;
        },
    };
    if varno < 1 || varno as usize > relations.len() {
        return None;
    }
    match relations[varno as usize - 1] {
        RelationKind::Indexable => {},
        RelationKind::Other => {
            return None;
        },
    }
    let mut i: usize = 0;
    while i < candidates.len()
        invariant
            i <= candidates.len(),
            holds.len() == candidates.len(),
            variables_of(*document) == Variables::Of(varno),
            1 <= varno <= relations.len(),
            relations[varno - 1] == RelationKind::Indexable,
            first_holding(candidates@, holds@, 0) == first_holding(candidates@, holds@, i as int),
            bound_to(
                *document,
                relations@,
                candidates@,
                holds@,
                first_holding(candidates@, holds@, 0),
            ),
        decreases candidates.len() - i,
    {
        if holds[i] {
            return Some(candidates[i]);
        }
        i = i + 1;
    }
    None
}

/// The right operand of the bound form.
#[derive(Debug)]
pub enum BoundOperand {
    /// A bound constant.
    Constant(indexed_query),
    /// A call that binds the query when it runs.
    Call,
}

/// The operand that binds a query to an index: a bound constant for a constant
/// query, a call for anything else. A constant that is NULL or no text is not
/// bound.
pub open spec fn operand_of(query: Expression, index: u32) -> Option<BoundOperand> {
    match query {
        Expression::TextConstant(Some(text)) => Some(
            BoundOperand::Constant(indexed_query { index, query: text }),
        ),
        Expression::TextConstant(None)
        | Expression::BoundConstant(_)
        | Expression::OidConstant(_)
        | Expression::OtherConstant => None,
        _ => Some(BoundOperand::Call),
    }
}

/// The right operand that binds a query to an index.
pub fn bound_operand(query: &Expression, index: u32) -> (operand: Option<BoundOperand>)
    ensures
        operand == operand_of(*query, index),
{
    match query {
        Expression::TextConstant(Some(text)) => Some(
            BoundOperand::Constant(indexed_query { index, query: text.clone() }),
        ),
        Expression::TextConstant(None)
        | Expression::BoundConstant(_)
        | Expression::OidConstant(_)
        | Expression::OtherConstant => None,
        _ => Some(BoundOperand::Call),
    }
}

/// A `==>` clause of the query bound at plan time, with a constant query. Its
/// document is known by number.
#[derive(Debug)]
pub struct BoundClause {
    pub document: usize,
    pub query: String,
    pub index: u32,
    /// The index has the default settings.
    pub default_settings: bool,
}

/// The first clause, from the `i`-th on, on the same document and query.
pub open spec fn binding_from(bindings: Seq<BoundClause>, document: usize, query: Seq<char>, i: int) -> Option<
    BoundClause,
>
    decreases bindings.len() - i,
{
    if i < 0 || i >= bindings.len() {
        None
    } else if bindings[i].query@ == query && bindings[i].document == document {
        Some(bindings[i])
    } else {
        binding_from(bindings, document, query, i + 1)
    }
}

/// The index to bind a clause of an index predicate to, so that it proves the
/// predicate: that of the query's first clause on the same document and
/// query, when it has the default settings. A clause bound to other settings
/// is a different predicate.
pub fn predicate_binding(bindings: &Vec<BoundClause>, document: usize, query: &str) -> (index: Option<
    u32,
>)
    ensures
        index == (match binding_from(bindings@, document, query@, 0) {
            Some(binding) => if binding.default_settings {
                Some(binding.index)
            } else {
                None
            },
            None => None,
        }),
        bound_alike(bindings@, document, query@, index),
{
    proof {
        lemma_bound_alike(bindings@, document, query@);
    }
    let mut i: usize = 0;
    while i < bindings.len()
        invariant
            i <= bindings.len(),
            bound_alike(
                bindings@,
                document,
                query@,
                (match binding_from(bindings@, document, query@, 0) {
                    Some(binding) => if binding.default_settings {
                        Some(binding.index)
                    } else {
                        None
                    },
                    None => None,
                }),
            ),
            binding_from(bindings@, document, query@, 0) == binding_from(
                bindings@,
                document,
                query@,
                i as int,
            ),
        decreases bindings.len() - i,
    {
        let binding = &bindings[i];
        if binding.document == document && same(binding.query.as_str(), query) {
            return if binding.default_settings {
                Some(binding.index)
            } else {
                None
            };
        }
        i = i + 1;
    }
    None
}

/// A mark that is set while clauses are simplified from within, so that the
/// nested pass leaves them alone.
#[derive(Clone, Copy, Debug, PartialEq, Eq, Structural)]
pub struct Reentry {
    pub inside: bool,
}

impl Reentry {
    /// Sets the mark.
    pub fn enter(&mut self)
        ensures
            final(self).inside,
    {
        self.inside = true;
    }

    /// Takes the mark off.
    pub fn leave(&mut self)
        ensures
            !final(self).inside,
    {
        self.inside = false;
    }
}

/// Whether the planner's support function looks at a clause: it has a query to
/// plan in, is not nested in itself, and has both operands.
pub fn supports(in_query: bool, reentry: Reentry, arguments: usize) -> (looks: bool)
    ensures
        looks == (in_query && !reentry.inside && arguments == 2),
{
    in_query && !reentry.inside && arguments == 2
}

} // verus!
