//! What is a search clause, what it is of, and what answers it.

use crate::am::{has_null, reading_from, Reading, ScanKey};
use crate::clause::{
    binding_from, clause_of, first_holding, is_unbound, operand_of, unbound_count,
    unbound_count_upto, variables_of, variables_upto, BoundClause, BoundOperand, ClauseQuery,
    Expression, ResultType, Variables,
};
use crate::operator::{answered, Engine, QueryMemo};
use crate::plan::Candidate;
use vstd::prelude::*;

verus! {

/// The expressions that an expression is made of.
pub open spec fn arguments_of(node: Expression) -> Seq<Expression> {
    match node {
        Expression::BindQuery(arguments) => arguments@,
        Expression::Operator { name: _, arguments, result: _ } => arguments@,
        Expression::Other { arguments, result: _ } => arguments@,
        _ => Seq::empty(),
    }
}

/// `part` is the expression or stands somewhere in it.
pub open spec fn within(node: Expression, part: Expression) -> bool
    decreases node,
{
    node == part || match node {
        Expression::BindQuery(arguments) => exists|i: int|
            0 <= i < arguments.len() && within(#[trigger] arguments@[i], part),
        Expression::Operator { name: _, arguments, result: _ } => exists|i: int|
            0 <= i < arguments.len() && within(#[trigger] arguments@[i], part),
        Expression::Other { arguments, result: _ } => exists|i: int|
            0 <= i < arguments.len() && within(#[trigger] arguments@[i], part),
        _ => false,
    }
}

proof fn lemma_within(node: Expression, part: Expression)
    ensures
        within(node, part) <==> node == part || exists|i: int|
            0 <= i < arguments_of(node).len() && within(#[trigger] arguments_of(node)[i], part),
{
    let nodes = arguments_of(node);
    match node {
        Expression::BindQuery(arguments) => lemma_within_list(node, arguments@, part),
        Expression::Operator { name: _, arguments, result: _ } => lemma_within_list(
            node,
            arguments@,
            part,
        ),
        Expression::Other { arguments, result: _ } => lemma_within_list(node, arguments@, part),
        _ => {
            assert(nodes.len() == 0);
        },
    }
}

proof fn lemma_within_list(node: Expression, nodes: Seq<Expression>, part: Expression)
    requires
        nodes == arguments_of(node),
        node is BindQuery || node is Operator || node is Other,
    ensures
        within(node, part) <==> node == part || exists|i: int|
            0 <= i < nodes.len() && within(#[trigger] nodes[i], part),
{
    if within(node, part) && node != part {
        let i = choose|i: int| 0 <= i < nodes.len() && within(#[trigger] nodes[i], part);
        assert(within(nodes[i], part));
    }
}

/// What an expression refers to.
pub open spec fn refers_to(node: Expression, found: Variables) -> bool {
    match found {
        Variables::Nothing => forall|part: Expression| #[trigger]
            within(node, part) ==> !(part is Variable),
        Variables::Of(varno) => {
            &&& exists|part: Expression| #[trigger] within(node, part) && part is Variable
            &&& forall|part: Expression| #[trigger]
                within(node, part) && part is Variable ==> part->varno == varno && part->level == 0
        },
        Variables::Mixed => exists|a: Expression, b: Expression| #[trigger]
            within(node, a) && #[trigger] within(node, b) && a is Variable && b is Variable && (
            a->level != 0 || a->varno != b->varno),
    }
}

proof fn lemma_up(node: Expression, child: Expression, i: int)
    requires
        0 <= i < arguments_of(node).len(),
        arguments_of(node)[i] == child,
    ensures
        forall|part: Expression| #[trigger] within(child, part) ==> within(node, part),
{
    assert forall|part: Expression| #[trigger] within(child, part) implies within(node, part) by {
        lemma_within(node, part);
        assert(within(arguments_of(node)[i], part));
    }
}

/// What the first `upto` of an expression's parts refer to.
spec fn parts_refer_to(nodes: Seq<Expression>, upto: int, found: Variables) -> bool {
    match found {
        Variables::Nothing => forall|i: int, part: Expression|
            0 <= i < upto && #[trigger] within(nodes[i], part) ==> !(part is Variable),
        Variables::Of(varno) => {
            &&& exists|i: int, part: Expression|
                0 <= i < upto && #[trigger] within(nodes[i], part) && part is Variable
            &&& forall|i: int, part: Expression|
                0 <= i < upto && #[trigger] within(nodes[i], part) && part is Variable
                    ==> part->varno == varno && part->level == 0
        },
        Variables::Mixed => exists|i: int, j: int, a: Expression, b: Expression|
            0 <= i < upto && 0 <= j < upto && #[trigger] within(nodes[i], a) && #[trigger] within(
                nodes[j],
                b,
            ) && a is Variable && b is Variable && (a->level != 0 || a->varno != b->varno),
    }
}

proof fn lemma_parts(nodes: Seq<Expression>, upto: int)
    requires
        0 <= upto <= nodes.len(),
    ensures
        parts_refer_to(nodes, upto, variables_upto(nodes, upto)),
    decreases nodes, upto,
{
    if upto > 0 {
        lemma_parts(nodes, upto - 1);
        let last = nodes[upto - 1];
        law_variables_are_found(last);
        let before = variables_upto(nodes, upto - 1);
        let here = variables_of(last);
        let n = upto - 1;
        match (before, here) {
            (Variables::Nothing, Variables::Of(_)) => {
                let part = choose|part: Expression| #[trigger]
                    within(last, part) && part is Variable;
                assert(within(nodes[n], part));
            },
            (Variables::Nothing, Variables::Mixed) | (Variables::Of(_), Variables::Mixed) => {
                let (a, b) = choose|a: Expression, b: Expression| #[trigger]
                    within(last, a) && #[trigger] within(last, b) && a is Variable && b is Variable
                        && (a->level != 0 || a->varno != b->varno);
                assert(within(nodes[n], a) && within(nodes[n], b));
            },
            (Variables::Of(x), Variables::Of(y)) => {
                let b = choose|part: Expression| #[trigger] within(last, part) && part is Variable;
                assert(within(nodes[n], b));
                let (i, a) = choose|i: int, part: Expression|
                    0 <= i < n && #[trigger] within(nodes[i], part) && part is Variable;
                assert(within(nodes[i], a));
                assert(a->varno == x && b->varno == y);
            },
            (Variables::Mixed, _) => {
                let (i, j, a, b) = choose|i: int, j: int, a: Expression, b: Expression|
                    0 <= i < n && 0 <= j < n && #[trigger] within(nodes[i], a) && #[trigger] within(
                        nodes[j],
                        b,
                    ) && a is Variable && b is Variable && (a->level != 0 || a->varno != b->varno);
                assert(within(nodes[i], a) && within(nodes[j], b));
            },
            (Variables::Of(_), Variables::Nothing) => {
                let (i, a) = choose|i: int, part: Expression|
                    0 <= i < n && #[trigger] within(nodes[i], part) && part is Variable;
                assert(within(nodes[i], a));
            },
            _ => {},
        }
    }
}

/// An expression is of one table if it has a variable and all its variables are of
/// that table and of the query itself, not of an outer one. It is of several if
/// two of them differ or one is of an outer query, and of none if it has none.
pub proof fn law_variables_are_found(node: Expression)
    ensures
        refers_to(node, variables_of(node)),
    decreases node, 0int,
{
    let nodes = arguments_of(node);
    assert forall|part: Expression| #[trigger] within(node, part) <==> node == part || exists|
        i: int,
    | 0 <= i < nodes.len() && within(#[trigger] nodes[i], part) by {
        lemma_within(node, part);
    }
    match node {
        Expression::Variable { varno, level, result: _ } => {
            assert(within(node, node));
            assert(forall|part: Expression| #[trigger] within(node, part) ==> part == node);
        },
        Expression::BindQuery(arguments) => {
            lemma_parts(arguments@, arguments.len() as int);
            lemma_lifted(node, variables_of(node));
        },
        Expression::Operator { name: _, arguments, result: _ } => {
            lemma_parts(arguments@, arguments.len() as int);
            lemma_lifted(node, variables_of(node));
        },
        Expression::Other { arguments, result: _ } => {
            lemma_parts(arguments@, arguments.len() as int);
            lemma_lifted(node, variables_of(node));
        },
        _ => {
            assert(forall|part: Expression| #[trigger] within(node, part) ==> part == node);
        },
    }
}

proof fn lemma_lifted(node: Expression, found: Variables)
    requires
        !(node is Variable),
        parts_refer_to(arguments_of(node), arguments_of(node).len() as int, found),
    ensures
        refers_to(node, found),
{
    let nodes = arguments_of(node);
    assert forall|part: Expression| #[trigger] within(node, part) && part is Variable implies exists|
        i: int,
    | 0 <= i < nodes.len() && within(#[trigger] nodes[i], part) by {
        lemma_within(node, part);
    }
    match found {
        Variables::Nothing => {
            assert forall|part: Expression| #[trigger] within(node, part) implies !(
            part is Variable) by {
                if part is Variable {
                    let i = choose|i: int| 0 <= i < nodes.len() && within(#[trigger] nodes[i], part);
                    assert(within(nodes[i], part));
                }
            }
        },
        Variables::Of(varno) => {
            let (i, part) = choose|i: int, part: Expression|
                0 <= i < nodes.len() && #[trigger] within(nodes[i], part) && part is Variable;
            lemma_up(node, nodes[i], i);
            assert(within(node, part));
            assert forall|part: Expression| #[trigger]
                within(node, part) && part is Variable implies part->varno == varno && part->level
                == 0 by {
                let i = choose|i: int| 0 <= i < nodes.len() && within(#[trigger] nodes[i], part);
                assert(within(nodes[i], part));
            }
        },
        Variables::Mixed => {
            let (i, j, a, b) = choose|i: int, j: int, a: Expression, b: Expression|
                0 <= i < nodes.len() && 0 <= j < nodes.len() && #[trigger] within(nodes[i], a)
                    && #[trigger] within(nodes[j], b) && a is Variable && b is Variable && (
                a->level != 0 || a->varno != b->varno);
            lemma_up(node, nodes[i], i);
            lemma_up(node, nodes[j], j);
            assert(within(node, a) && within(node, b));
        },
    }
}

/// A search clause that is not bound to an index: the operator `==>` between a
/// document and a text.
pub open spec fn is_text_search(node: Expression) -> bool {
    node matches Expression::Operator { name, arguments, result: _ } && name@ == "==>"@
        && arguments@.len() == 2 && match arguments@[1] {
        Expression::TextConstant(_) => true,
        Expression::Variable { varno: _, level: _, result } => result == ResultType::Text,
        Expression::Operator { name: _, arguments: _, result } => result == ResultType::Text,
        Expression::Other { arguments: _, result } => result == ResultType::Text,
        _ => false,
    }
}

proof fn lemma_unbound_upto(nodes: Seq<Expression>, upto: int)
    requires
        0 <= upto <= nodes.len(),
    ensures
        unbound_count_upto(nodes, upto) > 0 <==> exists|i: int, part: Expression|
            0 <= i < upto && #[trigger] within(nodes[i], part) && is_text_search(part),
    decreases nodes, upto,
{
    if upto > 0 {
        lemma_unbound_upto(nodes, upto - 1);
        let last = nodes[upto - 1];
        law_unbound_clauses_are_found(last);
        if unbound_count(last) > 0 {
            let part = choose|part: Expression| #[trigger]
                within(last, part) && is_text_search(part);
            assert(within(nodes[upto - 1], part));
        }
        if unbound_count_upto(nodes, upto - 1) > 0 {
            let (i, part) = choose|i: int, part: Expression|
                0 <= i < upto - 1 && #[trigger] within(nodes[i], part) && is_text_search(part);
            assert(within(nodes[i], part));
        }
        if exists|i: int, part: Expression|
            0 <= i < upto && #[trigger] within(nodes[i], part) && is_text_search(part) {
            let (i, part) = choose|i: int, part: Expression|
                0 <= i < upto && #[trigger] within(nodes[i], part) && is_text_search(part);
            if i == upto - 1 {
                assert(within(last, part));
            } else {
                assert(within(nodes[i], part));
            }
        }
    }
}

/// A search clause that is not bound is found wherever it stands in an
/// expression, and nothing else is taken for one.
pub proof fn law_unbound_clauses_are_found(node: Expression)
    ensures
        is_unbound(node) <==> is_text_search(node),
        unbound_count(node) > 0 <==> exists|part: Expression| #[trigger]
            within(node, part) && is_text_search(part),
    decreases node, 0int,
{
    let nodes = arguments_of(node);
    assert(within(node, node));
    match node {
        Expression::BindQuery(arguments) => lemma_unbound_upto(
            arguments@,
            arguments.len() as int,
        ),
        Expression::Operator { name: _, arguments, result: _ } => lemma_unbound_upto(
            arguments@,
            arguments.len() as int,
        ),
        Expression::Other { arguments, result: _ } => lemma_unbound_upto(
            arguments@,
            arguments.len() as int,
        ),
        _ => {},
    }
    if exists|i: int, part: Expression|
        0 <= i < nodes.len() && #[trigger] within(nodes[i], part) && is_text_search(part) {
        let (i, part) = choose|i: int, part: Expression|
            0 <= i < nodes.len() && #[trigger] within(nodes[i], part) && is_text_search(part);
        lemma_up(node, nodes[i], i);
        assert(within(node, part));
    }
    if exists|part: Expression| #[trigger] within(node, part) && is_text_search(part) {
        let part = choose|part: Expression| #[trigger] within(node, part) && is_text_search(part);
        lemma_within(node, part);
        if part != node {
            let i = choose|i: int| 0 <= i < nodes.len() && within(#[trigger] nodes[i], part);
            assert(within(nodes[i], part));
        }
    }
}

/// A clause keeps its document, its query and the index that it is bound to, and
/// no operator but `==>` with two operands makes one.
pub proof fn law_clauses_keep_their_operands(node: Expression)
    ensures
        clause_of(&node) matches Some(clause) ==> {
            &&& node is Operator
            &&& node->Operator_name@ == "==>"@
            &&& node->Operator_arguments@.len() == 2
            &&& *clause.document == node->Operator_arguments@[0]
            &&& match node->Operator_arguments@[1] {
                Expression::BoundConstant(Some(bound)) => clause.index == Some(bound.index)
                    && clause.query == ClauseQuery::Text(&bound.query),
                Expression::BindQuery(parts) => parts@.len() == 2 && clause.query
                    == ClauseQuery::Expression(&parts@[0]) && clause.index == (match parts@[1] {
                    Expression::OidConstant(Some(index)) => Some(index),
                    _ => None,
                }),
                text => clause.index is None && clause.query == ClauseQuery::Expression(&text),
            }
        },
        is_text_search(node) ==> clause_of(&node) is Some,
        node matches Expression::Operator { name, arguments, result: _ } && name@ == "==>"@
            && arguments@.len() == 2 && (arguments@[1] matches Expression::BoundConstant(
            Some(_),
        )) ==> clause_of(&node) is Some,
{
}

/// The first covering index whose predicate holds is bound to.
pub proof fn law_the_first_holding_index_is_bound(
    candidates: Seq<Candidate>,
    holds: Seq<bool>,
    i: int,
    x: int,
)
    requires
        candidates.len() == holds.len(),
        0 <= i <= x <= candidates.len(),
        forall|y: int| i <= y < x ==> !#[trigger] holds[y],
        x < candidates.len() ==> holds[x],
    ensures
        first_holding(candidates, holds, i) == (if x < candidates.len() {
            Some(candidates[x])
        } else {
            None
        }),
    decreases x - i,
{
    if i < x {
        assert(!holds[i]);
        law_the_first_holding_index_is_bound(candidates, holds, i + 1, x);
    }
}

/// A clause of an index's predicate is bound as the query's clause of the same
/// document and the same text is.
pub proof fn law_predicates_are_bound_like_clauses(
    bindings: Seq<BoundClause>,
    document: usize,
    query: Seq<char>,
    i: int,
    x: int,
)
    requires
        0 <= i <= x <= bindings.len(),
        forall|y: int|
            i <= y < x ==> (#[trigger] bindings[y]).document != document || bindings[y].query@
                != query,
        x < bindings.len() ==> bindings[x].document == document && bindings[x].query@ == query,
    ensures
        binding_from(bindings, document, query, i) == (if x < bindings.len() {
            Some(bindings[x])
        } else {
            None
        }),
    decreases x - i,
{
    if i < x {
        law_predicates_are_bound_like_clauses(bindings, document, query, i + 1, x);
    }
}

/// A query that is a constant text is bound as a constant of the same text and
/// the given index. What is bound already, or is no text, is left alone.
pub proof fn law_constants_are_bound_as_constants(query: Expression, index: u32)
    ensures
        match operand_of(query, index) {
            Some(BoundOperand::Constant(bound)) => bound.index == index && query
                == Expression::TextConstant(Some(bound.query)),
            Some(BoundOperand::Call) => query is Variable || query is BindQuery || query is Operator
                || query is Other,
            None => query == Expression::TextConstant(None) || query is BoundConstant
                || query is OidConstant || query is OtherConstant,
        },
{
}

/// The key can be answered from the index: nothing else is said of it, it is not
/// bound to other settings, and its text is a query.
pub open spec fn readable(key: ScanKey, own: Option<u64>) -> bool {
    &&& !key.other_flags
    &&& own is Some && key.bound is Some ==> own == key.bound
    &&& key.parsed is Ok
}

/// The keys of a scan are read in order, and the first that cannot be answered
/// decides: a text that is no query is an error, anything else makes every page a
/// candidate. A scan whose keys can all be answered asks for all of them.
pub proof fn law_the_first_unreadable_key_decides(
    keys: Seq<ScanKey>,
    own: Option<u64>,
    i: int,
    x: int,
)
    requires
        0 <= i <= x <= keys.len(),
        forall|y: int| i <= y < x ==> readable(#[trigger] keys[y], own),
        x < keys.len() ==> !readable(keys[x], own),
    ensures
        match reading_from(keys, own, i) {
            Reading::Queries => x == keys.len(),
            Reading::Invalid(message) => x < keys.len() && keys[x].parsed == Err::<
                crate::query::Query,
                String,
            >(message) && !keys[x].other_flags && !(own is Some && keys[x].bound is Some && own
                != keys[x].bound),
            Reading::Fallback => x < keys.len() && (keys[x].other_flags || (own is Some
                && keys[x].bound is Some && own != keys[x].bound)),
        },
    decreases x - i,
{
    if i < x {
        assert(readable(keys[i], own));
        law_the_first_unreadable_key_decides(keys, own, i + 1, x);
    }
}

/// A NULL among the keys, wherever it stands, matches nothing.
pub proof fn law_a_null_key_is_seen(keys: Seq<ScanKey>, i: int)
    requires
        0 <= i < keys.len(),
        keys[i].null,
    ensures
        has_null(keys),
{
}

/// Keeping parsed queries changes no answer: what a search says of a document is
/// what the query of its text says of it, however that query was come by, and a
/// text that is no query is an error.
pub proof fn law_kept_queries_change_no_answer<Q, P, E>(
    engine: Engine<P, E>,
    before: QueryMemo<Q>,
    after: QueryMemo<Q>,
    spec: Seq<u8>,
    query: &str,
    document: &str,
    matched: Result<bool, String>,
) where P: Fn(&str) -> Result<Q, String>, E: Fn(&Q, &str) -> Result<bool, String>
    requires
        before.coherent(spec, engine),
        engine.evaluated(before, after, spec, query, document, matched),
    ensures
        (exists|parsed: Q, text: &str|
            text@ == query@ && #[trigger] call_ensures(engine.parse, (text,), Ok(parsed))
                && #[trigger] call_ensures(engine.evaluate, (&parsed, document), matched)) || (
        matched matches Err(message) && call_ensures(engine.parse, (query,), Err(message))),
{
    match before.at(spec, query@) {
        Some(parsed) => {
            assert(engine.parses(query@, parsed));
            let text = choose|s: &str|
                s@ == query@ && #[trigger] call_ensures(engine.parse, (s,), Ok(parsed));
            assert(call_ensures(engine.parse, (text,), Ok(parsed)));
            assert(call_ensures(engine.evaluate, (&parsed, document), matched));
        },
        None => {
            let parsed = choose|parsed: Result<Q, String>| #[trigger]
                call_ensures(engine.parse, (query,), parsed) && match parsed {
                    Ok(found) => after.keeps(before, spec, query@, found) && call_ensures(
                        engine.evaluate,
                        (&found, document),
                        matched,
                    ),
                    Err(message) => after == before && matched == Err::<bool, String>(message),
                };
            if let Ok(found) = parsed {
                assert(call_ensures(engine.parse, (query,), Ok(found)));
                assert(call_ensures(engine.evaluate, (&found, document), matched));
            }
        },
    }
}

/// What a search answers is what was found of the document, and an error says
/// that it is one of the query.
pub proof fn law_answers_are_what_was_found(
    matched: Result<bool, String>,
    answer: Result<bool, String>,
)
    requires
        answered(matched, answer),
    ensures
        matched is Ok ==> answer == matched,
        matched matches Err(error) ==> (answer matches Err(message) && message@.len()
            > error@.len() && message@.subrange(
            message@.len() - error@.len() as int,
            message@.len() as int,
        ) == error@),
{
    if let Err(error) = matched {
        if let Err(message) = answer {
            reveal_strlit("invalid ==> query: ");
            assert(message@.subrange(
                message@.len() - error@.len() as int,
                message@.len() as int,
            ) =~= error@);
        }
    }
}

} // verus!
