//! What a highlight call is bound to.

use crate::clause::{operand_of, variables_of, BoundOperand, Expression, ResultType, Variables};
use crate::highlight_udfs::{
    column_from, constant_of, constants_of, first_bound, ArgumentType, HighlightBinding,
    HighlightCall, HighlightFunction,
};
use crate::laws::clauses::{law_variables_are_found, refers_to};
use crate::query::FieldMeta;
use crate::score_call::any_of;
use vstd::prelude::*;

verus! {

/// A bound call takes the arguments of the unbound one, with the indexed query where
/// the query stood and nowhere else, and may name a field behind them.
pub proof fn law_the_query_becomes_an_indexed_query(function: HighlightFunction, field: bool)
    ensures
        0 <= function.query_place() < function.overload(field).len(),
        forall|i: int|
            0 <= i < function.overload(field).len() ==> (#[trigger] function.overload(field)[i]
                == ArgumentType::IndexedQuery <==> i == function.query_place()),
        function.overload(field)[0] == ArgumentType::Text,
        function.overload(true) == function.overload(false).push(ArgumentType::Text),
        function.query_place() == function.overload(false).len() - 1,
{
}

/// The texts that are known before a query runs.
pub proof fn law_constants_have_their_text(node: Expression)
    ensures
        constant_of(node) is Some <==> {
            ||| node matches Expression::TextConstant(Some(_))
            ||| node matches Expression::BoundConstant(Some(_))
        },
        forall|text: String| #[trigger]
            constant_of(Expression::TextConstant(Some(text))) == Some(text),
        node matches Expression::BoundConstant(Some(bound)) ==> constant_of(node) == Some(
            bound.query,
        ),
{
}

/// The index is that of the first clause that is bound, and without one the index
/// that a clause on the document would bind to.
pub open spec fn is_index(call: HighlightCall, index: u32) -> bool {
    ||| exists|x: int|
        #![trigger call.bound@[x]]
        0 <= x < call.bound@.len() && call.bound@[x] == Some(index) && forall|y: int|
            0 <= y < x ==> #[trigger] call.bound@[y] is None
    ||| call.binds_to == Some(index) && forall|y: int|
        0 <= y < call.bound@.len() ==> #[trigger] call.bound@[y] is None
}

proof fn lemma_first_bound(bound: Seq<Option<u32>>, i: int)
    requires
        0 <= i <= bound.len(),
    ensures
        match first_bound(bound, i) {
            Some(index) => exists|x: int|
                #![trigger bound[x]]
                i <= x < bound.len() && bound[x] == Some(index) && forall|y: int|
                    i <= y < x ==> #[trigger] bound[y] is None,
            None => forall|y: int| i <= y < bound.len() ==> #[trigger] bound[y] is None,
        },
    decreases bound.len() - i,
{
    if i < bound.len() {
        if bound[i] is Some {
            assert(bound[i] == first_bound(bound, i));
        } else {
            lemma_first_bound(bound, i + 1);
            if let Some(index) = first_bound(bound, i + 1) {
                let x = choose|x: int|
                    #![trigger bound[x]]
                    i + 1 <= x < bound.len() && bound[x] == Some(index) && forall|y: int|
                        i + 1 <= y < x ==> #[trigger] bound[y] is None;
                assert(bound[x] == Some(index));
            }
        }
    }
}

/// A highlight call with a query of its own is bound with that query; without one,
/// with the queries of the clauses on its document: all of them where their texts
/// are known, else the first.
pub open spec fn stands_for(call: HighlightCall, index: u32, operand: BoundOperand) -> bool {
    let count = call.clauses@.len();
    if call.query != Expression::TextConstant(None) {
        operand_of(call.query, index) == Some(operand)
    } else {
        &&& count > 0
        &&& count == 1 || (exists|i: int|
            0 <= i < count && constant_of(#[trigger] call.clauses@[i]) is None) ==> operand_of(
            call.clauses@[0],
            index,
        ) == Some(operand)
        &&& count > 1 && (forall|i: int|
            0 <= i < count ==> constant_of(#[trigger] call.clauses@[i]) is Some) ==> (
        operand matches BoundOperand::Constant(bound) && bound.index == index && bound.query@
            == any_of(constants_of(call.clauses@), count as int))
    }
}

/// A call that is bound calls a highlight function with a text for its query and a
/// document of one table.
pub open spec fn call_bound(call: HighlightCall, binding: Option<HighlightBinding>) -> bool {
    match binding {
        Some(bound) => {
            &&& call.function == Some(bound.function)
            &&& call.arguments >= bound.function.overload(false).len()
            &&& call.query.result() == ResultType::Text
            &&& exists|varno: i32| #[trigger] refers_to(call.document, Variables::Of(varno))
            &&& call.on_table
            &&& is_index(call, bound.index)
            &&& stands_for(call, bound.index, bound.operand)
        },
        None => {
            ||| call.function is None
            ||| call.arguments < call.function->0.overload(false).len()
            ||| call.query.result() != ResultType::Text
            ||| !call.on_table
            ||| refers_to(call.document, Variables::Nothing)
            ||| refers_to(call.document, Variables::Mixed)
            ||| call.binds_to is None && forall|y: int|
                0 <= y < call.bound@.len() ==> #[trigger] call.bound@[y] is None
            ||| forall|index: u32, operand: BoundOperand| #[trigger]
                is_index(call, index) ==> !#[trigger] stands_for(call, index, operand)
        },
    }
}

pub(crate) proof fn lemma_call_bound(call: HighlightCall, binding: Option<HighlightBinding>)
    ensures
        (match binding {
            None => !call.eligible() || call.index() is None || call.replaced_by(
                call.index()->0,
                None,
            ),
            Some(binding) => call.eligible() && Some(binding.function) == call.function && Some(
                binding.index,
            ) == call.index() && call.replaced_by(binding.index, Some(binding.operand)),
        }) ==> call_bound(call, binding),
{
    law_variables_are_found(call.document);
    lemma_first_bound(call.bound@, 0);
    if let Variables::Of(varno) = variables_of(call.document) {
        assert(refers_to(call.document, Variables::Of(varno)));
    }
    match binding {
        Some(bound) => {
            if let Some(index) = first_bound(call.bound@, 0) {
                let x = choose|x: int|
                    #![trigger call.bound@[x]]
                    0 <= x < call.bound@.len() && call.bound@[x] == Some(index) && forall|y: int|
                        0 <= y < x ==> #[trigger] call.bound@[y] is None;
                assert(call.bound@[x] == Some(index));
            }
        },
        None => {
            if call.eligible() && call.index() is Some && call.replaced_by(
                call.index()->0,
                None,
            ) {
                assert forall|index: u32, operand: BoundOperand| #[trigger]
                    is_index(call, index) implies !#[trigger] stands_for(
                    call,
                    index,
                    operand,
                ) by {
                    assert(Some(index) == call.index());
                }
            }
        },
    }
}

/// A column's field is named by its place among the key columns.
pub open spec fn column_named(
    keys: Seq<i16>,
    attribute: i16,
    fields: Option<FieldMeta>,
    name: Option<String>,
) -> bool {
    match name {
        Some(found) => attribute > 0 && fields is Some && exists|i: int|
            #![trigger keys[i]]
            0 <= i < keys.len() && keys[i] == attribute && i < fields->0.names@.len()
                && fields->0.names@[i] == found && forall|j: int|
                0 <= j < i ==> #[trigger] keys[j] != attribute,
        None => attribute <= 0 || fields is None || forall|i: int|
            0 <= i < keys.len() && #[trigger] keys[i] == attribute && (forall|j: int|
                0 <= j < i ==> #[trigger] keys[j] != attribute) ==> i >= fields->0.names@.len(),
    }
}

proof fn lemma_column_from(keys: Seq<i16>, attribute: i16, i: int)
    requires
        0 <= i <= keys.len(),
    ensures
        match column_from(keys, attribute, i) {
            Some(x) => i <= x < keys.len() && keys[x] == attribute && forall|j: int|
                i <= j < x ==> #[trigger] keys[j] != attribute,
            None => forall|j: int| i <= j < keys.len() ==> #[trigger] keys[j] != attribute,
        },
    decreases keys.len() - i,
{
    if i < keys.len() && keys[i] != attribute {
        lemma_column_from(keys, attribute, i + 1);
    }
}

pub(crate) proof fn lemma_column_named(keys: Seq<i16>, attribute: i16, fields: Option<FieldMeta>)
    ensures
        column_named(
            keys,
            attribute,
            fields,
            (match (column_from(keys, attribute, 0), fields) {
                (Some(i), Some(plan)) => if attribute > 0 && i < plan.names.len() {
                    Some(plan.names[i])
                } else {
                    None
                },
                _ => None,
            }),
        ),
{
    lemma_column_from(keys, attribute, 0);
}

} // verus!
