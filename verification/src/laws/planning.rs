//! Which index answers a clause, and what a plan may do with it.

use crate::plan::{
    candidate_like, candidate_of, candidates_upto, key_position, match_from, ordering_from, picked,
    proven_from, Argument, Candidate, CountShape, DocumentOperand, IndexPredicate, IndexShape, Match,
    QueryOperand, QueryShape, Restriction, ScoreCall, SortExpression,
};
use vstd::prelude::*;

verus! {

proof fn lemma_candidate_of(candidates: Seq<Candidate>, index: u32, i: int, x: int)
    requires
        0 <= i <= x <= candidates.len(),
        forall|y: int| i <= y < x ==> (#[trigger] candidates[y]).index != index,
        x < candidates.len() ==> candidates[x].index == index,
    ensures
        candidate_of(candidates, index, i) == (if x < candidates.len() {
            Some(candidates[x])
        } else {
            None
        }),
    decreases x - i,
{
    if i < x {
        lemma_candidate_of(candidates, index, i + 1, x);
    }
}

proof fn lemma_candidate_like(candidates: Seq<Candidate>, spec: u64, i: int, x: int)
    requires
        0 <= i <= x <= candidates.len(),
        forall|y: int| i <= y < x ==> (#[trigger] candidates[y]).spec != spec,
        x < candidates.len() ==> candidates[x].spec == spec,
    ensures
        candidate_like(candidates, spec, i) == (if x < candidates.len() {
            Some(candidates[x])
        } else {
            None
        }),
    decreases x - i,
{
    if i < x {
        lemma_candidate_like(candidates, spec, i + 1, x);
    }
}

/// A clause that is bound to an index is answered by that index if it covers the
/// clause, else by the first that covers it with the same settings, and by no
/// other. One that is not bound is answered by the first that covers it.
pub proof fn law_the_bound_index_answers(
    candidates: Seq<Candidate>,
    index: u32,
    spec: u64,
    x: int,
)
    requires
        0 <= x <= candidates.len(),
    ensures
        // The bound index itself is at place `x`.
        x < candidates.len() && candidates[x].index == index && (forall|y: int|
            0 <= y < x ==> (#[trigger] candidates[y]).index != index) ==> picked(
            candidates,
            Some((index, spec)),
        ) == Some(candidates[x]),
        // It does not cover the clause, and the first with its settings is at `x`.
        (forall|y: int| 0 <= y < candidates.len() ==> (#[trigger] candidates[y]).index != index)
            && (forall|y: int| 0 <= y < x ==> (#[trigger] candidates[y]).spec != spec) && (x
            < candidates.len() ==> candidates[x].spec == spec) ==> picked(
            candidates,
            Some((index, spec)),
        ) == (if x < candidates.len() {
            Some(candidates[x])
        } else {
            None
        }),
        picked(candidates, None) == (if candidates.len() > 0 {
            Some(candidates[0])
        } else {
            None
        }),
{
    if x < candidates.len() && candidates[x].index == index && (forall|y: int|
        0 <= y < x ==> (#[trigger] candidates[y]).index != index) {
        lemma_candidate_of(candidates, index, 0, x);
    }
    if forall|y: int| 0 <= y < candidates.len() ==> (#[trigger] candidates[y]).index != index {
        lemma_candidate_of(candidates, index, 0, candidates.len() as int);
        if (forall|y: int| 0 <= y < x ==> (#[trigger] candidates[y]).spec != spec) && (x
            < candidates.len() ==> candidates[x].spec == spec) {
            lemma_candidate_like(candidates, spec, 0, x);
        }
    }
}

proof fn lemma_key_position(keys: Seq<i16>, attribute: i16, i: int)
    requires
        0 <= i <= keys.len(),
    ensures
        match key_position(keys, attribute, i) {
            Some(x) => i <= x < keys.len() && keys[x] == attribute && forall|y: int|
                i <= y < x ==> #[trigger] keys[y] != attribute,
            None => forall|y: int| i <= y < keys.len() ==> #[trigger] keys[y] != attribute,
        },
    decreases keys.len() - i,
{
    if i < keys.len() && keys[i] != attribute {
        lemma_key_position(keys, attribute, i + 1);
    }
}

/// The index covers the operand with this field: as the one expression that it
/// is on, or with the first key column that is the operand's column. The operand
/// is then a column of the scanned table itself.
pub open spec fn covers(index: IndexShape, operand: DocumentOperand, field: u8) -> bool {
    &&& index.suitable
    &&& if index.keys@.len() == 1 && index.keys@[0] <= 0 {
        index.expression_matches && field == 0
    } else {
        operand matches DocumentOperand::Variable { varno, level, attribute } && varno == 1 && level
            == 0 && attribute > 0 && field < index.keys@.len() && index.keys@[field as int]
            == attribute && forall|y: int|
            0 <= y < field ==> #[trigger] index.keys@[y] != attribute
    }
}

/// An index answers an operand just where it covers it, and with that field.
pub proof fn law_an_index_answers_what_it_covers(
    index: IndexShape,
    operand: DocumentOperand,
    field: u8,
)
    ensures
        index.field_of(operand) == Some(field) <==> covers(index, operand, field),
{
    if let DocumentOperand::Variable { varno: _, level: _, attribute } = operand {
        lemma_key_position(index.keys@, attribute, 0);
        if let Some(x) = key_position(index.keys@, attribute, 0) {
            if covers(index, operand, field) && !(index.keys@.len() == 1 && index.keys@[0] <= 0) {
                if x < field {
                    assert(index.keys@[x] != attribute);
                }
                if field < x {
                    assert(index.keys@[field as int] != attribute);
                }
            }
        }
    }
}

/// The indexes that cover an operand are all found, no others, and in order.
/// What comes out is, for each candidate, the place of its index.
pub proof fn law_covering_indexes_are_found(
    indexes: Seq<IndexShape>,
    operand: DocumentOperand,
    upto: int,
) -> (places: Seq<int>)
    requires
        0 <= upto <= indexes.len(),
    ensures
        places.len() == candidates_upto(indexes, operand, upto).len(),
        forall|c: int|
            0 <= c < places.len() ==> 0 <= #[trigger] places[c] < upto && covers(
                indexes[places[c]],
                operand,
                candidates_upto(indexes, operand, upto)[c].field,
            ) && candidates_upto(indexes, operand, upto)[c].index == indexes[places[c]].index
                && candidates_upto(indexes, operand, upto)[c].spec == indexes[places[c]].spec,
        forall|c: int, d: int| 0 <= c < d < places.len() ==> places[c] < places[d],
        forall|i: int, field: u8|
            0 <= i < upto && #[trigger] covers(indexes[i], operand, field) ==> places.contains(i),
    decreases upto,
{
    if upto == 0 {
        Seq::empty()
    } else {
        let before = law_covering_indexes_are_found(indexes, operand, upto - 1);
        let index = indexes[upto - 1];
        let all = candidates_upto(indexes, operand, upto);
        let fewer = candidates_upto(indexes, operand, upto - 1);
        match index.field_of(operand) {
            Some(field) => {
                law_an_index_answers_what_it_covers(index, operand, field);
                let places = before.push(upto - 1);
                assert forall|c: int| 0 <= c < places.len() implies 0 <= #[trigger] places[c] < upto
                    && covers(indexes[places[c]], operand, all[c].field) && all[c].index
                    == indexes[places[c]].index && all[c].spec == indexes[places[c]].spec by {
                    if c < before.len() {
                        assert(places[c] == before[c]);
                        assert(all[c] == fewer[c]);
                    }
                }
                assert forall|i: int, field: u8|
                    0 <= i < upto && #[trigger] covers(
                        indexes[i],
                        operand,
                        field,
                    ) implies places.contains(i) by {
                    if i < upto - 1 {
                        let c = choose|c: int| 0 <= c < before.len() && before[c] == i;
                        assert(places[c] == i);
                    } else {
                        assert(places[before.len() as int] == i);
                    }
                }
                places
            },
            None => {
                assert forall|i: int, field: u8|
                    0 <= i < upto && #[trigger] covers(
                        indexes[i],
                        operand,
                        field,
                    ) implies before.contains(i) by {
                    law_an_index_answers_what_it_covers(indexes[i], operand, field);
                }
                before
            },
        }
    }
}

/// A partial index is used only where the planner has proved its predicate. An
/// index that the planner does not list is not used.
pub proof fn law_partial_indexes_need_a_proof(
    predicates: Seq<IndexPredicate>,
    index: u32,
    x: int,
)
    requires
        0 <= x <= predicates.len(),
        forall|y: int| 0 <= y < x ==> (#[trigger] predicates[y]).index != index,
        x < predicates.len() ==> predicates[x].index == index,
    ensures
        proven_from(predicates, index, 0) <==> x < predicates.len() && (predicates[x].partial
            ==> predicates[x].implied),
{
    lemma_proven(predicates, index, 0, x);
}

proof fn lemma_proven(predicates: Seq<IndexPredicate>, index: u32, i: int, x: int)
    requires
        0 <= i <= x <= predicates.len(),
        forall|y: int| i <= y < x ==> (#[trigger] predicates[y]).index != index,
        x < predicates.len() ==> predicates[x].index == index,
    ensures
        proven_from(predicates, index, i) <==> x < predicates.len() && (predicates[x].partial
            ==> predicates[x].implied),
    decreases x - i,
{
    if i < x {
        lemma_proven(predicates, index, i + 1, x);
    }
}

/// An index can answer the restriction: it is a search for a constant, or for a
/// parameter where those are allowed, and there is an index for it.
pub open spec fn answerable(restriction: Restriction, allow_parameter: bool) -> bool {
    restriction matches Restriction::Search { query, bound, candidates } && (match query {
        QueryOperand::Constant(_) => true,
        QueryOperand::Parameter => allow_parameter,
        QueryOperand::Other => false,
    }) && picked(candidates@, bound) is Some
}

/// The first restriction that an index can answer is answered, by the index that
/// is picked for it.
pub proof fn law_the_first_answerable_restriction_is_answered(
    restrictions: Seq<Restriction>,
    allow_parameter: bool,
    x: int,
)
    requires
        restrictions.len() <= usize::MAX,
        0 <= x <= restrictions.len(),
        forall|y: int| 0 <= y < x ==> !answerable(#[trigger] restrictions[y], allow_parameter),
        x < restrictions.len() ==> answerable(restrictions[x], allow_parameter),
    ensures
        match match_from(restrictions, allow_parameter, 0) {
            Some(found) => x < restrictions.len() && found.place == x && (
            restrictions[x] matches Restriction::Search { query: _, bound, candidates } && Some(
                found.index,
            ) == picked(candidates@, bound)),
            None => x == restrictions.len(),
        },
{
    lemma_match(restrictions, allow_parameter, 0, x);
}

proof fn lemma_match(restrictions: Seq<Restriction>, allow_parameter: bool, i: int, x: int)
    requires
        0 <= i <= x <= restrictions.len(),
        forall|y: int| i <= y < x ==> !answerable(#[trigger] restrictions[y], allow_parameter),
        x < restrictions.len() ==> answerable(restrictions[x], allow_parameter),
    ensures
        match_from(restrictions, allow_parameter, i) == (if x < restrictions.len() {
            Some(
                Match {
                    place: x as usize,
                    index: restrictions[x].answered_by(allow_parameter)->0,
                },
            )
        } else {
            None
        }),
    decreases x - i,
{
    if i < x {
        assert(!answerable(restrictions[i], allow_parameter));
        lemma_match(restrictions, allow_parameter, i + 1, x);
    }
}

/// The score call gives the scan's order: it scores by the same query and index,
/// and everything that it scores by is known.
pub open spec fn gives_order(call: ScoreCall, index: u32) -> bool {
    &&& call.same_query
    &&& call.index matches Argument::Value(oid) && (oid == index || oid + 0x1_0000_0000 == index)
    &&& call.mode matches Argument::Value(_)
    &&& !(call.dense_ratio matches Argument::NotConstant)
    &&& !(call.k1 matches Argument::NotConstant)
    &&& !(call.b matches Argument::NotConstant)
    &&& !(call.term_add matches Argument::NotConstant)
    &&& !(call.term_replace matches Argument::NotConstant)
}

/// The member of the sort key is a score call that gives the scan's order.
pub open spec fn sorts_by_score(member: SortExpression, index: u32) -> bool {
    member matches SortExpression::ScoreCall(call) && gives_order(call, index)
}

/// The first score call that gives the scan's order is used, with its arguments.
pub proof fn law_the_order_is_of_a_score_call(
    members: Seq<SortExpression>,
    index: u32,
    top_k: Option<usize>,
    x: int,
)
    requires
        0 <= x <= members.len(),
        forall|y: int| 0 <= y < x ==> !sorts_by_score(#[trigger] members[y], index),
        x < members.len() ==> sorts_by_score(members[x], index),
    ensures
        match ordering_from(members, index, 0) {
            Some(call) => x < members.len() && members[x] == SortExpression::ScoreCall(call) && {
                let order = call.order(top_k);
                &&& order.top_k == top_k
                &&& order.full <==> (call.mode matches Argument::Value(mode) && mode == 1)
                &&& call.k1 matches Argument::Value(k1) ==> order.k1 == Some(k1)
                &&& call.b matches Argument::Value(b) ==> order.b == Some(b)
                &&& call.dense_ratio matches Argument::Value(ratio) ==> order.dense_ratio == Some(
                    ratio,
                )
                &&& call.term_add matches Argument::Value(terms) ==> order.term_add == Some(terms)
                &&& call.term_replace matches Argument::Value(terms) ==> order.term_replace == Some(
                    terms,
                )
                &&& call.k1 is Null ==> order.k1 is None
                &&& call.b is Null ==> order.b is None
                &&& call.dense_ratio is Null ==> order.dense_ratio is None
                &&& call.term_add is Null ==> order.term_add is None
                &&& call.term_replace is Null ==> order.term_replace is None
            },
            None => x == members.len(),
        },
{
    lemma_ordering(members, index, 0, x);
}

proof fn lemma_ordering(members: Seq<SortExpression>, index: u32, i: int, x: int)
    requires
        0 <= i <= x <= members.len(),
        forall|y: int| i <= y < x ==> !sorts_by_score(#[trigger] members[y], index),
        x < members.len() ==> sorts_by_score(members[x], index),
    ensures
        match ordering_from(members, index, i) {
            Some(call) => x < members.len() && members[x] == SortExpression::ScoreCall(call),
            None => x == members.len(),
        },
    decreases x - i,
{
    if i < x {
        assert(!sorts_by_score(members[i], index));
        lemma_ordering(members, index, i + 1, x);
    } else if x < members.len() {
        assert(sorts_by_score(members[x], index));
    }
}

/// A count is taken from the index only for one `count(*)` of the rows of one
/// table that one search selects. Whatever else would change the rows, group them
/// or leave some out rules it out.
pub proof fn law_only_plain_counts_are_counted(shape: CountShape)
    ensures
        shape.counts_all() ==> shape.star && shape.aggregates && shape.target_is_aggregate
            && shape.targets == 1 && shape.restrictions == 1 && shape.base_relation && shape.table
            && shape.enabled && shape.grouping_stage,
        shape.filter || shape.distinct || shape.order ==> !shape.counts_all(),
        shape.group_clause || shape.having || shape.grouping_sets ==> !shape.counts_all(),
        shape.window_functions || shape.distinct_on ==> !shape.counts_all(),
        shape == (CountShape {
            enabled: true,
            grouping_stage: true,
            aggregates: true,
            group_clause: false,
            having: false,
            window_functions: false,
            distinct_on: false,
            grouping_sets: false,
            targets: 1,
            target_is_aggregate: true,
            star: true,
            filter: false,
            distinct: false,
            order: false,
            base_relation: true,
            restrictions: 1,
            table: true,
        }) ==> shape.counts_all(),
{
}

/// LIMIT bounds a scan only in a plain SELECT from one table: nothing else may
/// stand between the scan's rows and those that the query returns.
pub proof fn law_only_plain_queries_bound_a_scan(shape: QueryShape)
    ensures
        shape.aggregates || shape.window_functions || shape.target_srfs ==> !shape.plain(),
        shape.group_clause || shape.grouping_sets || shape.distinct_clause ==> !shape.plain(),
        shape.having || shape.set_operations || !shape.from_is_relation ==> !shape.plain(),
        shape.from_items != Some(1usize) ==> !shape.plain(),
        shape == (QueryShape {
            aggregates: false,
            window_functions: false,
            target_srfs: false,
            group_clause: false,
            grouping_sets: false,
            distinct_clause: false,
            having: false,
            set_operations: false,
            from_items: Some(1),
            from_is_relation: true,
        }) ==> shape.plain(),
{
}

} // verus!
