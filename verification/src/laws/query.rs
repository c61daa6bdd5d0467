//! What a query says of a document, and what its shape must keep of that.

use crate::query::{
    flat_shape, foreign_field, foreign_from, leaves_from, scoped_query, unboosted, unresolved_field,
    unresolved_from, FieldError, FieldMeta, Query,
};
use crate::source::Combine;
use vstd::prelude::*;

verus! {

/// The query holds of a document that has these terms. What terms alone do not
/// tell, such as their order, is told by `other`.
pub open spec fn holds(
    query: Query,
    terms: Set<Seq<char>>,
    other: spec_fn(Query) -> bool,
) -> bool
    decreases query, 0int,
{
    match query {
        Query::Term(text) => terms.contains(text@),
        Query::And(left, right) => holds(*left, terms, other) && holds(*right, terms, other),
        Query::Or(left, right) => holds(*left, terms, other) || holds(*right, terms, other),
        Query::Conjunction(children) => holding(children@, children.len() as int, terms, other)
            == children.len(),
        Query::Disjunction { min, children } => holding(
            children@,
            children.len() as int,
            terms,
            other,
        ) >= min,
        Query::AtLeast { min, children } => holding(children@, children.len() as int, terms, other)
            >= min,
        Query::Not(inner) => !holds(*inner, terms, other),
        Query::MatchAll => true,
        Query::Boost { factor: _, inner } => holds(*inner, terms, other),
        _ => other(query),
    }
}

/// How many of the first `upto` queries hold.
pub open spec fn holding(
    children: Seq<Query>,
    upto: int,
    terms: Set<Seq<char>>,
    other: spec_fn(Query) -> bool,
) -> nat
    decreases children, upto,
{
    if upto <= 0 || upto > children.len() {
        0
    } else {
        holding(children, upto - 1, terms, other) + if holds(children[upto - 1], terms, other) {
            1nat
        } else {
            0nat
        }
    }
}

/// A document with these terms has all of the leaves, or one of them.
pub open spec fn has(combine: Combine, leaves: Seq<Seq<char>>, terms: Set<Seq<char>>) -> bool {
    match combine {
        Combine::All => forall|t: Seq<char>| #[trigger] leaves.contains(t) ==> terms.contains(t),
        Combine::Any => exists|t: Seq<char>| #[trigger] leaves.contains(t) && terms.contains(t),
    }
}

/// A term, under any number of boosts.
pub open spec fn is_leaf(query: Query) -> bool
    decreases query,
{
    match query {
        Query::Term(_) => true,
        Query::Boost { factor: _, inner } => is_leaf(*inner),
        _ => false,
    }
}

/// All of the queries are terms, under any number of boosts.
pub open spec fn all_leaves(children: Seq<Query>) -> bool {
    forall|i: int| 0 <= i < children.len() ==> is_leaf(#[trigger] children[i])
}

/// A term, or terms that must all be there, or of which one must.
pub open spec fn is_flat(query: Query) -> bool
    decreases query,
{
    match query {
        Query::Term(_) => true,
        Query::And(left, right) => is_leaf(*left) && is_leaf(*right),
        Query::Or(left, right) => is_leaf(*left) && is_leaf(*right),
        Query::Conjunction(children) => all_leaves(children@),
        Query::Disjunction { min, children } => min == 1 && all_leaves(children@),
        Query::Boost { factor: _, inner } => is_flat(*inner),
        _ => false,
    }
}

proof fn lemma_unboosted(query: Query, terms: Set<Seq<char>>, other: spec_fn(Query) -> bool)
    ensures
        holds(query, terms, other) == holds(unboosted(query), terms, other),
        is_leaf(query) <==> unboosted(query) is Term,
        is_flat(query) == is_flat(unboosted(query)),
        !(unboosted(query) is Boost),
    decreases query,
{
    if let Query::Boost { factor: _, inner } = query {
        lemma_unboosted(*inner, terms, other);
    }
}

proof fn lemma_leaves(
    children: Seq<Query>,
    i: int,
    terms: Set<Seq<char>>,
    other: spec_fn(Query) -> bool,
)
    requires
        0 <= i <= children.len(),
    ensures
        leaves_from(children, i) is Some <==> forall|j: int|
            i <= j < children.len() ==> is_leaf(#[trigger] children[j]),
        leaves_from(children, i) matches Some(leaves) ==> {
            &&& leaves.len() == children.len() - i
            &&& forall|j: int|
                0 <= j < leaves.len() ==> (terms.contains(#[trigger] leaves[j]) <==> holds(
                    children[i + j],
                    terms,
                    other,
                ))
        },
    decreases children.len() - i,
{
    if i < children.len() {
        lemma_leaves(children, i + 1, terms, other);
        lemma_unboosted(children[i], terms, other);
        if let Some(rest) = leaves_from(children, i + 1) {
            if let Query::Term(text) = unboosted(children[i]) {
                let leaves = seq![text@] + rest;
                assert(leaves_from(children, i) == Some(leaves));
                assert forall|j: int| 0 <= j < leaves.len() implies (terms.contains(
                    #[trigger] leaves[j],
                ) <==> holds(children[i + j], terms, other)) by {
                    if j > 0 {
                        assert(leaves[j] == rest[j - 1]);
                    }
                }
            }
        }
    }
}

/// All of the queries hold, and one does, as their number says.
proof fn lemma_holding(
    children: Seq<Query>,
    upto: int,
    terms: Set<Seq<char>>,
    other: spec_fn(Query) -> bool,
)
    requires
        0 <= upto <= children.len(),
    ensures
        holding(children, upto, terms, other) <= upto,
        holding(children, upto, terms, other) == upto <==> forall|j: int|
            0 <= j < upto ==> holds(#[trigger] children[j], terms, other),
        holding(children, upto, terms, other) >= 1 <==> exists|j: int|
            0 <= j < upto && holds(#[trigger] children[j], terms, other),
    decreases upto,
{
    if upto > 0 {
        lemma_holding(children, upto - 1, terms, other);
        if holds(children[upto - 1], terms, other) {
            assert(holds(children[upto - 1], terms, other));
        }
    }
}

proof fn lemma_shape_of_children(
    children: Seq<Query>,
    leaves: Seq<Seq<char>>,
    terms: Set<Seq<char>>,
    other: spec_fn(Query) -> bool,
)
    requires
        leaves_from(children, 0) == Some(leaves),
    ensures
        holding(children, children.len() as int, terms, other) == children.len() <==> forall|
            t: Seq<char>,
        | #[trigger] leaves.contains(t) ==> terms.contains(t),
        holding(children, children.len() as int, terms, other) >= 1 <==> exists|t: Seq<char>|
            #[trigger] leaves.contains(t) && terms.contains(t),
{
    lemma_leaves(children, 0, terms, other);
    lemma_holding(children, children.len() as int, terms, other);
    if forall|t: Seq<char>| #[trigger] leaves.contains(t) ==> terms.contains(t) {
        assert forall|j: int| 0 <= j < children.len() implies holds(
            #[trigger] children[j],
            terms,
            other,
        ) by {
            assert(leaves.contains(leaves[j]));
            assert(holds(children[0 + j], terms, other));
        }
    }
    if forall|j: int| 0 <= j < children.len() ==> holds(#[trigger] children[j], terms, other) {
        assert forall|t: Seq<char>| #[trigger] leaves.contains(t) implies terms.contains(t) by {
            let j = choose|j: int| 0 <= j < leaves.len() && leaves[j] == t;
            assert(holds(children[j], terms, other));
            assert(terms.contains(leaves[j]));
        }
    }
    if exists|t: Seq<char>| #[trigger] leaves.contains(t) && terms.contains(t) {
        let t = choose|t: Seq<char>| #[trigger] leaves.contains(t) && terms.contains(t);
        let j = choose|j: int| 0 <= j < leaves.len() && leaves[j] == t;
        assert(terms.contains(leaves[j]));
        assert(holds(children[0 + j], terms, other));
        assert(holds(children[j], terms, other));
    }
    if exists|j: int| 0 <= j < children.len() && holds(#[trigger] children[j], terms, other) {
        let j = choose|j: int| 0 <= j < children.len() && holds(#[trigger] children[j], terms, other);
        assert(terms.contains(leaves[j]) <==> holds(children[0 + j], terms, other));
        assert(leaves.contains(leaves[j]));
    }
}

/// The shape of a query says what the query says: where the leaves are to be
/// there all, the query holds of just the documents that have all of them, and
/// where any will do, of just those that have one.
pub proof fn law_shape_keeps_meaning(
    query: Query,
    terms: Set<Seq<char>>,
    other: spec_fn(Query) -> bool,
)
    ensures
        flat_shape(query) matches Some((combine, leaves)) ==> (holds(query, terms, other) <==> has(
            combine,
            leaves,
            terms,
        )),
{
    lemma_unboosted(query, terms, other);
    let core = unboosted(query);
    match core {
        Query::Term(text) => {
            let leaves = seq![text@];
            assert(leaves[0] == text@);
            assert(leaves.contains(text@));
            assert forall|t: Seq<char>| #[trigger] leaves.contains(t) implies t == text@ by {
                let i = choose|i: int| 0 <= i < leaves.len() && leaves[i] == t;
            }
            assert(has(Combine::Any, leaves, terms) <==> terms.contains(text@));
            assert(flat_shape(query) == Some((Combine::Any, leaves)));
            assert(holds(core, terms, other) == terms.contains(text@));
        },
        Query::And(left, right) | Query::Or(left, right) => {
            let pair = seq![*left, *right];
            if let Some(leaves) = leaves_from(pair, 0) {
                lemma_shape_of_children(pair, leaves, terms, other);
                assert(pair[0] == *left && pair[1] == *right && pair.len() == 2);
                assert(holding(pair, 0, terms, other) == 0);
                assert(holding(pair, 1, terms, other) == if holds(*left, terms, other) {
                    1nat
                } else {
                    0nat
                });
                assert(holding(pair, 2, terms, other) == holding(pair, 1, terms, other)
                    + if holds(*right, terms, other) {
                    1nat
                } else {
                    0nat
                });
                if core is And {
                    assert(flat_shape(query) == Some((Combine::All, leaves)));
                    assert(holds(core, terms, other) <==> holding(pair, 2, terms, other) == 2);
                } else {
                    assert(flat_shape(query) == Some((Combine::Any, leaves)));
                    assert(holds(core, terms, other) <==> holding(pair, 2, terms, other) >= 1);
                }
            } else {
                assert(flat_shape(query) is None);
            }
        },
        Query::Conjunction(children) => {
            if let Some(leaves) = leaves_from(children@, 0) {
                lemma_shape_of_children(children@, leaves, terms, other);
                assert(flat_shape(query) == Some((Combine::All, leaves)));
            }
        },
        Query::Disjunction { min, children } => {
            if let Some(leaves) = leaves_from(children@, 0) {
                lemma_shape_of_children(children@, leaves, terms, other);
                assert(flat_shape(query) is Some ==> flat_shape(query) == Some(
                    (Combine::Any, leaves),
                ) && min == 1);
            }
        },
        _ => {},
    }
}

/// Just the flat queries have a shape: a term, and terms joined by AND, by OR or
/// in a list of which all, or one, must be there, boosts aside.
pub proof fn law_flat_queries_have_a_shape(query: Query)
    ensures
        flat_shape(query) is Some <==> is_flat(query),
{
    let terms = Set::<Seq<char>>::empty();
    let other = |query: Query| false;
    lemma_unboosted(query, terms, other);
    match unboosted(query) {
        Query::And(left, right) | Query::Or(left, right) => {
            let pair = seq![*left, *right];
            lemma_leaves(pair, 0, terms, other);
            assert(pair[0] == *left && pair[1] == *right && pair.len() == 2);
        },
        Query::Conjunction(children) => lemma_leaves(children@, 0, terms, other),
        Query::Disjunction { min: _, children } => lemma_leaves(children@, 0, terms, other),
        _ => {},
    }
}

/// The query has a group that is scoped to a field called `name`, under whatever
/// it stands.
pub open spec fn scopes_to(query: Query, name: Seq<char>) -> bool
    decreases query,
{
    match query {
        Query::Field { name: own, inner } => own@ == name || scopes_to(*inner, name),
        Query::And(left, right) => scopes_to(*left, name) || scopes_to(*right, name),
        Query::Or(left, right) => scopes_to(*left, name) || scopes_to(*right, name),
        Query::Conjunction(children) => exists|i: int|
            0 <= i < children.len() && scopes_to(#[trigger] children@[i], name),
        Query::Disjunction { min: _, children } => exists|i: int|
            0 <= i < children.len() && scopes_to(#[trigger] children@[i], name),
        Query::AtLeast { min: _, children } => exists|i: int|
            0 <= i < children.len() && scopes_to(#[trigger] children@[i], name),
        Query::Not(inner) => scopes_to(*inner, name),
        Query::Boost { factor: _, inner } => scopes_to(*inner, name),
        _ => false,
    }
}

/// The index has a field called `name`.
pub open spec fn has_field(fields: Option<FieldMeta>, name: Seq<char>) -> bool {
    match fields {
        Some(plan) => exists|f: int|
            0 <= f < plan.names@.len() && (#[trigger] plan.names@[f])@ == name,
        None => false,
    }
}

/// What an error of a query's fields is told of.
pub open spec fn blames(
    query: Query,
    fields: Option<FieldMeta>,
    error: Option<FieldError>,
) -> bool {
    match error {
        None => forall|name: Seq<char>| #[trigger]
            scopes_to(query, name) ==> has_field(fields, name),
        Some(FieldError::NoFields) => fields is None && exists|name: Seq<char>| #[trigger]
            scopes_to(query, name),
        Some(FieldError::Unknown(name)) => fields is Some && scopes_to(query, name@) && !has_field(
            fields,
            name@,
        ),
        _ => false,
    }
}

proof fn lemma_known(plan: FieldMeta, name: Seq<char>)
    ensures
        crate::text::texts(plan.names@).contains(name) <==> has_field(Some(plan), name),
{
    let all = crate::text::texts(plan.names@);
    assert(all.len() == plan.names@.len());
    if all.contains(name) {
        let f = choose|f: int| 0 <= f < all.len() && all[f] == name;
        assert(0 <= f < plan.names@.len() && plan.names@[f]@ == name);
        assert(exists|f: int| 0 <= f < plan.names@.len() && (#[trigger] plan.names@[f])@ == name);
        let fields = Some(plan);
        assert(fields->0 == plan);
        assert(has_field(fields, name));
    }
    if has_field(Some(plan), name) {
        let f = choose|f: int| 0 <= f < plan.names.len() && (#[trigger] plan.names@[f])@ == name;
        assert(all[f] == name);
        assert(all.contains(name));
    }
}

/// The query is a list of these queries.
spec fn lists(query: Query, children: Seq<Query>) -> bool {
    match query {
        Query::Conjunction(own) => own@ == children,
        Query::Disjunction { min: _, children: own } => own@ == children,
        Query::AtLeast { min: _, children: own } => own@ == children,
        _ => false,
    }
}

proof fn lemma_listed_scopes(query: Query, children: Seq<Query>, name: Seq<char>)
    requires
        lists(query, children),
    ensures
        scopes_to(query, name) <==> exists|i: int|
            0 <= i < children.len() && scopes_to(#[trigger] children[i], name),
{
}

proof fn lemma_unresolved_from(query: Query, children: Seq<Query>, i: int, fields: Option<FieldMeta>)
    requires
        lists(query, children),
        0 <= i <= children.len(),
        forall|j: int, name: Seq<char>|
            0 <= j < i && #[trigger] scopes_to(children[j], name) ==> has_field(fields, name),
    ensures
        blames(query, fields, unresolved_from(children, i, fields)),
    decreases children, children.len() - i,
{
    if i < children.len() {
        let child = children[i];
        law_unknown_fields_are_refused(child, fields);
        assert forall|name: Seq<char>| #[trigger] scopes_to(child, name) implies scopes_to(
            query,
            name,
        ) by {
            lemma_listed_scopes(query, children, name);
            assert(scopes_to(children[i], name));
        }
        if unresolved_field(child, fields) is None {
            assert forall|j: int, name: Seq<char>|
                0 <= j < i + 1 && #[trigger] scopes_to(children[j], name) implies has_field(
                fields,
                name,
            ) by {
                if j == i {
                    assert(scopes_to(child, name));
                }
            }
            lemma_unresolved_from(query, children, i + 1, fields);
        } else if unresolved_field(child, fields) == Some(FieldError::NoFields) {
            let name = choose|name: Seq<char>| #[trigger] scopes_to(child, name);
            assert(scopes_to(query, name));
        }
    } else {
        assert forall|name: Seq<char>| #[trigger] scopes_to(query, name) implies has_field(
            fields,
            name,
        ) by {
            lemma_listed_scopes(query, children, name);
            let j = choose|j: int|
                0 <= j < children.len() && scopes_to(#[trigger] children[j], name);
            assert(scopes_to(children[j], name));
        }
    }
}

/// A query passes if each field that it names is a field of the index. Else it
/// is refused for a name that it has and the index has not, or because the index
/// has no fields at all.
pub proof fn law_unknown_fields_are_refused(query: Query, fields: Option<FieldMeta>)
    ensures
        blames(query, fields, unresolved_field(query, fields)),
    decreases query, 0int,
{
    match query {
        Query::Field { name, inner } => {
            law_unknown_fields_are_refused(*inner, fields);
            assert(scopes_to(query, name@));
            assert(forall|other: Seq<char>|
                #![trigger scopes_to(*inner, other)]
                #![trigger scopes_to(query, other)]
                scopes_to(*inner, other) ==> scopes_to(query, other));
            if let Some(plan) = fields {
                lemma_known(plan, name@);
            }
            if unresolved_field(query, fields) is None {
                assert forall|other: Seq<char>| #[trigger] scopes_to(query, other) implies has_field(
                    fields,
                    other,
                ) by {
                    if other != name@ {
                        assert(scopes_to(*inner, other));
                    }
                }
                assert(unresolved_field(query, fields) == None::<FieldError>);
                assert(blames(query, fields, unresolved_field(query, fields)));
            } else {
                let error = unresolved_field(query, fields)->0;
                assert(blames(query, fields, Some(error)));
                assert(unresolved_field(query, fields) == Some(error));
                assert(blames(query, fields, unresolved_field(query, fields)));
            }
        },
        Query::And(left, right) | Query::Or(left, right) => {
            law_unknown_fields_are_refused(*left, fields);
            law_unknown_fields_are_refused(*right, fields);
            assert(forall|name: Seq<char>| #[trigger]
                scopes_to(query, name) <==> scopes_to(*left, name) || scopes_to(*right, name));
            assert(forall|name: Seq<char>| #[trigger]
                scopes_to(*left, name) ==> scopes_to(query, name));
            assert(forall|name: Seq<char>| #[trigger]
                scopes_to(*right, name) ==> scopes_to(query, name));
            assert(blames(query, fields, unresolved_field(query, fields)));
        },
        Query::Conjunction(children) => lemma_unresolved_from(query, children@, 0, fields),
        Query::Disjunction { min: _, children } => lemma_unresolved_from(
            query,
            children@,
            0,
            fields,
        ),
        Query::AtLeast { min: _, children } => lemma_unresolved_from(query, children@, 0, fields),
        Query::Not(inner) => {
            law_unknown_fields_are_refused(*inner, fields);
            assert(forall|name: Seq<char>|
                #![trigger scopes_to(*inner, name)]
                #![trigger scopes_to(query, name)]
                scopes_to(*inner, name) <==> scopes_to(query, name));
            assert(blames(query, fields, unresolved_field(query, fields)));
        },
        Query::Boost { factor: _, inner } => {
            law_unknown_fields_are_refused(*inner, fields);
            assert(forall|name: Seq<char>|
                #![trigger scopes_to(*inner, name)]
                #![trigger scopes_to(query, name)]
                scopes_to(*inner, name) <==> scopes_to(query, name));
            assert(blames(query, fields, unresolved_field(query, fields)));
        },
        _ => {},
    }
}

/// What a foreign field is told of.
pub open spec fn blames_foreign(query: Query, name: String, error: Option<FieldError>) -> bool {
    match error {
        None => forall|other: Seq<char>| #[trigger] scopes_to(query, other) ==> other == name@,
        Some(FieldError::Foreign(own, other)) => own == name && other@ != name@ && scopes_to(
            query,
            other@,
        ),
        _ => false,
    }
}

proof fn lemma_foreign_from(query: Query, children: Seq<Query>, i: int, name: String)
    requires
        lists(query, children),
        0 <= i <= children.len(),
        forall|j: int, other: Seq<char>|
            0 <= j < i && #[trigger] scopes_to(children[j], other) ==> other == name@,
    ensures
        blames_foreign(query, name, foreign_from(children, i, name)),
    decreases children, children.len() - i,
{
    if i < children.len() {
        let child = children[i];
        law_foreign_fields_are_refused(child, name);
        assert forall|other: Seq<char>| #[trigger] scopes_to(child, other) implies scopes_to(
            query,
            other,
        ) by {
            lemma_listed_scopes(query, children, other);
            assert(scopes_to(children[i], other));
        }
        if foreign_field(child, name) is None {
            assert forall|j: int, other: Seq<char>|
                0 <= j < i + 1 && #[trigger] scopes_to(children[j], other) implies other
                == name@ by {
                if j == i {
                    assert(scopes_to(child, other));
                }
            }
            lemma_foreign_from(query, children, i + 1, name);
        }
    } else {
        assert forall|other: Seq<char>| #[trigger] scopes_to(query, other) implies other
            == name@ by {
            lemma_listed_scopes(query, children, other);
            let j = choose|j: int|
                0 <= j < children.len() && scopes_to(#[trigger] children[j], other);
            assert(scopes_to(children[j], other));
        }
    }
}

/// A clause answers one column: a query passes if it names no field but that of
/// the column, and else is refused for one that it does name.
pub proof fn law_foreign_fields_are_refused(query: Query, name: String)
    ensures
        blames_foreign(query, name, foreign_field(query, name)),
    decreases query, 0int,
{
    match query {
        Query::Field { name: own, inner } => {
            law_foreign_fields_are_refused(*inner, name);
            assert(scopes_to(query, own@));
            if own@ != name@ {
                assert(foreign_field(query, name) == Some(FieldError::Foreign(name, own)));
                assert(blames_foreign(query, name, foreign_field(query, name)));
            } else {
                assert(foreign_field(query, name) == foreign_field(*inner, name));
            }
            assert(forall|other: Seq<char>|
                #![trigger scopes_to(*inner, other)]
                #![trigger scopes_to(query, other)]
                scopes_to(*inner, other) ==> scopes_to(query, other));
            if foreign_field(query, name) is None {
                assert forall|other: Seq<char>| #[trigger] scopes_to(query, other) implies other
                    == name@ by {
                    if other != own@ {
                        assert(scopes_to(*inner, other));
                    }
                }
                assert(foreign_field(query, name) == None::<FieldError>);
                assert(blames_foreign(query, name, foreign_field(query, name)));
            } else if own@ == name@ {
                let error = foreign_field(*inner, name)->0;
                assert(blames_foreign(*inner, name, Some(error)));
                assert(blames_foreign(query, name, Some(error)));
                assert(blames_foreign(query, name, foreign_field(query, name)));
            }
        },
        Query::And(left, right) | Query::Or(left, right) => {
            law_foreign_fields_are_refused(*left, name);
            law_foreign_fields_are_refused(*right, name);
            assert(forall|other: Seq<char>| #[trigger]
                scopes_to(*left, other) ==> scopes_to(query, other));
            assert(forall|other: Seq<char>| #[trigger]
                scopes_to(*right, other) ==> scopes_to(query, other));
            assert(forall|other: Seq<char>| #[trigger]
                scopes_to(query, other) ==> scopes_to(*left, other) || scopes_to(*right, other));
        },
        Query::Conjunction(children) => lemma_foreign_from(query, children@, 0, name),
        Query::Disjunction { min: _, children } => lemma_foreign_from(query, children@, 0, name),
        Query::AtLeast { min: _, children } => lemma_foreign_from(query, children@, 0, name),
        Query::Not(inner) => {
            law_foreign_fields_are_refused(*inner, name);
            assert(forall|other: Seq<char>|
                #![trigger scopes_to(*inner, other)]
                #![trigger scopes_to(query, other)]
                scopes_to(*inner, other) <==> scopes_to(query, other));
        },
        Query::Boost { factor: _, inner } => {
            law_foreign_fields_are_refused(*inner, name);
            assert(forall|other: Seq<char>|
                #![trigger scopes_to(*inner, other)]
                #![trigger scopes_to(query, other)]
                scopes_to(*inner, other) <==> scopes_to(query, other));
        },
        _ => {},
    }
}

/// A query of an index without fields is left as it is. Another is put whole into
/// the field of its column, the one at that place, and is refused just where the
/// column is no field or the query names a field besides it.
pub proof fn law_a_query_is_scoped_to_its_column(query: Query, fields: Option<FieldMeta>, field: u8)
    ensures
        match scoped_query(query, fields, field) {
            Ok(scoped) => match fields {
                None => scoped == query,
                Some(plan) => field < plan.names.len() && (scoped matches Query::Field {
                    name,
                    inner,
                } && name@ == plan.names@[field as int]@ && *inner == query) && forall|
                    other: Seq<char>,
                | #[trigger]
                    scopes_to(query, other) ==> other == plan.names@[field as int]@,
            },
            Err(FieldError::NotAField) => fields matches Some(plan) && field >= plan.names.len(),
            Err(FieldError::Foreign(own, other)) => fields matches Some(plan) && field
                < plan.names.len() && own@ == plan.names@[field as int]@ && other@ != own@
                && scopes_to(query, other@),
            Err(_) => false,
        },
{
    if let Some(plan) = fields {
        if field < plan.names.len() {
            law_foreign_fields_are_refused(query, plan.names[field as int]);
        }
    }
}

} // verus!
