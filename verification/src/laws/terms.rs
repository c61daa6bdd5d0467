//! Which parts of a query scores are made of.

use crate::query::{FieldError, FieldMeta, Query, SpanTermSlot};
use crate::terms::{
    score_expansions, score_expansions_upto, score_terms, score_terms_upto,
    scored_unknown, slot_expansions, slot_terms, Boosting, Expansion, ExpansionInput,
    ScoringTermInput, Standing,
};
use vstd::prelude::*;

verus! {

/// `part` stands in the query outside a NOT, and is scored there with the scope
/// and the boost `under`, where the query itself is with `at`: a boost
/// multiplies, and a field group scopes to the first field of its name.
pub open spec fn stands<T: Fn(u32, u32) -> u32>(
    query: Query,
    at: Standing,
    fields: FieldMeta,
    boosting: Boosting<T>,
    part: Query,
    under: Standing,
) -> bool
    decreases query,
{
    (query == part && at == under) || match query {
        Query::And(left, right) => stands(*left, at, fields, boosting, part, under) || stands(
            *right,
            at,
            fields,
            boosting,
            part,
            under,
        ),
        Query::Or(left, right) => stands(*left, at, fields, boosting, part, under) || stands(
            *right,
            at,
            fields,
            boosting,
            part,
            under,
        ),
        Query::Conjunction(children) => exists|i: int|
            0 <= i < children.len() && stands(
                #[trigger] children@[i],
                at,
                fields,
                boosting,
                part,
                under,
            ),
        Query::Disjunction { min: _, children } => exists|i: int|
            0 <= i < children.len() && stands(
                #[trigger] children@[i],
                at,
                fields,
                boosting,
                part,
                under,
            ),
        Query::AtLeast { min: _, children } => exists|i: int|
            0 <= i < children.len() && stands(
                #[trigger] children@[i],
                at,
                fields,
                boosting,
                part,
                under,
            ),
        Query::Boost { factor, inner } => stands(
            *inner,
            Standing {
                mask: at.mask,
                boost: boosting.product(at.boost, factor),
                explicitly_boosted: true,
            },
            fields,
            boosting,
            part,
            under,
        ),
        Query::Field { name, inner } => exists|f: int|
            #![trigger fields.names@[f]]
            0 <= f < fields.names.len() && fields.names@[f]@ == name@ && (forall|g: int|
                0 <= g < f ==> (#[trigger] fields.names@[g])@ != name@) && stands(
                *inner,
                Standing {
                    mask: 1u16 << (f as u16),
                    boost: at.boost,
                    explicitly_boosted: at.explicitly_boosted,
                },
                fields,
                boosting,
                part,
                under,
            ),
        _ => false,
    }
}

/// The part is the term, or a span with the term in it, scored with that scope
/// and boost.
pub open spec fn is_term(part: Query, under: Standing, term: ScoringTermInput) -> bool {
    &&& term.mask == under.mask
    &&& term.boost == under.boost
    &&& term.explicitly_boosted == under.explicitly_boosted
    &&& match part {
        Query::Term(text) => text == term.text,
        Query::Span { term_slots } => term_slots@.contains(SpanTermSlot::Term(term.text)),
        Query::SpanExpr { term_slots } => term_slots@.contains(SpanTermSlot::Term(term.text)),
        _ => false,
    }
}

/// The slot of a span that an expansion is written as.
pub open spec fn slot_of(expansion: Expansion) -> SpanTermSlot {
    match expansion {
        Expansion::Regex(pattern) => SpanTermSlot::Regex(pattern),
        Expansion::Range(lower, upper) => SpanTermSlot::Range { lower, upper },
        Expansion::Fuzzy { term, prefix, distance } => SpanTermSlot::Fuzzy {
            term,
            prefix,
            distance,
        },
    }
}

/// The part is the expansion, or a span with the expansion in it, scored with
/// that scope and boost.
pub open spec fn is_expansion(part: Query, under: Standing, input: ExpansionInput) -> bool {
    &&& input.mask == under.mask
    &&& input.boost == under.boost
    &&& input.explicitly_boosted == under.explicitly_boosted
    &&& match part {
        Query::Regex(pattern) => input.expansion == Expansion::Regex(pattern),
        Query::Range { lower, upper } => input.expansion == Expansion::Range(lower, upper),
        Query::Fuzzy { term, prefix, distance } => input.expansion == (Expansion::Fuzzy {
            term,
            prefix,
            distance,
        }),
        Query::Span { term_slots } => term_slots@.contains(slot_of(input.expansion)),
        Query::SpanExpr { term_slots } => term_slots@.contains(slot_of(input.expansion)),
        _ => false,
    }
}

/// Some part of the query outside a NOT is the term.
pub open spec fn mentions_term<T: Fn(u32, u32) -> u32>(
    query: Query,
    at: Standing,
    fields: FieldMeta,
    boosting: Boosting<T>,
    term: ScoringTermInput,
) -> bool {
    exists|part: Query, under: Standing|
        #![trigger stands(query, at, fields, boosting, part, under)]
        stands(query, at, fields, boosting, part, under) && is_term(part, under, term)
}

/// Some part of the query outside a NOT is the expansion.
pub open spec fn mentions_expansion<T: Fn(u32, u32) -> u32>(
    query: Query,
    at: Standing,
    fields: FieldMeta,
    boosting: Boosting<T>,
    input: ExpansionInput,
) -> bool {
    exists|part: Query, under: Standing|
        #![trigger stands(query, at, fields, boosting, part, under)]
        stands(query, at, fields, boosting, part, under) && is_expansion(part, under, input)
}

proof fn lemma_concat<X>(a: Seq<X>, b: Seq<X>, x: X)
    ensures
        (a + b).contains(x) <==> a.contains(x) || b.contains(x),
{
    let all = a + b;
    if a.contains(x) {
        let i = choose|i: int| 0 <= i < a.len() && a[i] == x;
        assert(all[i] == x);
    }
    if b.contains(x) {
        let i = choose|i: int| 0 <= i < b.len() && b[i] == x;
        assert(all[a.len() + i] == x);
    }
    if all.contains(x) {
        let i = choose|i: int| 0 <= i < all.len() && all[i] == x;
        if i < a.len() {
            assert(a[i] == x);
        } else {
            assert(b[i - a.len()] == x);
        }
    }
}

proof fn lemma_push<X>(a: Seq<X>, last: X, x: X)
    ensures
        a.push(last).contains(x) <==> a.contains(x) || x == last,
{
    lemma_concat(a, seq![last], x);
    assert(a.push(last) =~= a + seq![last]);
    assert(seq![last].contains(x) <==> x == last) by {
        assert(seq![last][0] == last);
    }
}

proof fn lemma_slots(slots: Seq<SpanTermSlot>, at: Standing)
    ensures
        forall|term: ScoringTermInput| #[trigger]
            slot_terms(slots, at).contains(term) <==> term.mask == at.mask && term.boost == at.boost
                && term.explicitly_boosted == at.explicitly_boosted && slots.contains(
                SpanTermSlot::Term(term.text),
            ),
        forall|input: ExpansionInput| #[trigger]
            slot_expansions(slots, at).contains(input) <==> input.mask == at.mask && input.boost
                == at.boost && input.explicitly_boosted == at.explicitly_boosted && slots.contains(
                slot_of(input.expansion),
            ),
    decreases slots.len(),
{
    if slots.len() > 0 {
        let rest = slots.drop_last();
        let last = slots.last();
        lemma_slots(rest, at);
        assert(slots =~= rest.push(last));
        assert forall|term: ScoringTermInput| #[trigger]
            slot_terms(slots, at).contains(term) <==> term.mask == at.mask && term.boost == at.boost
                && term.explicitly_boosted == at.explicitly_boosted && slots.contains(
                SpanTermSlot::Term(term.text),
            ) by {
            lemma_push(rest, last, SpanTermSlot::Term(term.text));
            assert(slot_terms(rest, at).contains(term) <==> term.mask == at.mask && term.boost
                == at.boost && term.explicitly_boosted == at.explicitly_boosted && rest.contains(
                SpanTermSlot::Term(term.text),
            ));
            if let SpanTermSlot::Term(text) = last {
                lemma_push(slot_terms(rest, at), at.term(text), term);
            }
        }
        assert forall|input: ExpansionInput| #[trigger]
            slot_expansions(slots, at).contains(input) <==> input.mask == at.mask && input.boost
                == at.boost && input.explicitly_boosted == at.explicitly_boosted && slots.contains(
                slot_of(input.expansion),
            ) by {
            lemma_push(rest, last, slot_of(input.expansion));
            assert(slot_expansions(rest, at).contains(input) <==> input.mask == at.mask
                && input.boost == at.boost && input.explicitly_boosted == at.explicitly_boosted
                && rest.contains(slot_of(input.expansion)));
            let before = slot_expansions(rest, at);
            match last {
                SpanTermSlot::Term(_) => {},
                SpanTermSlot::Regex(pattern) => lemma_push(
                    before,
                    at.expansion(Expansion::Regex(pattern)),
                    input,
                ),
                SpanTermSlot::Range { lower, upper } => lemma_push(
                    before,
                    at.expansion(Expansion::Range(lower, upper)),
                    input,
                ),
                SpanTermSlot::Fuzzy { term, prefix, distance } => lemma_push(
                    before,
                    at.expansion(Expansion::Fuzzy { term, prefix, distance }),
                    input,
                ),
            }
        }
    }
}

/// The field that a name is looked up as.
proof fn lemma_field(fields: FieldMeta, name: Seq<char>, from: int)
    requires
        0 <= from <= fields.names.len(),
    ensures
        match fields.field_from(name, from) {
            Some(f) => from <= f < fields.names.len() && fields.names@[f]@ == name && forall|g: int|
                from <= g < f ==> (#[trigger] fields.names@[g])@ != name,
            None => forall|g: int|
                from <= g < fields.names.len() ==> (#[trigger] fields.names@[g])@ != name,
        },
    decreases fields.names.len() - from,
{
    if from < fields.names.len() && fields.names[from]@ != name {
        lemma_field(fields, name, from + 1);
        assert(fields.names@[from]@ != name);
    }
}

/// What holds of the parts that a query is made of holds of it.
proof fn lemma_within<T: Fn(u32, u32) -> u32>(
    query: Query,
    at: Standing,
    fields: FieldMeta,
    boosting: Boosting<T>,
    term: ScoringTermInput,
    input: ExpansionInput,
)
    ensures
        match query {
            Query::And(left, right) | Query::Or(left, right) => {
                &&& mentions_term(query, at, fields, boosting, term) <==> mentions_term(
                    *left,
                    at,
                    fields,
                    boosting,
                    term,
                ) || mentions_term(*right, at, fields, boosting, term)
                &&& mentions_expansion(query, at, fields, boosting, input) <==> mentions_expansion(
                    *left,
                    at,
                    fields,
                    boosting,
                    input,
                ) || mentions_expansion(*right, at, fields, boosting, input)
            },
            Query::Boost { factor, inner } => {
                let inside = Standing {
                    mask: at.mask,
                    boost: boosting.product(at.boost, factor),
                    explicitly_boosted: true,
                };
                &&& mentions_term(query, at, fields, boosting, term) <==> mentions_term(
                    *inner,
                    inside,
                    fields,
                    boosting,
                    term,
                )
                &&& mentions_expansion(query, at, fields, boosting, input) <==> mentions_expansion(
                    *inner,
                    inside,
                    fields,
                    boosting,
                    input,
                )
            },
            _ => true,
        },
{
    match query {
        Query::And(left, right) | Query::Or(left, right) => {
            if mentions_term(query, at, fields, boosting, term) {
                let (part, under) = choose|part: Query, under: Standing|
                    #![trigger stands(query, at, fields, boosting, part, under)]
                    stands(query, at, fields, boosting, part, under) && is_term(part, under, term);
                assert(stands(*left, at, fields, boosting, part, under) || stands(
                    *right,
                    at,
                    fields,
                    boosting,
                    part,
                    under,
                ));
            }
            if mentions_expansion(query, at, fields, boosting, input) {
                let (part, under) = choose|part: Query, under: Standing|
                    #![trigger stands(query, at, fields, boosting, part, under)]
                    stands(query, at, fields, boosting, part, under) && is_expansion(
                        part,
                        under,
                        input,
                    );
                assert(stands(*left, at, fields, boosting, part, under) || stands(
                    *right,
                    at,
                    fields,
                    boosting,
                    part,
                    under,
                ));
            }
            lemma_up(*left, at, query, at, fields, boosting, term, input);
            lemma_up(*right, at, query, at, fields, boosting, term, input);
        },
        Query::Boost { factor, inner } => {
            let inside = Standing {
                mask: at.mask,
                boost: boosting.product(at.boost, factor),
                explicitly_boosted: true,
            };
            if mentions_term(query, at, fields, boosting, term) {
                let (part, under) = choose|part: Query, under: Standing|
                    #![trigger stands(query, at, fields, boosting, part, under)]
                    stands(query, at, fields, boosting, part, under) && is_term(part, under, term);
                assert(stands(*inner, inside, fields, boosting, part, under));
            }
            if mentions_expansion(query, at, fields, boosting, input) {
                let (part, under) = choose|part: Query, under: Standing|
                    #![trigger stands(query, at, fields, boosting, part, under)]
                    stands(query, at, fields, boosting, part, under) && is_expansion(
                        part,
                        under,
                        input,
                    );
                assert(stands(*inner, inside, fields, boosting, part, under));
            }
            lemma_up(*inner, inside, query, at, fields, boosting, term, input);
        },
        _ => {},
    }
}

/// What a part mentions, the query does.
proof fn lemma_up<T: Fn(u32, u32) -> u32>(
    inner: Query,
    inside: Standing,
    query: Query,
    at: Standing,
    fields: FieldMeta,
    boosting: Boosting<T>,
    term: ScoringTermInput,
    input: ExpansionInput,
)
    requires
        forall|part: Query, under: Standing|
            stands(inner, inside, fields, boosting, part, under) ==> #[trigger] stands(
                query,
                at,
                fields,
                boosting,
                part,
                under,
            ),
    ensures
        mentions_term(inner, inside, fields, boosting, term) ==> mentions_term(
            query,
            at,
            fields,
            boosting,
            term,
        ),
        mentions_expansion(inner, inside, fields, boosting, input) ==> mentions_expansion(
            query,
            at,
            fields,
            boosting,
            input,
        ),
{
    if mentions_term(inner, inside, fields, boosting, term) {
        let (part, under) = choose|part: Query, under: Standing|
            #![trigger stands(inner, inside, fields, boosting, part, under)]
            stands(inner, inside, fields, boosting, part, under) && is_term(part, under, term);
        assert(stands(query, at, fields, boosting, part, under));
    }
    if mentions_expansion(inner, inside, fields, boosting, input) {
        let (part, under) = choose|part: Query, under: Standing|
            #![trigger stands(inner, inside, fields, boosting, part, under)]
            stands(inner, inside, fields, boosting, part, under) && is_expansion(
                part,
                under,
                input,
            );
        assert(stands(query, at, fields, boosting, part, under));
    }
}

/// The queries of a list.
pub open spec fn listed(query: Query) -> Option<Seq<Query>> {
    match query {
        Query::Conjunction(children) => Some(children@),
        Query::Disjunction { min: _, children } => Some(children@),
        Query::AtLeast { min: _, children } => Some(children@),
        _ => None,
    }
}

proof fn lemma_listed<T: Fn(u32, u32) -> u32>(
    query: Query,
    at: Standing,
    fields: FieldMeta,
    boosting: Boosting<T>,
    term: ScoringTermInput,
    input: ExpansionInput,
)
    requires
        listed(query) is Some,
    ensures
        mentions_term(query, at, fields, boosting, term) <==> exists|i: int|
            0 <= i < listed(query)->0.len() && mentions_term(
                #[trigger] listed(query)->0[i],
                at,
                fields,
                boosting,
                term,
            ),
        mentions_expansion(query, at, fields, boosting, input) <==> exists|i: int|
            0 <= i < listed(query)->0.len() && mentions_expansion(
                #[trigger] listed(query)->0[i],
                at,
                fields,
                boosting,
                input,
            ),
{
    let children = listed(query)->0;
    if mentions_term(query, at, fields, boosting, term) {
        let (part, under) = choose|part: Query, under: Standing|
            #![trigger stands(query, at, fields, boosting, part, under)]
            stands(query, at, fields, boosting, part, under) && is_term(part, under, term);
        let i = choose|i: int|
            0 <= i < children.len() && stands(
                #[trigger] children[i],
                at,
                fields,
                boosting,
                part,
                under,
            );
        assert(mentions_term(children[i], at, fields, boosting, term));
    }
    if mentions_expansion(query, at, fields, boosting, input) {
        let (part, under) = choose|part: Query, under: Standing|
            #![trigger stands(query, at, fields, boosting, part, under)]
            stands(query, at, fields, boosting, part, under) && is_expansion(part, under, input);
        let i = choose|i: int|
            0 <= i < children.len() && stands(
                #[trigger] children[i],
                at,
                fields,
                boosting,
                part,
                under,
            );
        assert(mentions_expansion(children[i], at, fields, boosting, input));
    }
    assert forall|i: int| 0 <= i < children.len() implies (mentions_term(
        #[trigger] children[i],
        at,
        fields,
        boosting,
        term,
    ) ==> mentions_term(query, at, fields, boosting, term)) && (mentions_expansion(
        children[i],
        at,
        fields,
        boosting,
        input,
    ) ==> mentions_expansion(query, at, fields, boosting, input)) by {
        lemma_up(children[i], at, query, at, fields, boosting, term, input);
    }
}

proof fn lemma_children<T: Fn(u32, u32) -> u32>(
    children: Seq<Query>,
    upto: int,
    at: Standing,
    fields: FieldMeta,
    boosting: Boosting<T>,
    term: ScoringTermInput,
    input: ExpansionInput,
)
    requires
        0 <= upto <= children.len(),
        forall|i: int| 0 <= i < upto ==> scored_unknown(#[trigger] children[i], fields) is None,
    ensures
        score_terms_upto(children, upto, at, fields, boosting).contains(term) <==> exists|i: int|
            0 <= i < upto && mentions_term(#[trigger] children[i], at, fields, boosting, term),
        score_expansions_upto(children, upto, at, fields, boosting).contains(input) <==> exists|
            i: int,
        |
            0 <= i < upto && mentions_expansion(
                #[trigger] children[i],
                at,
                fields,
                boosting,
                input,
            ),
    decreases children, upto,
{
    if upto > 0 {
        lemma_children(children, upto - 1, at, fields, boosting, term, input);
        let last = children[upto - 1];
        law_all_parts_are_scored(last, at, fields, boosting, term, input);
        lemma_concat(
            score_terms_upto(children, upto - 1, at, fields, boosting),
            score_terms(last, at, fields, boosting),
            term,
        );
        lemma_concat(
            score_expansions_upto(children, upto - 1, at, fields, boosting),
            score_expansions(last, at, fields, boosting),
            input,
        );
        if mentions_term(last, at, fields, boosting, term) {
            assert(mentions_term(children[upto - 1], at, fields, boosting, term));
        }
        if mentions_expansion(last, at, fields, boosting, input) {
            assert(mentions_expansion(children[upto - 1], at, fields, boosting, input));
        }
    }
}

/// A query is scored by the terms and expansions that stand in it outside a NOT,
/// all of them and no others, each in the scope and with the boost of what it
/// stands under.
pub proof fn law_all_parts_are_scored<T: Fn(u32, u32) -> u32>(
    query: Query,
    at: Standing,
    fields: FieldMeta,
    boosting: Boosting<T>,
    term: ScoringTermInput,
    input: ExpansionInput,
)
    requires
        scored_unknown(query, fields) is None,
    ensures
        score_terms(query, at, fields, boosting).contains(term) <==> exists|
            part: Query,
            under: Standing,
        |
            #![trigger stands(query, at, fields, boosting, part, under)]
            stands(query, at, fields, boosting, part, under) && is_term(part, under, term),
        score_expansions(query, at, fields, boosting).contains(input) <==> exists|
            part: Query,
            under: Standing,
        |
            #![trigger stands(query, at, fields, boosting, part, under)]
            stands(query, at, fields, boosting, part, under) && is_expansion(part, under, input),
    decreases query, 0int,
{
    let terms = score_terms(query, at, fields, boosting);
    let expansions = score_expansions(query, at, fields, boosting);
    match query {
        Query::And(left, right) | Query::Or(left, right) => {
            law_all_parts_are_scored(*left, at, fields, boosting, term, input);
            law_all_parts_are_scored(*right, at, fields, boosting, term, input);
            lemma_concat(
                score_terms(*left, at, fields, boosting),
                score_terms(*right, at, fields, boosting),
                term,
            );
            lemma_concat(
                score_expansions(*left, at, fields, boosting),
                score_expansions(*right, at, fields, boosting),
                input,
            );
            lemma_within(query, at, fields, boosting, term, input);
        },
        Query::Conjunction(children) => {
            lemma_scored_children(children@, 0, fields);
            lemma_children(children@, children.len() as int, at, fields, boosting, term, input);
            lemma_listed(query, at, fields, boosting, term, input);
        },
        Query::Disjunction { min: _, children } => {
            lemma_scored_children(children@, 0, fields);
            lemma_children(children@, children.len() as int, at, fields, boosting, term, input);
            lemma_listed(query, at, fields, boosting, term, input);
        },
        Query::AtLeast { min: _, children } => {
            lemma_scored_children(children@, 0, fields);
            lemma_children(children@, children.len() as int, at, fields, boosting, term, input);
            lemma_listed(query, at, fields, boosting, term, input);
        },
        Query::Boost { factor, inner } => {
            law_all_parts_are_scored(
                *inner,
                at.boosted(boosting, factor),
                fields,
                boosting,
                term,
                input,
            );
            lemma_within(query, at, fields, boosting, term, input);
        },
        Query::Field { name, inner } => {
            lemma_field(fields, name@, 0);
            let f = fields.field_from(name@, 0)->0;
            let inside = at.scoped(f);
            law_all_parts_are_scored(*inner, inside, fields, boosting, term, input);
            assert(fields.names@[f]@ == name@);
            assert forall|part: Query, under: Standing|
                query != part || at != under implies #[trigger] stands(
                query,
                at,
                fields,
                boosting,
                part,
                under,
            ) == stands(*inner, inside, fields, boosting, part, under) by {
                if stands(query, at, fields, boosting, part, under) {
                    let h = choose|h: int|
                        #![trigger fields.names@[h]]
                        0 <= h < fields.names.len() && fields.names@[h]@ == name@ && (forall|g: int|
                            0 <= g < h ==> (#[trigger] fields.names@[g])@ != name@) && stands(
                            *inner,
                            Standing {
                                mask: 1u16 << (h as u16),
                                boost: at.boost,
                                explicitly_boosted: at.explicitly_boosted,
                            },
                            fields,
                            boosting,
                            part,
                            under,
                        );
                    assert(h == f);
                }
            }
            lemma_up(*inner, inside, query, at, fields, boosting, term, input);
            if mentions_term(query, at, fields, boosting, term) {
                let (part, under) = choose|part: Query, under: Standing|
                    #![trigger stands(query, at, fields, boosting, part, under)]
                    stands(query, at, fields, boosting, part, under) && is_term(part, under, term);
                assert(stands(*inner, inside, fields, boosting, part, under));
            }
            if mentions_expansion(query, at, fields, boosting, input) {
                let (part, under) = choose|part: Query, under: Standing|
                    #![trigger stands(query, at, fields, boosting, part, under)]
                    stands(query, at, fields, boosting, part, under) && is_expansion(
                        part,
                        under,
                        input,
                    );
                assert(stands(*inner, inside, fields, boosting, part, under));
            }
        },
        Query::Span { term_slots } => {
            lemma_slots(term_slots@, at);
            assert(stands(query, at, fields, boosting, query, at));
            assert(terms.contains(term) <==> is_term(query, at, term));
            assert(expansions.contains(input) <==> is_expansion(query, at, input));
        },
        Query::SpanExpr { term_slots } => {
            lemma_slots(term_slots@, at);
            assert(stands(query, at, fields, boosting, query, at));
            assert(terms.contains(term) <==> is_term(query, at, term));
            assert(expansions.contains(input) <==> is_expansion(query, at, input));
        },
        _ => {
            assert(stands(query, at, fields, boosting, query, at));
            lemma_concat(Seq::empty(), terms, term);
            lemma_concat(Seq::empty(), expansions, input);
            if query is Term {
                assert(terms[0] == at.term(query->Term_0));
                assert(terms.contains(terms[0]));
            }
            if query is Fuzzy || query is Regex || query is Range {
                assert(expansions.contains(expansions[0]));
            }
            assert(terms.contains(term) <==> is_term(query, at, term));
            assert(expansions.contains(input) <==> is_expansion(query, at, input));
        },
    }
}

proof fn lemma_scored_children(children: Seq<Query>, i: int, fields: FieldMeta)
    requires
        0 <= i <= children.len(),
        crate::terms::scored_unknown_from(children, i, fields) is None,
    ensures
        forall|j: int|
            i <= j < children.len() ==> scored_unknown(#[trigger] children[j], fields) is None,
    decreases children.len() - i,
{
    if i < children.len() {
        lemma_scored_children(children, i + 1, fields);
    }
}

/// The query has, outside a NOT, a group that is scoped to a field called `name`.
pub open spec fn scored_scope(query: Query, name: Seq<char>) -> bool
    decreases query,
{
    match query {
        Query::Field { name: own, inner } => own@ == name || scored_scope(*inner, name),
        Query::And(left, right) => scored_scope(*left, name) || scored_scope(*right, name),
        Query::Or(left, right) => scored_scope(*left, name) || scored_scope(*right, name),
        Query::Conjunction(children) => exists|i: int|
            0 <= i < children.len() && scored_scope(#[trigger] children@[i], name),
        Query::Disjunction { min: _, children } => exists|i: int|
            0 <= i < children.len() && scored_scope(#[trigger] children@[i], name),
        Query::AtLeast { min: _, children } => exists|i: int|
            0 <= i < children.len() && scored_scope(#[trigger] children@[i], name),
        Query::Boost { factor: _, inner } => scored_scope(*inner, name),
        _ => false,
    }
}

/// The index has a field called `name`.
pub open spec fn is_field(fields: FieldMeta, name: Seq<char>) -> bool {
    exists|f: int| 0 <= f < fields.names@.len() && (#[trigger] fields.names@[f])@ == name
}

/// What scoring says of a query's fields.
pub open spec fn scoring_blames(
    query: Query,
    fields: FieldMeta,
    error: Option<FieldError>,
) -> bool {
    match error {
        None => forall|name: Seq<char>| #[trigger]
            scored_scope(query, name) ==> is_field(fields, name),
        Some(FieldError::Unknown(name)) => scored_scope(query, name@) && !is_field(fields, name@),
        _ => false,
    }
}

proof fn lemma_listed_scope(query: Query, name: Seq<char>)
    requires
        listed(query) is Some,
    ensures
        scored_scope(query, name) <==> exists|i: int|
            0 <= i < listed(query)->0.len() && scored_scope(#[trigger] listed(query)->0[i], name),
{
    let children = listed(query)->0;
    if scored_scope(query, name) {
        let i = choose|i: int|
            0 <= i < children.len() && scored_scope(#[trigger] children[i], name);
        assert(scored_scope(children[i], name));
    }
}

proof fn lemma_blames_from(query: Query, i: int, fields: FieldMeta)
    requires
        listed(query) is Some,
        0 <= i <= listed(query)->0.len(),
        forall|j: int, name: Seq<char>|
            0 <= j < i && #[trigger] scored_scope(listed(query)->0[j], name) ==> is_field(
                fields,
                name,
            ),
    ensures
        scoring_blames(
            query,
            fields,
            crate::terms::scored_unknown_from(listed(query)->0, i, fields),
        ),
    decreases listed(query)->0, listed(query)->0.len() - i,
{
    let children = listed(query)->0;
    if i < children.len() {
        let child = children[i];
        law_scoring_refuses_unknown_fields(child, fields);
        assert forall|name: Seq<char>| #[trigger] scored_scope(child, name) implies scored_scope(
            query,
            name,
        ) by {
            lemma_listed_scope(query, name);
            assert(scored_scope(children[i], name));
        }
        if scored_unknown(child, fields) is None {
            assert forall|j: int, name: Seq<char>|
                0 <= j < i + 1 && #[trigger] scored_scope(children[j], name) implies is_field(
                fields,
                name,
            ) by {
                if j == i {
                    assert(scored_scope(child, name));
                }
            }
            lemma_blames_from(query, i + 1, fields);
        }
    } else {
        assert forall|name: Seq<char>| #[trigger] scored_scope(query, name) implies is_field(
            fields,
            name,
        ) by {
            lemma_listed_scope(query, name);
            let j = choose|j: int|
                0 <= j < children.len() && scored_scope(#[trigger] children[j], name);
            assert(scored_scope(children[j], name));
        }
    }
}

/// Scoring refuses a query for a field that it names outside a NOT and that the
/// index has not, and for nothing else.
pub proof fn law_scoring_refuses_unknown_fields(query: Query, fields: FieldMeta)
    ensures
        scoring_blames(query, fields, scored_unknown(query, fields)),
    decreases query, 0int,
{
    match query {
        Query::And(left, right) | Query::Or(left, right) => {
            law_scoring_refuses_unknown_fields(*left, fields);
            law_scoring_refuses_unknown_fields(*right, fields);
            assert(forall|name: Seq<char>| #[trigger]
                scored_scope(*left, name) ==> scored_scope(query, name));
            assert(forall|name: Seq<char>| #[trigger]
                scored_scope(*right, name) ==> scored_scope(query, name));
            assert(forall|name: Seq<char>| #[trigger]
                scored_scope(query, name) ==> scored_scope(*left, name) || scored_scope(
                    *right,
                    name,
                ));
        },
        Query::Conjunction(_) => lemma_blames_from(query, 0, fields),
        Query::Disjunction { min: _, children: _ } => lemma_blames_from(query, 0, fields),
        Query::AtLeast { min: _, children: _ } => lemma_blames_from(query, 0, fields),
        Query::Boost { factor: _, inner } => {
            law_scoring_refuses_unknown_fields(*inner, fields);
            assert(forall|name: Seq<char>|
                #![trigger scored_scope(*inner, name)]
                #![trigger scored_scope(query, name)]
                scored_scope(*inner, name) <==> scored_scope(query, name));
        },
        Query::Field { name, inner } => {
            law_scoring_refuses_unknown_fields(*inner, fields);
            lemma_field(fields, name@, 0);
            assert(scored_scope(query, name@));
            assert(forall|other: Seq<char>| #[trigger]
                scored_scope(*inner, other) ==> scored_scope(query, other));
            if fields.field_from(name@, 0) is Some {
                let f = fields.field_from(name@, 0)->0;
                assert(fields.names@[f]@ == name@);
                assert(is_field(fields, name@));
                if scored_unknown(query, fields) is None {
                    assert forall|other: Seq<char>| #[trigger]
                        scored_scope(query, other) implies is_field(fields, other) by {
                        if other != name@ {
                            assert(scored_scope(*inner, other));
                        }
                    }
                }
            }
        },
        _ => {},
    }
}

} // verus!
