//! The terms a query is scored by.

use crate::chars::{chars_of, text_of};
use crate::query::{
    unresolved_field, unresolved_from, FieldError, FieldMeta, Query, RangeBound, SpanTermSlot,
};
use crate::statistics::corpus_universe;
use crate::text::{ascending, texts};
use vstd::prelude::*;

verus! {

/// A query node that scores every dictionary term it expands to.
#[derive(Debug)]
pub enum Expansion {
    Regex(String),
    Range(RangeBound, RangeBound),
    Fuzzy { term: String, prefix: u32, distance: u32 },
}

/// A term to score by, with the fields it is scoped to and its boost as the
/// bit pattern of its number.
#[derive(Debug)]
pub struct ScoringTermInput {
    pub text: String,
    pub mask: u16,
    pub boost: u32,
    pub explicitly_boosted: bool,
}

/// An expansion to score by, scoped and boosted like a term.
#[derive(Debug)]
pub struct ExpansionInput {
    pub expansion: Expansion,
    pub mask: u16,
    pub boost: u32,
    pub explicitly_boosted: bool,
}

/// Scoring inputs gathered from a query before expansions are resolved.
#[derive(Debug)]
pub struct Collected {
    pub terms: Vec<ScoringTermInput>,
    pub expansions: Vec<ExpansionInput>,
}

/// The scope and the boost a query node stands under.
#[derive(Clone, Copy, Debug, PartialEq, Eq, Structural)]
pub struct Standing {
    pub mask: u16,
    pub boost: u32,
    pub explicitly_boosted: bool,
}

/// How boosts multiply, over the bit patterns of their numbers.
pub struct Boosting<T> {
    pub times: T,
}

impl<T: Fn(u32, u32) -> u32> Boosting<T> {
    /// The product of two boosts.
    pub open spec fn product(self, a: u32, b: u32) -> u32 {
        choose|c: u32| call_ensures(self.times, (a, b), c)
    }

    /// Boosts can always be multiplied, with one result.
    pub open spec fn deterministic(self) -> bool {
        &&& forall|a: u32, b: u32| #[trigger] call_requires(self.times, (a, b))
        &&& forall|a: u32, b: u32, c: u32| #[trigger]
            call_ensures(self.times, (a, b), c) ==> c == self.product(a, b)
    }
}

/// The mask of field `field` alone.
pub open spec fn field_mask(field: int) -> u16 {
    1u16 << (field as u16)
}

impl Standing {
    pub open spec fn term(self, text: String) -> ScoringTermInput {
        ScoringTermInput {
            text,
            mask: self.mask,
            boost: self.boost,
            explicitly_boosted: self.explicitly_boosted,
        }
    }

    pub open spec fn expansion(self, expansion: Expansion) -> ExpansionInput {
        ExpansionInput {
            expansion,
            mask: self.mask,
            boost: self.boost,
            explicitly_boosted: self.explicitly_boosted,
        }
    }

    /// The standing of what `factor` boosts.
    pub open spec fn boosted<T: Fn(u32, u32) -> u32>(self, boosting: Boosting<T>, factor: u32) -> Self {
        Standing {
            mask: self.mask,
            boost: boosting.product(self.boost, factor),
            explicitly_boosted: true,
        }
    }

    /// The standing of what is scoped to `field`.
    pub open spec fn scoped(self, field: int) -> Self {
        Standing {
            mask: field_mask(field),
            boost: self.boost,
            explicitly_boosted: self.explicitly_boosted,
        }
    }
}

/// The terms among the slots of a span.
pub open spec fn slot_terms(slots: Seq<SpanTermSlot>, standing: Standing) -> Seq<ScoringTermInput>
    decreases slots.len(),
{
    if slots.len() == 0 {
        Seq::empty()
    } else {
        let before = slot_terms(slots.drop_last(), standing);
        match slots.last() {
            SpanTermSlot::Term(text) => before.push(standing.term(text)),
            _ => before,
        }
    }
}

/// The expansions among the slots of a span.
pub open spec fn slot_expansions(slots: Seq<SpanTermSlot>, standing: Standing) -> Seq<ExpansionInput>
    decreases slots.len(),
{
    if slots.len() == 0 {
        Seq::empty()
    } else {
        let before = slot_expansions(slots.drop_last(), standing);
        match slots.last() {
            SpanTermSlot::Term(_) => before,
            SpanTermSlot::Regex(pattern) => before.push(
                standing.expansion(Expansion::Regex(pattern)),
            ),
            SpanTermSlot::Range { lower, upper } => before.push(
                standing.expansion(Expansion::Range(lower, upper)),
            ),
            SpanTermSlot::Fuzzy { term, prefix, distance } => before.push(
                standing.expansion(Expansion::Fuzzy { term, prefix, distance }),
            ),
        }
    }
}

/// The terms a query is scored by, left to right. Boolean NOT contributes
/// nothing; negative span relations keep both sides.
pub open spec fn score_terms<T: Fn(u32, u32) -> u32>(
    query: Query,
    standing: Standing,
    fields: FieldMeta,
    boosting: Boosting<T>,
) -> Seq<ScoringTermInput>
    decreases query, 0int,
{
    match query {
        Query::Term(text) => seq![standing.term(text)],
        Query::Span { term_slots } => slot_terms(term_slots@, standing),
        Query::SpanExpr { term_slots } => slot_terms(term_slots@, standing),
        Query::And(left, right) | Query::Or(left, right) => score_terms(
            *left,
            standing,
            fields,
            boosting,
        ) + score_terms(*right, standing, fields, boosting),
        Query::Conjunction(children) => score_terms_upto(
            children@,
            children.len() as int,
            standing,
            fields,
            boosting,
        ),
        Query::Disjunction { min: _, children } => score_terms_upto(
            children@,
            children.len() as int,
            standing,
            fields,
            boosting,
        ),
        Query::AtLeast { min: _, children } => score_terms_upto(
            children@,
            children.len() as int,
            standing,
            fields,
            boosting,
        ),
        Query::Boost { factor, inner } => score_terms(
            *inner,
            standing.boosted(boosting, factor),
            fields,
            boosting,
        ),
        Query::Field { name, inner } => match fields.field_from(name@, 0) {
            Some(field) => score_terms(*inner, standing.scoped(field), fields, boosting),
            None => Seq::empty(),
        },
        _ => Seq::empty(),
    }
}

/// [`score_terms`] of the first `upto` of several queries.
pub open spec fn score_terms_upto<T: Fn(u32, u32) -> u32>(
    children: Seq<Query>,
    upto: int,
    standing: Standing,
    fields: FieldMeta,
    boosting: Boosting<T>,
) -> Seq<ScoringTermInput>
    decreases children, upto,
{
    if upto <= 0 || upto > children.len() {
        Seq::empty()
    } else {
        score_terms_upto(children, upto - 1, standing, fields, boosting) + score_terms(
            children[upto - 1],
            standing,
            fields,
            boosting,
        )
    }
}

/// The expansions a query is scored by, left to right: wildcards, regexes,
/// ranges and fuzzy terms score every term they expand to with the node's
/// boost.
pub open spec fn score_expansions<T: Fn(u32, u32) -> u32>(
    query: Query,
    standing: Standing,
    fields: FieldMeta,
    boosting: Boosting<T>,
) -> Seq<ExpansionInput>
    decreases query, 0int,
{
    match query {
        Query::Fuzzy { term, prefix, distance } => seq![
            standing.expansion(Expansion::Fuzzy { term, prefix, distance }),
        ],
        Query::Regex(pattern) => seq![standing.expansion(Expansion::Regex(pattern))],
        Query::Range { lower, upper } => seq![standing.expansion(Expansion::Range(lower, upper))],
        Query::Span { term_slots } => slot_expansions(term_slots@, standing),
        Query::SpanExpr { term_slots } => slot_expansions(term_slots@, standing),
        Query::And(left, right) | Query::Or(left, right) => score_expansions(
            *left,
            standing,
            fields,
            boosting,
        ) + score_expansions(*right, standing, fields, boosting),
        Query::Conjunction(children) => score_expansions_upto(
            children@,
            children.len() as int,
            standing,
            fields,
            boosting,
        ),
        Query::Disjunction { min: _, children } => score_expansions_upto(
            children@,
            children.len() as int,
            standing,
            fields,
            boosting,
        ),
        Query::AtLeast { min: _, children } => score_expansions_upto(
            children@,
            children.len() as int,
            standing,
            fields,
            boosting,
        ),
        Query::Boost { factor, inner } => score_expansions(
            *inner,
            standing.boosted(boosting, factor),
            fields,
            boosting,
        ),
        Query::Field { name, inner } => match fields.field_from(name@, 0) {
            Some(field) => score_expansions(*inner, standing.scoped(field), fields, boosting),
            None => Seq::empty(),
        },
        _ => Seq::empty(),
    }
}

/// [`score_expansions`] of the first `upto` of several queries.
pub open spec fn score_expansions_upto<T: Fn(u32, u32) -> u32>(
    children: Seq<Query>,
    upto: int,
    standing: Standing,
    fields: FieldMeta,
    boosting: Boosting<T>,
) -> Seq<ExpansionInput>
    decreases children, upto,
{
    if upto <= 0 || upto > children.len() {
        Seq::empty()
    } else {
        score_expansions_upto(children, upto - 1, standing, fields, boosting) + score_expansions(
            children[upto - 1],
            standing,
            fields,
            boosting,
        )
    }
}

/// The first field name that scoring meets, left to right, and that no field
/// has. What stands under NOT is not met.
pub open spec fn scored_unknown(query: Query, fields: FieldMeta) -> Option<FieldError>
    decreases query, 0int,
{
    match query {
        Query::And(left, right) | Query::Or(left, right) => match scored_unknown(*left, fields) {
            Some(error) => Some(error),
            None => scored_unknown(*right, fields),
        },
        Query::Conjunction(children) => scored_unknown_from(children@, 0, fields),
        Query::Disjunction { min: _, children } => scored_unknown_from(children@, 0, fields),
        Query::AtLeast { min: _, children } => scored_unknown_from(children@, 0, fields),
        Query::Boost { factor: _, inner } => scored_unknown(*inner, fields),
        Query::Field { name, inner } => match fields.field_from(name@, 0) {
            Some(_) => scored_unknown(*inner, fields),
            None => Some(FieldError::Unknown(name)),
        },
        _ => None,
    }
}

/// [`scored_unknown`] of the queries from the `i`-th on.
pub open spec fn scored_unknown_from(children: Seq<Query>, i: int, fields: FieldMeta) -> Option<
    FieldError,
>
    decreases children, children.len() - i,
{
    if i < 0 || i >= children.len() {
        None
    } else {
        match scored_unknown(children[i], fields) {
            Some(error) => Some(error),
            None => scored_unknown_from(children, i + 1, fields),
        }
    }
}

fn copy_bound(bound: &RangeBound) -> (copy: RangeBound)
    ensures
        copy == *bound,
{
    match bound {
        RangeBound::Open => RangeBound::Open,
        RangeBound::Term(text) => RangeBound::Term(text.clone()),
    }
}

impl Collected {
    /// Nothing collected yet.
    pub fn new() -> (collected: Self)
        ensures
            collected.terms@ == Seq::<ScoringTermInput>::empty(),
            collected.expansions@ == Seq::<ExpansionInput>::empty(),
    {
        Collected { terms: Vec::new(), expansions: Vec::new() }
    }

    fn push_term(&mut self, text: &String, standing: Standing)
        ensures
            final(self).terms@ == old(self).terms@.push(standing.term(*text)),
            final(self).expansions == old(self).expansions,
    {
        self.terms.push(
            ScoringTermInput {
                text: text.clone(),
                mask: standing.mask,
                boost: standing.boost,
                explicitly_boosted: standing.explicitly_boosted,
            },
        );
    }

    fn push_expansion(&mut self, expansion: Expansion, standing: Standing)
        ensures
            final(self).expansions@ == old(self).expansions@.push(standing.expansion(expansion)),
            final(self).terms == old(self).terms,
    {
        self.expansions.push(
            ExpansionInput {
                expansion,
                mask: standing.mask,
                boost: standing.boost,
                explicitly_boosted: standing.explicitly_boosted,
            },
        );
    }

    fn push_slots(&mut self, slots: &Vec<SpanTermSlot>, standing: Standing)
        ensures
            final(self).terms@ == old(self).terms@ + slot_terms(slots@, standing),
            final(self).expansions@ == old(self).expansions@ + slot_expansions(slots@, standing),
    {
        let ghost terms = self.terms@;
        let ghost expansions = self.expansions@;
        let mut i: usize = 0;
        proof {
            assert(slots@.take(0) =~= Seq::empty());
            assert(terms + slot_terms(slots@.take(0), standing) =~= terms);
            assert(expansions + slot_expansions(slots@.take(0), standing) =~= expansions);
        }
        while i < slots.len()
            invariant
                i <= slots.len(),
                self.terms@ == terms + slot_terms(slots@.take(i as int), standing),
                self.expansions@ == expansions + slot_expansions(slots@.take(i as int), standing),
            decreases slots.len() - i,
        {
            match &slots[i] {
                SpanTermSlot::Term(text) => self.push_term(text, standing),
                SpanTermSlot::Regex(pattern) => self.push_expansion(
                    Expansion::Regex(pattern.clone()),
                    standing,
                ),
                SpanTermSlot::Range { lower, upper } => self.push_expansion(
                    Expansion::Range(copy_bound(lower), copy_bound(upper)),
                    standing,
                ),
                SpanTermSlot::Fuzzy { term, prefix, distance } => self.push_expansion(
                    Expansion::Fuzzy { term: term.clone(), prefix: *prefix, distance: *distance },
                    standing,
                ),
            }
            proof {
                let longer = slots@.take(i + 1);
                assert(longer.drop_last() =~= slots@.take(i as int));
                assert(longer.last() == slots[i as int]);
                assert(self.terms@ =~= terms + slot_terms(longer, standing));
                assert(self.expansions@ =~= expansions + slot_expansions(longer, standing));
            }
            i = i + 1;
        }
        proof {
            assert(slots@.take(i as int) =~= slots@);
        }
    }

    /// The terms to score by, in order: those collected, then those each
    /// expansion expanded to, with the expansion's scope and boost.
    pub fn resolve(self, expanded: Vec<Vec<String>>) -> (inputs: Vec<ScoringTermInput>)
        requires
            expanded.len() == self.expansions.len(),
        ensures
            inputs@ == self.terms@ + expanded_terms(self.expansions@, expanded@),
    {
        let mut inputs: Vec<ScoringTermInput> = self.terms;
        let ghost terms = inputs@;
        let mut i: usize = 0;
        proof {
            assert(terms + expanded_terms(self.expansions@.take(0), expanded@.take(0)) =~= terms);
        }
        while i < expanded.len()
            invariant
                i <= expanded.len() == self.expansions.len(),
                inputs@ == terms + expanded_terms(
                    self.expansions@.take(i as int),
                    expanded@.take(i as int),
                ),
            decreases expanded.len() - i,
        {
            let ghost were = inputs@;
            let input = &self.expansions[i];
            let found = &expanded[i];
            let mut j: usize = 0;
            proof {
                assert(were + expansion_terms(*input, found@.take(0)) =~= were);
            }
            while j < found.len()
                invariant
                    j <= found.len(),
                    inputs@ == were + expansion_terms(*input, found@.take(j as int)),
                decreases found.len() - j,
            {
                inputs.push(
                    ScoringTermInput {
                        text: found[j].clone(),
                        mask: input.mask,
                        boost: input.boost,
                        explicitly_boosted: input.explicitly_boosted,
                    },
                );
                proof {
                    assert(inputs@ =~= were + expansion_terms(*input, found@.take(j + 1)));
                }
                j = j + 1;
            }
            proof {
                assert(found@.take(j as int) =~= found@);
                let some = self.expansions@.take(i + 1);
                let lists = expanded@.take(i + 1);
                assert(some.drop_last() =~= self.expansions@.take(i as int));
                assert(lists.drop_last() =~= expanded@.take(i as int));
                assert(inputs@ =~= terms + expanded_terms(some, lists));
            }
            i = i + 1;
        }
        proof {
            assert(self.expansions@.take(i as int) =~= self.expansions@);
            assert(expanded@.take(i as int) =~= expanded@);
        }
        inputs
    }
}

/// The inputs that one expansion gives for the terms it expanded to.
pub open spec fn expansion_terms(input: ExpansionInput, found: Seq<String>) -> Seq<
    ScoringTermInput,
> {
    Seq::new(
        found.len(),
        |j: int|
            ScoringTermInput {
                text: found[j],
                mask: input.mask,
                boost: input.boost,
                explicitly_boosted: input.explicitly_boosted,
            },
    )
}

/// The inputs that the expansions give, in order.
pub open spec fn expanded_terms(expansions: Seq<ExpansionInput>, expanded: Seq<Vec<String>>) -> Seq<
    ScoringTermInput,
>
    decreases expansions.len(),
{
    if expansions.len() == 0 || expanded.len() == 0 {
        Seq::empty()
    } else {
        expanded_terms(expansions.drop_last(), expanded.drop_last()) + expansion_terms(
            expansions.last(),
            expanded.last()@,
        )
    }
}

/// Gathers what a query is scored by. An unknown field name is an error, and
/// what was gathered up to then is of no use.
pub fn collect_score_terms<T: Fn(u32, u32) -> u32>(
    query: &Query,
    standing: Standing,
    fields: &FieldMeta,
    boosting: &Boosting<T>,
    out: &mut Collected,
) -> (collected: Result<(), FieldError>)
    requires
        fields.valid(),
        boosting.deterministic(),
    ensures
        match scored_unknown(*query, *fields) {
            Some(error) => collected == Err::<(), FieldError>(error),
            None => {
                &&& collected is Ok
                &&& final(out).terms@ == old(out).terms@ + score_terms(
                    *query,
                    standing,
                    *fields,
                    *boosting,
                )
                &&& final(out).expansions@ == old(out).expansions@ + score_expansions(
                    *query,
                    standing,
                    *fields,
                    *boosting,
                )
            },
        },
    decreases query, 0int,
{
    let ghost terms = out.terms@;
    let ghost expansions = out.expansions@;
    proof {
        assert(terms + Seq::<ScoringTermInput>::empty() =~= terms);
        assert(expansions + Seq::<ExpansionInput>::empty() =~= expansions);
    }
    match query {
        Query::Term(text) => {
            out.push_term(text, standing);
            proof {
                assert(out.terms@ =~= terms + seq![standing.term(*text)]);
            }
            Ok(())
        },
        Query::Fuzzy { term, prefix, distance } => {
            out.push_expansion(
                Expansion::Fuzzy { term: term.clone(), prefix: *prefix, distance: *distance },
                standing,
            );
            proof {
                assert(out.expansions@ =~= expansions + score_expansions(
                    *query,
                    standing,
                    *fields,
                    *boosting,
                ));
            }
            Ok(())
        },
        Query::Regex(pattern) => {
            out.push_expansion(Expansion::Regex(pattern.clone()), standing);
            proof {
                assert(out.expansions@ =~= expansions + score_expansions(
                    *query,
                    standing,
                    *fields,
                    *boosting,
                ));
            }
            Ok(())
        },
        Query::Range { lower, upper } => {
            out.push_expansion(Expansion::Range(copy_bound(lower), copy_bound(upper)), standing);
            proof {
                assert(out.expansions@ =~= expansions + score_expansions(
                    *query,
                    standing,
                    *fields,
                    *boosting,
                ));
            }
            Ok(())
        },
        Query::Span { term_slots } => {
            out.push_slots(term_slots, standing);
            Ok(())
        },
        Query::SpanExpr { term_slots } => {
            out.push_slots(term_slots, standing);
            Ok(())
        },
        Query::And(left, right) | Query::Or(left, right) => {
            match collect_score_terms(left, standing, fields, boosting, out) {
                Ok(()) => {},
                Err(error) => {
                    return Err(error);
                },
            }
            let collected = collect_score_terms(right, standing, fields, boosting, out);
            proof {
                if collected is Ok {
                    assert(out.terms@ =~= terms + score_terms(
                        *query,
                        standing,
                        *fields,
                        *boosting,
                    ));
                    assert(out.expansions@ =~= expansions + score_expansions(
                        *query,
                        standing,
                        *fields,
                        *boosting,
                    ));
                }
            }
            collected
        },
        Query::Conjunction(children) => collect_children(children, standing, fields, boosting, out),
        Query::Disjunction { min: _, children } => collect_children(
            children,
            standing,
            fields,
            boosting,
            out,
        ),
        Query::AtLeast { min: _, children } => collect_children(
            children,
            standing,
            fields,
            boosting,
            out,
        ),
        Query::Not(_) | Query::MatchAll => Ok(()),
        Query::Boost { factor, inner } => {
            let boost: u32 = (boosting.times)(standing.boost, *factor);
            let inside = Standing { mask: standing.mask, boost, explicitly_boosted: true };
            collect_score_terms(inner, inside, fields, boosting, out)
        },
        Query::Field { name, inner } => match fields.field_id(name.as_str()) {
            Some(field) => {
                let inside = Standing {
                    mask: 1u16 << (field as u16),
                    boost: standing.boost,
                    explicitly_boosted: standing.explicitly_boosted,
                };
                collect_score_terms(inner, inside, fields, boosting, out)
            },
            None => Err(FieldError::Unknown(name.clone())),
        },
    }
}

fn collect_children<T: Fn(u32, u32) -> u32>(
    children: &Vec<Query>,
    standing: Standing,
    fields: &FieldMeta,
    boosting: &Boosting<T>,
    out: &mut Collected,
) -> (collected: Result<(), FieldError>)
    requires
        fields.valid(),
        boosting.deterministic(),
    ensures
        match scored_unknown_from(children@, 0, *fields) {
            Some(error) => collected == Err::<(), FieldError>(error),
            None => {
                &&& collected is Ok
                &&& final(out).terms@ == old(out).terms@ + score_terms_upto(
                    children@,
                    children.len() as int,
                    standing,
                    *fields,
                    *boosting,
                )
                &&& final(out).expansions@ == old(out).expansions@ + score_expansions_upto(
                    children@,
                    children.len() as int,
                    standing,
                    *fields,
                    *boosting,
                )
            },
        },
    decreases children, 1int,
{
    let ghost terms = out.terms@;
    let ghost expansions = out.expansions@;
    let mut i: usize = 0;
    proof {
        assert(terms + Seq::<ScoringTermInput>::empty() =~= terms);
        assert(expansions + Seq::<ExpansionInput>::empty() =~= expansions);
    }
    while i < children.len()
        invariant
            i <= children.len(),
            fields.valid(),
            boosting.deterministic(),
            scored_unknown_from(children@, 0, *fields) == scored_unknown_from(
                children@,
                i as int,
                *fields,
            ),
            out.terms@ == terms + score_terms_upto(
                children@,
                i as int,
                standing,
                *fields,
                *boosting,
            ),
            out.expansions@ == expansions + score_expansions_upto(
                children@,
                i as int,
                standing,
                *fields,
                *boosting,
            ),
        decreases children.len() - i,
    {
        match collect_score_terms(&children[i], standing, fields, boosting, out) {
            Ok(()) => {},
            Err(error) => {
                return Err(error);
            },
        }
        proof {
            assert(out.terms@ =~= terms + score_terms_upto(
                children@,
                i + 1,
                standing,
                *fields,
                *boosting,
            ));
            assert(out.expansions@ =~= expansions + score_expansions_upto(
                children@,
                i + 1,
                standing,
                *fields,
                *boosting,
            ));
        }
        i = i + 1;
    }
    Ok(())
}

/// The mask covering every field of an index: one bit without fields.
pub open spec fn every_field(fields: Option<FieldMeta>) -> int {
    match fields {
        None => 1,
        Some(plan) => vstd::arithmetic::power2::pow2(
            if plan.names.len() >= 16 {
                16
            } else {
                plan.names.len() as nat
            },
        ) - 1,
    }
}

/// The mask covering every field of an index.
pub fn all_fields_mask(fields: &Option<FieldMeta>) -> (mask: u16)
    ensures
        mask == every_field(*fields),
{
    match fields {
        None => 1,
        Some(plan) => {
            let n: usize = plan.names.len();
            proof {
                vstd::arithmetic::power2::lemma2_to64();
            }
            if n >= 16 {
                return u16::MAX;
            }
            let width: u16 = n as u16;
            proof {
                assert(width < 16 ==> (1u16 << width) >= 1) by (bit_vector);
                vstd::bits::lemma_u16_shl_is_mul(1, width);
            }
            (1u16 << width) - 1
        },
    }
}

/// The part of a dictionary that an expansion looks at.
#[derive(Debug)]
pub enum Window {
    All,
    Prefix(String),
    /// From one term through another, each if there is one.
    Range(Option<String>, Option<String>),
}

/// What a window holds.
pub enum WindowView {
    All,
    Prefix(Seq<char>),
    Range(Option<Seq<char>>, Option<Seq<char>>),
}

/// The term that bounds a range, if one does.
pub open spec fn bound_term(bound: RangeBound) -> Option<Seq<char>> {
    match bound {
        RangeBound::Open => None,
        RangeBound::Term(text) => Some(text@),
    }
}

/// A text that may not be there.
pub open spec fn held_text(text: Option<String>) -> Option<Seq<char>> {
    match text {
        Some(text) => Some(text@),
        None => None,
    }
}

impl View for Window {
    type V = WindowView;

    open spec fn view(&self) -> WindowView {
        match *self {
            Window::All => WindowView::All,
            Window::Prefix(text) => WindowView::Prefix(text@),
            Window::Range(lower, upper) => WindowView::Range(held_text(lower), held_text(upper)),
        }
    }
}

impl Expansion {
    /// The part of a dictionary that the expansion looks at; `pure_prefix` is
    /// the prefix that a regular expression amounts to.
    pub open spec fn window_of(self, pure_prefix: Option<Seq<char>>) -> WindowView {
        match self {
            Expansion::Regex(_) => match pure_prefix {
                Some(prefix) => WindowView::Prefix(prefix),
                None => WindowView::All,
            },
            Expansion::Range(lower, upper) => WindowView::Range(
                bound_term(lower),
                bound_term(upper),
            ),
            Expansion::Fuzzy { term, prefix, distance: _ } => WindowView::Prefix(
                if prefix < term@.len() {
                    term@.take(prefix as int)
                } else {
                    term@
                },
            ),
        }
    }

    /// Whether terms in that part are matched one by one. A regular expression
    /// that is a prefix, and a range, hold of all of them.
    pub open spec fn filters(self, pure_prefix: Option<Seq<char>>) -> bool {
        match self {
            Expansion::Regex(_) => pure_prefix is None,
            Expansion::Range(_, _) => false,
            Expansion::Fuzzy { term: _, prefix: _, distance: _ } => true,
        }
    }

    /// The part of a dictionary that the expansion looks at, and whether terms
    /// there are matched one by one.
    pub fn window(&self, pure_prefix: Option<String>) -> (window: (Window, bool))
        ensures
            window.0@ == self.window_of(held_text(pure_prefix)),
            window.1 == self.filters(held_text(pure_prefix)),
    {
        match self {
            Expansion::Regex(_) => match pure_prefix {
                Some(prefix) => (Window::Prefix(prefix), false),
                None => (Window::All, true),
            },
            Expansion::Range(lower, upper) => (
                Window::Range(bound_text(lower), bound_text(upper)),
                false,
            ),
            Expansion::Fuzzy { term, prefix, distance: _ } => {
                let chars = chars_of(term.as_str());
                let fixed: usize = if (*prefix as usize) < chars.len() {
                    *prefix as usize
                } else {
                    chars.len()
                };
                let text = text_of(&chars, 0, fixed);
                proof {
                    assert(term@.subrange(0, fixed as int) =~= term@.take(fixed as int));
                    assert(term@.take(term@.len() as int) =~= term@);
                }
                (Window::Prefix(text), true)
            },
        }
    }
}

fn bound_text(bound: &RangeBound) -> (text: Option<String>)
    ensures
        held_text(text) == bound_term(*bound),
{
    match bound {
        RangeBound::Open => None,
        RangeBound::Term(text) => Some(text.clone()),
    }
}

/// The terms that several dictionaries expand to, in order and each once.
pub fn expand_in(found: &Vec<Vec<String>>) -> (terms: Vec<String>)
    ensures
        ascending(texts(terms@)),
        forall|text: Seq<char>| #[trigger]
            texts(terms@).contains(text) <==> exists|i: int|
                0 <= i < found.len() && texts((#[trigger] found[i])@).contains(text),
{
    corpus_universe(found)
}

/// A query whose field names were resolved can be scored: no name is unknown
/// to scoring. An index without fields scores by no field at all.
pub proof fn law_resolved_query_scores(query: Query, fields: Option<FieldMeta>, plan: FieldMeta)
    requires
        unresolved_field(query, fields) is None,
        fields is None || fields == Some(plan),
    ensures
        scored_unknown(query, plan) is None,
    decreases query, 0int,
{
    match query {
        Query::Field { name, inner } => {
            assert(texts(plan.names@).skip(0) =~= texts(plan.names@));
            plan.lemma_field_known(name@, 0);
            law_resolved_query_scores(*inner, fields, plan);
        },
        Query::And(left, right) | Query::Or(left, right) => {
            law_resolved_query_scores(*left, fields, plan);
            law_resolved_query_scores(*right, fields, plan);
        },
        Query::Conjunction(children) => lemma_resolved_children(children@, 0, fields, plan),
        Query::Disjunction { min: _, children } => lemma_resolved_children(
            children@,
            0,
            fields,
            plan,
        ),
        Query::AtLeast { min: _, children } => lemma_resolved_children(children@, 0, fields, plan),
        Query::Boost { factor: _, inner } => law_resolved_query_scores(*inner, fields, plan),
        _ => {},
    }
}

proof fn lemma_resolved_children(
    children: Seq<Query>,
    i: int,
    fields: Option<FieldMeta>,
    plan: FieldMeta,
)
    requires
        unresolved_from(children, i, fields) is None,
        fields is None || fields == Some(plan),
        0 <= i <= children.len(),
    ensures
        scored_unknown_from(children, i, plan) is None,
    decreases children, children.len() - i,
{
    if i < children.len() {
        law_resolved_query_scores(children[i], fields, plan);
        lemma_resolved_children(children, i + 1, fields, plan);
    }
}

} // verus!
