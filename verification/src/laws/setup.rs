//! When a query is scored, what its terms are looked for in, and by what pruning
//! it is found.

use crate::laws::query::{has, holds, is_flat, law_flat_queries_have_a_shape, law_shape_keeps_meaning};
use crate::match_positions::{positions, EvaluatedMatch};
use crate::observe::{last_with, Area, IoFrame};
use crate::query::{flat_shape, resolved_query, FieldMeta, Query};
use crate::scorer::{document_at, listed_from, lists};
use crate::scoring::{Block, Scoring};
use crate::setup::{listed, one_column, unscoped, BuildError, ScoreRequest};
use crate::source::{Combine, Source};
use crate::statistics::TermCounts;
use crate::terms::{
    every_field, expanded_terms, expansion_terms, Expansion, ExpansionInput, ScoringTermInput,
    WindowView,
};
use crate::text::{bytes_before, texts};
use crate::tid::Tid;
use crate::top_k::{refuses, Prunable, PrunedScan};
use vstd::prelude::*;

verus! {

/// A request is refused for the first thing that is wrong with it: its index, its
/// parameters, its dense ratio where one is used, its query, the edit of its terms.
/// A request with nothing wrong is not refused.
pub proof fn law_requests_are_refused_in_order(request: ScoreRequest, fields: Option<FieldMeta>)
    ensures
        ({
            let index = request.belongs;
            let parameters = request.parameters is Ok;
            let ratio = request.full || request.dense_valid;
            let query = resolved_query(request.parsed, fields) is Ok;
            let edit = request.edit is Ok;
            match request.refusal(fields) {
                None => index && parameters && ratio && query && edit,
                Some(BuildError::Relation) => !index,
                Some(BuildError::Parameters(reason)) => index && request.parameters == Err::<
                    crate::options::Bm25Params,
                    String,
                >(reason),
                Some(BuildError::DenseRatio) => index && parameters && !ratio,
                Some(BuildError::Query(error)) => index && parameters && ratio && resolved_query(
                    request.parsed,
                    fields,
                ) == Err::<Query, crate::query::QueryError>(error),
                Some(BuildError::Edit(reason)) => index && parameters && ratio && query
                    && request.edit == Err::<(), String>(reason),
            }
        }),
{
}

/// A mask covers a field if the bit at the field's place is set.
pub open spec fn covers_field(mask: u16, field: u16) -> bool {
    (mask >> field) & 1 == 1
}

/// A query that names no field is looked for in all fields of the index, and only
/// in those; an index without fields has one. Nothing boosts it.
pub proof fn law_unscoped_terms_are_of_all_fields(fields: Option<FieldMeta>, field: u16)
    requires
        field < 16,
        fields matches Some(plan) ==> plan.names.len() <= 16,
    ensures
        covers_field(unscoped(fields).mask, field) <==> (match fields {
            Some(plan) => field < plan.names.len(),
            None => field == 0,
        }),
        unscoped(fields).boost == 0x3f80_0000 && !unscoped(fields).explicitly_boosted,
{
    vstd::arithmetic::power2::lemma2_to64();
    match fields {
        None => {
            assert((1u16 >> field) & 1 == 1 <==> field == 0) by (bit_vector)
                requires
                    field < 16,
            ;
        },
        Some(plan) => {
            let n = plan.names.len() as u16;
            if n < 16 {
                vstd::bits::lemma_u16_shl_is_mul(1, n);
                assert((1u16 << n) >= 1) by (bit_vector)
                    requires
                        n < 16,
                ;
                let mask = ((1u16 << n) - 1) as u16;
                assert((mask >> field) & 1 == 1 <==> field < n) by (bit_vector)
                    requires
                        n < 16,
                        field < 16,
                        mask == ((1u16 << n) - 1) as u16,
                ;
                assert(unscoped(fields).mask == mask);
            } else {
                assert((0xffffu16 >> field) & 1 == 1) by (bit_vector)
                    requires
                        field < 16,
                ;
                assert(every_field(fields) == 0xffff);
            }
        },
    }
}

/// A field group's mask covers its field and no other.
pub proof fn law_a_scope_is_one_field(field: u16, other: u16)
    requires
        field < 16,
        other < 16,
    ensures
        covers_field(crate::terms::field_mask(field as int), other) <==> other == field,
{
    assert(((1u16 << field) >> other) & 1 == 1 <==> other == field) by (bit_vector)
        requires
            field < 16,
            other < 16,
    ;
}

/// An expansion looks at all terms that it could match: a regular expression at
/// those with the prefix that it amounts to, or at all; a range from one bound
/// through the other; a fuzzy term at those that start with what must be the same.
/// Terms are matched one by one unless all of those match.
pub proof fn law_expansions_look_where_they_match(
    expansion: Expansion,
    pure_prefix: Option<Seq<char>>,
)
    ensures
        match (expansion, expansion.window_of(pure_prefix)) {
            (Expansion::Regex(_), WindowView::All) => pure_prefix is None && expansion.filters(
                pure_prefix,
            ),
            (Expansion::Regex(_), WindowView::Prefix(prefix)) => pure_prefix == Some(prefix)
                && !expansion.filters(pure_prefix),
            (Expansion::Range(lower, upper), WindowView::Range(from, to)) => {
                &&& !expansion.filters(pure_prefix)
                &&& match lower {
                    crate::query::RangeBound::Term(text) => from == Some(text@),
                    crate::query::RangeBound::Open => from is None,
                }
                &&& match upper {
                    crate::query::RangeBound::Term(text) => to == Some(text@),
                    crate::query::RangeBound::Open => to is None,
                }
            },
            (Expansion::Fuzzy { term, prefix, distance: _ }, WindowView::Prefix(fixed)) => {
                &&& expansion.filters(pure_prefix)
                &&& fixed.len() <= prefix && fixed.len() <= term@.len()
                &&& fixed.len() == prefix || fixed.len() == term@.len()
                &&& forall|i: int| 0 <= i < fixed.len() ==> #[trigger] fixed[i] == term@[i]
            },
            _ => false,
        },
{
}

/// Each term that an expansion expanded to is scored with the scope and the boost
/// of the expansion, and nothing else is.
pub proof fn law_expanded_terms_keep_their_boost(
    expansions: Seq<ExpansionInput>,
    expanded: Seq<Vec<String>>,
    term: ScoringTermInput,
)
    requires
        expansions.len() == expanded.len(),
    ensures
        expanded_terms(expansions, expanded).contains(term) <==> exists|i: int|
            0 <= i < expansions.len() && (#[trigger] expanded[i])@.contains(term.text) && term.mask
                == expansions[i].mask && term.boost == expansions[i].boost
                && term.explicitly_boosted == expansions[i].explicitly_boosted,
    decreases expansions.len(),
{
    if expansions.len() > 0 {
        let n: int = expansions.len() - 1;
        let some = expansions.drop_last();
        let lists = expanded.drop_last();
        law_expanded_terms_keep_their_boost(some, lists, term);
        let before = expanded_terms(some, lists);
        let here = expansion_terms(expansions[n], expanded[n]@);
        let all = before + here;
        assert(expanded_terms(expansions, expanded) == all);
        if before.contains(term) {
            let x = choose|x: int| 0 <= x < before.len() && before[x] == term;
            assert(all[x] == term);
            let i = choose|i: int|
                0 <= i < some.len() && (#[trigger] lists[i])@.contains(term.text) && term.mask
                    == some[i].mask && term.boost == some[i].boost && term.explicitly_boosted
                    == some[i].explicitly_boosted;
            assert(expanded[i]@.contains(term.text));
        }
        if expanded[n]@.contains(term.text) && term.mask == expansions[n].mask && term.boost
            == expansions[n].boost && term.explicitly_boosted == expansions[n].explicitly_boosted {
            let x = choose|x: int| 0 <= x < expanded[n]@.len() && expanded[n]@[x] == term.text;
            assert(here[x] == term);
            assert(all[before.len() + x] == term);
        }
        if all.contains(term) {
            let x = choose|x: int| 0 <= x < all.len() && all[x] == term;
            if x < before.len() {
                assert(before[x] == term);
            } else {
                let y = x - before.len();
                assert(here[y] == term);
                assert(expanded[n]@[y] == term.text);
                assert(expanded[n]@.contains(term.text));
            }
        }
        if exists|i: int|
            0 <= i < expansions.len() && (#[trigger] expanded[i])@.contains(term.text) && term.mask
                == expansions[i].mask && term.boost == expansions[i].boost
                && term.explicitly_boosted == expansions[i].explicitly_boosted {
            let i = choose|i: int|
                0 <= i < expansions.len() && (#[trigger] expanded[i])@.contains(term.text)
                    && term.mask == expansions[i].mask && term.boost == expansions[i].boost
                    && term.explicitly_boosted == expansions[i].explicitly_boosted;
            if i < n {
                assert(lists[i]@.contains(term.text));
            }
        }
    }
}

/// Where a scan has nothing to walk, no document matches: the query holds of no
/// terms that the index has.
pub proof fn law_nothing_to_walk_is_nothing_to_find(
    scan: PrunedScan,
    terms: Set<Seq<char>>,
    other: spec_fn(Query) -> bool,
)
    requires
        scan.pruning() == Prunable::Nothing,
        forall|t: Seq<char>| #[trigger]
            terms.contains(t) ==> texts(scan.held@).contains(t) || texts(scan.terms@).contains(t),
    ensures
        !holds(scan.query, terms, other),
{
    law_shape_keeps_meaning(scan.query, terms, other);
    let (combine, leaves) = flat_shape(scan.query)->0;
    let all = texts(scan.terms@);
    let t = choose|t: Seq<char>| #[trigger] leaves.contains(t) && !all.contains(t);
    assert(leaves.contains(t) && !all.contains(t));
    if has(combine, leaves, terms) {
        assert(terms.contains(t));
    }
}

/// A scan of an index without fields whose scoring terms are just those of a flat
/// query is walked.
pub proof fn law_flat_queries_are_walked(scan: PrunedScan)
    requires
        scan.fields is None,
        is_flat(scan.query),
        forall|t: Seq<char>| #[trigger]
            texts(scan.terms@).contains(t) <==> (flat_shape(scan.query)->0).1.contains(t),
    ensures
        scan.pruning() is Walk,
{
    law_flat_queries_have_a_shape(scan.query);
}

/// A scan that has fields, or whose query is not flat, or that scores by a term
/// that the query does not ask for, or by fewer than the index holds of those that
/// it asks for, is not pruned.
pub proof fn law_other_scans_are_not_pruned(scan: PrunedScan, t: Seq<char>)
    ensures
        scan.fields is Some ==> scan.pruning() is No,
        !is_flat(scan.query) ==> scan.pruning() is No,
        is_flat(scan.query) && texts(scan.terms@).contains(t) && !(flat_shape(
            scan.query,
        )->0).1.contains(t) ==> scan.pruning() is No,
        is_flat(scan.query) && (flat_shape(scan.query)->0).1.contains(t) && !texts(
            scan.terms@,
        ).contains(t) && texts(scan.held@).contains(t) ==> scan.pruning() is No,
{
    law_flat_queries_have_a_shape(scan.query);
    let leaves = (flat_shape(scan.query)->0).1;
    let all = texts(scan.terms@);
    if all.contains(t) && !leaves.contains(t) {
        assert(exists|t: Seq<char>| #[trigger] all.contains(t) && !leaves.contains(t));
    }
    if leaves.contains(t) && !all.contains(t) && texts(scan.held@).contains(t) {
        assert(exists|t: Seq<char>| #[trigger]
            leaves.contains(t) && !all.contains(t) && texts(scan.held@).contains(t));
    }
}

/// A source cannot be pruned if a term has no bounds, and can if all have them. A
/// conjunction whose terms are all there is held to all of them.
pub proof fn law_unbounded_terms_stop_pruning(source: Source, combine: Combine, j: int)
    ensures
        combine == Combine::Any && 0 <= j < source.terms@.len() && source.terms@[j].blocks@.len()
            == 0 ==> refuses(source, combine),
        0 <= j < source.terms@.len() && source.terms@[j].blocks@.len() == 0 && (forall|i: int|
            0 <= i < source.terms@.len() ==> (#[trigger] source.terms@[i]).slot == i) ==> refuses(
            source,
            combine,
        ),
        (forall|i: int|
            0 <= i < source.terms@.len() ==> (#[trigger] source.terms@[i]).blocks@.len() > 0)
            ==> !refuses(source, combine),
{
    if 0 <= j < source.terms@.len() {
        assert(source.terms[j] == source.terms@[j]);
    }
    if forall|i: int| 0 <= i < source.terms@.len() ==> (#[trigger] source.terms@[i]).slot == i {
        assert forall|i: int| 0 <= i < source.terms.len() implies (#[trigger] source.terms[i]).slot
            == i by {
            assert(source.terms@[i].slot == i);
        }
    }
    if forall|i: int|
        0 <= i < source.terms@.len() ==> (#[trigger] source.terms@[i]).blocks@.len() > 0 {
        assert forall|i: int| 0 <= i < source.terms.len() implies (
        #[trigger] source.terms[i]).blocks.len() > 0 by {
            assert(source.terms@[i].blocks@.len() > 0);
        }
    }
}

/// A row is scored by the first source that lists it and has not deleted it.
pub proof fn law_the_first_live_source_scores<A, S, B, L, M>(
    sources: Seq<Source>,
    scoring: Scoring<A, S, B, L, M>,
    tid: Tid,
    i: int,
    x: int,
) where
    A: Fn(u32, u32) -> u32,
    S: Fn(usize, u32, u32) -> u32,
    B: Fn(usize, Block) -> u32,
    L: Fn(usize, Block, u32) -> u32,
    M: Fn(usize, Block, u32) -> u32,

    requires
        0 <= i <= x <= sources.len(),
        forall|y: int| i <= y < x ==> !is_live(#[trigger] sources[y], tid),
        x < sources.len() ==> is_live(sources[x], tid),
    ensures
        listed_from(sources, scoring, tid, i) == (if x < sources.len() {
            Some(sources[x].score_of(scoring, document_at(sources[x], tid)))
        } else {
            None
        }),
        x < sources.len() ==> document_at(sources[x], tid).tid == tid
            && sources[x].documents@.contains(document_at(sources[x], tid)),
    decreases x - i,
{
    if i < x {
        assert(!is_live(sources[i], tid));
        lemma_live(sources[i], tid);
        law_the_first_live_source_scores(sources, scoring, tid, i + 1, x);
    } else if x < sources.len() {
        lemma_live(sources[x], tid);
    }
    if x < sources.len() {
        lemma_live(sources[x], tid);
        let source = sources[x];
        let d = choose|d: int|
            0 <= d < source.documents.len() && #[trigger] source.documents[d].tid == tid;
        assert(source.documents@[d] == document_at(source, tid));
    }
}

/// The source lists a document at the location and has not deleted it.
pub open spec fn is_live(source: Source, tid: Tid) -> bool {
    &&& exists|d: int| 0 <= d < source.documents@.len() && (#[trigger] source.documents@[d]).tid == tid
    &&& forall|i: int| 0 <= i < source.dead@.len() ==> #[trigger] source.dead@[i] != tid
}

proof fn lemma_live(source: Source, tid: Tid)
    ensures
        lists(source, tid) <==> is_live(source, tid),
{
    if lists(source, tid) {
        let d = choose|d: int|
            0 <= d < source.documents.len() && #[trigger] source.documents[d].tid == tid;
        assert(source.documents@[d].tid == tid);
        assert forall|i: int| 0 <= i < source.dead@.len() implies #[trigger] source.dead@[i]
            != tid by {
            if source.dead@[i] == tid {
                assert(source.dead@.contains(tid));
            }
        }
    }
    if is_live(source, tid) {
        let d = choose|d: int|
            0 <= d < source.documents@.len() && (#[trigger] source.documents@[d]).tid == tid;
        assert(source.documents[d].tid == tid);
        if source.dead@.contains(tid) {
            let i = choose|i: int| 0 <= i < source.dead@.len() && source.dead@[i] == tid;
            assert(source.dead@[i] != tid);
        }
    }
}

/// Texts are ordered by their bytes: where they first differ the smaller byte
/// comes first, and a text comes before those that go on from it.
pub proof fn law_texts_are_ordered_by_bytes(a: Seq<u8>, b: Seq<u8>, n: int)
    requires
        0 <= n <= a.len(),
        n <= b.len(),
        forall|i: int| 0 <= i < n ==> #[trigger] a[i] == b[i],
        n < a.len() && n < b.len() ==> a[n] != b[n],
        n == a.len() || n == b.len() || a[n] != b[n],
    ensures
        bytes_before(a, b) <==> n < b.len() && (n == a.len() || a[n] < b[n]),
    decreases n,
{
    if n > 0 {
        let (x, y) = (a.drop_first(), b.drop_first());
        assert(a[0] == b[0]);
        assert forall|i: int| 0 <= i < n - 1 implies #[trigger] x[i] == y[i] by {
            assert(a[i + 1] == b[i + 1]);
        }
        law_texts_are_ordered_by_bytes(x, y, n - 1);
    }
}

/// What is shown of the scoring terms: those that are kept, in order.
pub proof fn law_kept_terms_are_shown(
    terms: Seq<crate::setup::ScoringTerm>,
    kept: Seq<TermCounts>,
    i: int,
)
    requires
        0 <= i < kept.len(),
    ensures
        listed(terms, kept).len() == kept.len(),
        listed(terms, kept)[i] == terms[kept[i].term as int],
{
}

/// Pages are counted for their area: those of the dictionary and of postings, each
/// for itself, and no others.
pub proof fn law_pages_are_counted_by_area(frame: IoFrame, area: Area, blocks: u64)
    requires
        frame.dictionary_pages + blocks <= u64::MAX,
        frame.postings_blocks + blocks <= u64::MAX,
    ensures
        ({
            let counted = frame.with_pages(area, blocks);
            &&& counted.id == frame.id
            &&& counted.dictionary_pages - frame.dictionary_pages == (if area
                == Area::Dictionary {
                blocks as int
            } else {
                0
            })
            &&& counted.postings_blocks - frame.postings_blocks == (if area == Area::Postings {
                blocks as int
            } else {
                0
            })
        }),
{
}

/// A frame is found by its identity.
pub proof fn law_frames_are_found_by_identity(frames: Seq<IoFrame>, id: u64, upto: int)
    requires
        0 <= upto <= frames.len(),
    ensures
        match last_with(frames, id, upto) {
            Some(i) => 0 <= i < upto && frames[i].id == id && forall|j: int|
                i < j < upto ==> (#[trigger] frames[j]).id != id,
            None => forall|j: int| 0 <= j < upto ==> (#[trigger] frames[j]).id != id,
        },
    decreases upto,
{
    if upto > 0 && frames[upto - 1].id != id {
        law_frames_are_found_by_identity(frames, id, upto - 1);
    }
}

/// Matches keep their query part, where they start and end, and their order, and
/// are of the field that was asked.
pub proof fn law_matches_keep_their_positions(reported: Seq<EvaluatedMatch>, field: u16, i: int)
    requires
        0 <= i < reported.len(),
        reported[i].start <= i32::MAX,
        reported[i].end <= i32::MAX,
    ensures
        ({
            let found = positions(reported, field);
            &&& found.len() == reported.len()
            &&& found[i].part == reported[i].part
            &&& found[i].start == reported[i].start
            &&& found[i].end == reported[i].end
            &&& found[i].field == field
        }),
{
}

/// The texts that are scored without an index have the one field of an index without
/// fields.
pub proof fn law_a_corpus_is_one_column()
    ensures
        one_column() == unscoped(None),
        forall|field: u16|
            field < 16 ==> (#[trigger] covers_field(one_column().mask, field) <==> field == 0),
{
    assert forall|field: u16| field < 16 implies (#[trigger] covers_field(one_column().mask, field)
        <==> field == 0) by {
        law_unscoped_terms_are_of_all_fields(None, field);
    }
}

} // verus!
