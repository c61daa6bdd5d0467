//! Which documents a ranked scan returns, and with what scores.

use crate::laws::query::{has, holds, law_shape_keeps_meaning};
use crate::query::{flat_shape, Query};
use crate::laws::ranking::{is_better, law_the_best_rows_are_kept};
use crate::ranking::{at_most, ranked, Row};
use crate::scorer::lemma_candidates;
use crate::scoring::{Block, Scoring};
use crate::source::{Combine, Document, Source, TermPostings};
use crate::text::texts;
use crate::tid::Tid;
use crate::top_k::{
    all_rows, lemma_slot_at_least, lemma_slots_complete, locations_distinct, refuses, slots_ordered,
    source_rows, Prunable, PrunedScan,
};
use vstd::prelude::*;

verus! {

/// The term has a posting at the location.
pub open spec fn posted(term: TermPostings, tid: Tid) -> bool {
    exists|q: int| 0 <= q < term.postings@.len() && (#[trigger] term.postings@[q]).tid == tid
}

/// The scoring terms that the source has at a location, by their texts.
pub open spec fn terms_at(terms: Seq<String>, source: Source, tid: Tid) -> Set<Seq<char>> {
    Set::new(
        |text: Seq<char>|
            exists|j: int|
                0 <= j < source.terms@.len() && posted(#[trigger] source.terms@[j], tid)
                    && terms[source.terms@[j].slot as int]@ == text,
    )
}

/// The document is listed, is not deleted, and the query holds of the terms that
/// it has.
pub open spec fn matches_query(
    query: Query,
    terms: Seq<String>,
    source: Source,
    document: Document,
    other: spec_fn(Query) -> bool,
) -> bool {
    &&& source.documents@.contains(document)
    &&& !source.dead@.contains(document.tid)
    &&& holds(query, terms_at(terms, source, document.tid), other)
}

/// No two of the scoring terms read alike.
pub open spec fn terms_differ(terms: Seq<String>) -> bool {
    forall|x: int, y: int|
        0 <= x < y < terms.len() ==> (#[trigger] terms[x])@ != (#[trigger] terms[y])@
}

proof fn lemma_missing_slot(terms: Seq<TermPostings>, slots: nat, from: int) -> (missing: int)
    requires
        slots_ordered(terms, slots),
        terms.len() < slots,
        0 <= from <= terms.len(),
        forall|j: int| 0 <= j < from ==> (#[trigger] terms[j]).slot == j,
    ensures
        0 <= missing < slots,
        forall|j: int| 0 <= j < terms.len() ==> (#[trigger] terms[j]).slot != missing,
    decreases terms.len() - from,
{
    if from == terms.len() {
        from
    } else if terms[from].slot == from {
        lemma_missing_slot(terms, slots, from + 1)
    } else {
        lemma_slot_at_least(terms, slots, from);
        assert forall|j: int| 0 <= j < terms.len() implies (#[trigger] terms[j]).slot != from by {
            if j > from {
                assert(terms[from].slot < terms[j].slot);
            }
        }
        from
    }
}

proof fn lemma_text_at(terms: Seq<String>, source: Source, tid: Tid, slot: int)
    requires
        terms_differ(terms),
        slots_ordered(source.terms@, terms.len()),
        0 <= slot < terms.len(),
    ensures
        terms_at(terms, source, tid).contains(terms[slot]@) <==> exists|j: int|
            0 <= j < source.terms@.len() && posted(#[trigger] source.terms@[j], tid)
                && source.terms@[j].slot == slot,
{
    if terms_at(terms, source, tid).contains(terms[slot]@) {
        let j = choose|j: int|
            0 <= j < source.terms@.len() && posted(#[trigger] source.terms@[j], tid)
                && terms[source.terms@[j].slot as int]@ == terms[slot]@;
        let own = source.terms@[j].slot as int;
        if own < slot {
            assert(terms[own]@ != terms[slot]@);
        } else if slot < own {
            assert(terms[slot]@ != terms[own]@);
        }
        assert(source.terms@[j].slot == slot);
    }
}

/// What the walked terms select is what the query holds of.
proof fn lemma_selected(
    scan: PrunedScan,
    combine: Combine,
    source: Source,
    tid: Tid,
    other: spec_fn(Query) -> bool,
)
    requires
        scan.pruning() == Prunable::Walk(combine),
        scan.terms.len() > 0,
        terms_differ(scan.terms@),
        slots_ordered(source.terms@, scan.terms.len() as nat),
    ensures
        holds(scan.query, terms_at(scan.terms@, source, tid), other) <==> {
            &&& source.terms.len() > 0
            &&& combine == Combine::All ==> source.terms.len() >= scan.terms.len()
            &&& source.selects(combine, tid)
        },
{
    let here = terms_at(scan.terms@, source, tid);
    let all = texts(scan.terms@);
    let (_, leaves) = flat_shape(scan.query)->0;
    let n = source.terms@.len() as int;
    law_shape_keeps_meaning(scan.query, here, other);
    assert(flat_shape(scan.query) == Some((combine, leaves)));
    assert forall|t: Seq<char>| #[trigger] all.contains(t) implies leaves.contains(t) by {}
    assert(all.len() == scan.terms@.len());
    assert forall|j: int| 0 <= j < n implies (posted(#[trigger] source.terms@[j], tid)
        <==> source.terms[j].posting_at(tid) is Some) by {
        let term = source.terms@[j];
        if posted(term, tid) {
            let q = choose|q: int|
                0 <= q < term.postings@.len() && (#[trigger] term.postings@[q]).tid == tid;
            assert(term.postings[q].tid == tid);
        }
        if source.terms[j].posting_at(tid) is Some {
            let q = choose|q: int|
                0 <= q < term.postings.len() && #[trigger] term.postings[q].tid == tid;
            assert(term.postings@[q].tid == tid);
        }
    }
    if combine == Combine::Any {
        assert(has(combine, leaves, here) <==> source.selects(combine, tid)) by {
            if has(combine, leaves, here) {
                let t = choose|t: Seq<char>| #[trigger] leaves.contains(t) && here.contains(t);
                let j = choose|j: int|
                    0 <= j < n && posted(#[trigger] source.terms@[j], tid)
                        && scan.terms@[source.terms@[j].slot as int]@ == t;
                assert(source.terms[j].posting_at(tid) is Some);
            }
            if source.selects(combine, tid) {
                let j = choose|j: int|
                    0 <= j < source.terms.len() && #[trigger] source.terms[j].posting_at(
                        tid,
                    ) is Some;
                assert(posted(source.terms@[j], tid));
                let slot = source.terms@[j].slot as int;
                let t = scan.terms@[slot]@;
                assert(all[slot] == t);
                assert(all.contains(t));
                assert(here.contains(t));
                assert(leaves.contains(t));
            }
        }
        if source.selects(combine, tid) {
            let j = choose|j: int|
                0 <= j < source.terms.len() && #[trigger] source.terms[j].posting_at(tid) is Some;
        }
    } else {
        assert forall|t: Seq<char>| #[trigger] leaves.contains(t) implies all.contains(t) by {}
        if has(combine, leaves, here) {
            if source.terms.len() < scan.terms.len() {
                let slot = lemma_missing_slot(source.terms@, scan.terms.len() as nat, 0);
                lemma_text_at(scan.terms@, source, tid, slot);
                assert(all[slot] == scan.terms@[slot]@);
                assert(all.contains(scan.terms@[slot]@));
                assert(leaves.contains(scan.terms@[slot]@));
                assert(here.contains(scan.terms@[slot]@));
            }
            assert forall|j: int| 0 <= j < source.terms.len() implies #[trigger] source.terms[j].posting_at(
                tid,
            ) is Some by {
                let slot = source.terms@[j].slot as int;
                lemma_text_at(scan.terms@, source, tid, slot);
                assert(all[slot] == scan.terms@[slot]@);
                assert(all.contains(scan.terms@[slot]@));
                assert(leaves.contains(scan.terms@[slot]@));
                assert(here.contains(scan.terms@[slot]@));
                let i = choose|i: int|
                    0 <= i < n && posted(#[trigger] source.terms@[i], tid) && source.terms@[i].slot
                        == slot;
                if i < j {
                    assert(source.terms@[i].slot < source.terms@[j].slot);
                } else if j < i {
                    assert(source.terms@[j].slot < source.terms@[i].slot);
                }
                assert(posted(source.terms@[j], tid));
            }
        }
        if source.terms.len() >= scan.terms.len() && source.selects(combine, tid) {
            assert forall|t: Seq<char>| #[trigger] leaves.contains(t) implies here.contains(t) by {
                assert(all.contains(t));
                let slot = choose|slot: int| 0 <= slot < all.len() && all[slot] == t;
                lemma_slots_complete(source.terms@, scan.terms.len() as nat, slot);
                assert(source.terms[slot].posting_at(tid) is Some);
                assert(posted(source.terms@[slot], tid));
                assert(scan.terms@[slot]@ == t);
            }
        }
    }
}

proof fn lemma_rows_of_sources<A, S, B, L, M>(
    sources: Seq<Source>,
    scoring: Scoring<A, S, B, L, M>,
    combine: Combine,
    slots: nat,
    row: Row,
) where
    A: Fn(u32, u32) -> u32,
    S: Fn(usize, u32, u32) -> u32,
    B: Fn(usize, Block) -> u32,
    L: Fn(usize, Block, u32) -> u32,
    M: Fn(usize, Block, u32) -> u32,

    ensures
        all_rows(sources, scoring, combine, slots).contains(row) <==> exists|i: int|
            0 <= i < sources.len() && source_rows(
                #[trigger] sources[i],
                scoring,
                combine,
                slots,
            ).contains(row),
    decreases sources.len(),
{
    if sources.len() > 0 {
        let rest = sources.drop_last();
        lemma_rows_of_sources(rest, scoring, combine, slots, row);
        let before = all_rows(rest, scoring, combine, slots);
        let last = source_rows(sources.last(), scoring, combine, slots);
        let all = all_rows(sources, scoring, combine, slots);
        assert(all == before + last);
        if before.contains(row) {
            let x = choose|x: int| 0 <= x < before.len() && before[x] == row;
            assert(all[x] == row);
            let i = choose|i: int|
                0 <= i < rest.len() && source_rows(
                    #[trigger] rest[i],
                    scoring,
                    combine,
                    slots,
                ).contains(row);
            assert(sources[i] == rest[i]);
        }
        if last.contains(row) {
            let x = choose|x: int| 0 <= x < last.len() && last[x] == row;
            assert(all[before.len() + x] == row);
            assert(sources[sources.len() - 1] == sources.last());
        }
        if all.contains(row) {
            let x = choose|x: int| 0 <= x < all.len() && all[x] == row;
            if x < before.len() {
                assert(before[x] == row);
            } else {
                assert(last[x - before.len()] == row);
            }
        }
        if exists|i: int|
            0 <= i < sources.len() && source_rows(
                #[trigger] sources[i],
                scoring,
                combine,
                slots,
            ).contains(row) {
            let i = choose|i: int|
                0 <= i < sources.len() && source_rows(
                    #[trigger] sources[i],
                    scoring,
                    combine,
                    slots,
                ).contains(row);
            if i < rest.len() {
                assert(rest[i] == sources[i]);
                assert(before.contains(row));
            } else {
                assert(last.contains(row));
            }
        }
    }
}

/// A source has the row: a document that matches the query, with its score.
pub open spec fn row_matches<A, S, B, L, M>(
    scan: PrunedScan,
    scoring: Scoring<A, S, B, L, M>,
    source: Source,
    row: Row,
    other: spec_fn(Query) -> bool,
) -> bool where
    A: Fn(u32, u32) -> u32,
    S: Fn(usize, u32, u32) -> u32,
    B: Fn(usize, Block) -> u32,
    L: Fn(usize, Block, u32) -> u32,
    M: Fn(usize, Block, u32) -> u32,

 {
    exists|document: Document| #[trigger]
        matches_query(scan.query, scan.terms@, source, document, other) && row.tid == document.tid
            && row.score == source.score_of(scoring, document)
}

/// A pruned scan ranks the documents that the query holds of, all of them and no
/// others, each with its score: those that are listed, are not deleted, and have
/// the terms that the query asks for.
pub proof fn law_matching_documents_are_ranked<A, S, B, L, M>(
    scan: PrunedScan,
    scoring: Scoring<A, S, B, L, M>,
    combine: Combine,
    row: Row,
    other: spec_fn(Query) -> bool,
) where
    A: Fn(u32, u32) -> u32,
    S: Fn(usize, u32, u32) -> u32,
    B: Fn(usize, Block) -> u32,
    L: Fn(usize, Block, u32) -> u32,
    M: Fn(usize, Block, u32) -> u32,

    requires
        scan.pruning() == Prunable::Walk(combine),
        scan.ordered(),
        scan.terms.len() > 0,
        terms_differ(scan.terms@),
        forall|i: int|
            0 <= i < scan.sources.len() ==> slots_ordered(
                (#[trigger] scan.sources@[i]).terms@,
                scan.terms.len() as nat,
            ),
    ensures
        scan.rows(scoring).contains(row) <==> exists|i: int|
            0 <= i < scan.sources.len() && row_matches(
                scan,
                scoring,
                #[trigger] scan.sources@[i],
                row,
                other,
            ),
{
    let slots = scan.terms.len() as nat;
    lemma_rows_of_sources(scan.sources@, scoring, combine, slots, row);
    assert forall|i: int| 0 <= i < scan.sources.len() implies (source_rows(
        #[trigger] scan.sources@[i],
        scoring,
        combine,
        slots,
    ).contains(row) <==> row_matches(scan, scoring, scan.sources@[i], row, other)) by {
        let source = scan.sources@[i];
        assert(scan.sources[i].ordered(scan.max_offset));
        let n = source.documents.len() as nat;
        lemma_candidates(source, scoring, combine, scan.max_offset, n);
        let listed = source.candidates(scoring, combine, n);
        if source_rows(source, scoring, combine, slots).contains(row) {
            assert(listed.contains(row));
            let d = choose|d: int|
                0 <= d < n && source.is_candidate(combine, (#[trigger] source.documents[d]).tid)
                    && row == (Row {
                    score: source.score_of(scoring, source.documents[d]),
                    tid: source.documents[d].tid,
                });
            let document = source.documents[d];
            lemma_selected(scan, combine, source, document.tid, other);
            assert(source.documents@[d] == document);
            assert(source.documents@.contains(document));
            assert(matches_query(scan.query, scan.terms@, source, document, other));
        }
        if row_matches(scan, scoring, source, row, other) {
            let document = choose|document: Document| #[trigger]
                matches_query(scan.query, scan.terms@, source, document, other) && row.tid
                    == document.tid && row.score == source.score_of(scoring, document);
            lemma_selected(scan, combine, source, document.tid, other);
            let d = choose|d: int| 0 <= d < source.documents@.len() && source.documents@[d] == document;
            assert(source.documents[d] == document);
            assert(source.is_candidate(combine, source.documents[d].tid));
            assert(listed.contains(row));
        }
    }
}

/// A document's score adds up what its terms contribute, one after the other in
/// the order of the terms: a term that the document has contributes by how often
/// it is there and by the document's length, and another one nothing.
pub proof fn law_a_score_adds_up_the_terms<A, S, B, L, M>(
    source: Source,
    scoring: Scoring<A, S, B, L, M>,
    document: Document,
    max_offset: u16,
) -> (sums: Seq<u32>) where
    A: Fn(u32, u32) -> u32,
    S: Fn(usize, u32, u32) -> u32,
    B: Fn(usize, Block) -> u32,
    L: Fn(usize, Block, u32) -> u32,
    M: Fn(usize, Block, u32) -> u32,

    requires
        source.ordered(max_offset),
    ensures
        sums.len() == source.terms@.len() + 1,
        sums[0] == 0,
        sums.last() == source.score_of(scoring, document),
        forall|i: int, q: int|
            #![trigger source.terms@[i].postings@[q]]
            0 <= i < source.terms@.len() && 0 <= q < source.terms@[i].postings@.len()
                && source.terms@[i].postings@[q].tid == document.tid ==> sums[i + 1] == scoring.sum(
                sums[i],
                scoring.contribution(
                    source.terms@[i].slot,
                    source.terms@[i].postings@[q].frequency,
                    document.length,
                ),
            ),
        forall|i: int|
            #![trigger source.terms@[i]]
            0 <= i < source.terms@.len() && !posted(source.terms@[i], document.tid) ==> sums[i + 1]
                == sums[i],
{
    let values = source.contributions(scoring, document.tid, document.length);
    let n = source.terms@.len();
    let sums = Seq::new(n + 1, |i: int| scoring.total(values.take(i)));
    assert(values.take(n as int) =~= values);
    assert(sums[0] == scoring.total(values.take(0)));
    assert forall|i: int| 0 <= i < n implies sums[i + 1] == (match #[trigger] values[i] {
        Some(value) => scoring.sum(sums[i], value),
        None => sums[i],
    }) by {
        let head = values.take(i + 1);
        assert(head.drop_last() =~= values.take(i));
        assert(head.last() == values[i]);
    }
    assert forall|i: int, q: int|
        #![trigger source.terms@[i].postings@[q]]
        0 <= i < n && 0 <= q < source.terms@[i].postings@.len()
            && source.terms@[i].postings@[q].tid == document.tid implies sums[i + 1] == scoring.sum(
        sums[i],
        scoring.contribution(
            source.terms@[i].slot,
            source.terms@[i].postings@[q].frequency,
            document.length,
        ),
    ) by {
        assert(source.terms[i].ordered(max_offset));
        source.terms[i].lemma_posting_at(max_offset, q);
        assert(source.terms[i].postings[q] == source.terms@[i].postings@[q]);
        assert(values[i] == Some(
            scoring.contribution(
                source.terms@[i].slot,
                source.terms@[i].postings@[q].frequency,
                document.length,
            ),
        ));
    }
    assert forall|i: int|
        #![trigger source.terms@[i]]
        0 <= i < n && !posted(source.terms@[i], document.tid) implies sums[i + 1] == sums[i] by {
        let term = source.terms@[i];
        if source.terms[i].posting_at(document.tid) is Some {
            let q = choose|q: int|
                0 <= q < term.postings.len() && #[trigger] term.postings[q].tid == document.tid;
            assert(term.postings@[q].tid == document.tid);
        }
        assert(values[i] is None);
    }
    sums
}

/// Two of the rows are at the same location.
pub open spec fn share_a_location(rows: Seq<Row>) -> bool {
    exists|i: int, j: int|
        0 <= i < j < rows.len() && (#[trigger] rows[i]).tid == (#[trigger] rows[j]).tid
}

/// A term of the source has no bounds.
pub open spec fn lacks_bounds(source: Source) -> bool {
    exists|j: int|
        0 <= j < source.terms@.len() && (#[trigger] source.terms@[j]).blocks@.len() == 0
}

/// The rows of a pruned scan are the best of the scan's rows: as many as were asked
/// for or there are, the best first, and none that is left out is better. There is
/// no answer only where the scan cannot be pruned, a source lacks bounds, or a
/// location is among the best twice.
pub proof fn law_pruned_rows_are_the_best<A, S, B, L, M>(
    scan: PrunedScan,
    scoring: Scoring<A, S, B, L, M>,
    k: nat,
) where
    A: Fn(u32, u32) -> u32,
    S: Fn(usize, u32, u32) -> u32,
    B: Fn(usize, Block) -> u32,
    L: Fn(usize, Block, u32) -> u32,
    M: Fn(usize, Block, u32) -> u32,

    ensures
        match scan.best(scoring, k) {
            Some(top) => {
                let rows = scan.rows(scoring);
                &&& top.len() == if rows.len() < k {
                    rows.len()
                } else {
                    k
                }
                &&& forall|i: int, j: int| 0 <= i < j < top.len() ==> !is_better(top[j], top[i])
                &&& forall|row: Row| #[trigger]
                    top.to_multiset().count(row) <= rows.to_multiset().count(row)
                &&& forall|row: Row, i: int|
                    #![trigger rows.to_multiset().count(row), top[i]]
                    0 <= i < top.len() && top.to_multiset().count(row) < rows.to_multiset().count(
                        row,
                    ) ==> !is_better(row, top[i])
                &&& !share_a_location(top)
                &&& !(scan.pruning() is No)
            },
            None => scan.pruning() is No || (k > 0 && exists|i: int|
                0 <= i < scan.sources@.len() && lacks_bounds(#[trigger] scan.sources@[i])) || (k > 0
                && share_a_location(at_most(k, ranked(scan.rows(scoring))))),
        },
{
    let rows = scan.rows(scoring);
    let top = at_most(k, ranked(rows));
    law_the_best_rows_are_kept(k, rows);
    if scan.best(scoring, k) is None && !(scan.pruning() is No) {
        if let Prunable::Walk(combine) = scan.pruning() {
            if exists|i: int|
                0 <= i < scan.sources.len() && refuses(#[trigger] scan.sources[i], combine) {
                let i = choose|i: int|
                    0 <= i < scan.sources.len() && refuses(#[trigger] scan.sources[i], combine);
                let source = scan.sources@[i];
                let j = choose|j: int|
                    0 <= j < source.terms.len() && (#[trigger] source.terms[j]).blocks.len() == 0
                        && (combine == Combine::All ==> forall|i: int|
                        0 <= i <= j ==> (#[trigger] source.terms[i]).slot == i);
                assert(source.terms@[j].blocks@.len() == 0);
                assert(lacks_bounds(scan.sources@[i]));
            }
        }
    }
    if !locations_distinct(top) {
        let (i, j) = choose|i: int, j: int| 0 <= i < j < top.len() && top[i].tid == top[j].tid;
        assert(top[i].tid == top[j].tid);
    }
    if k == 0 {
        assert(top =~= Seq::empty());
        assert(Seq::<Row>::empty() =~= top);
    }
}

} // verus!
