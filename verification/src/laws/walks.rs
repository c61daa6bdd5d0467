//! What a pruned walk looks at.

use crate::ranking::{lemma_inserted, Row};
use crate::scoring::{Block, Scoring};
use crate::source::{Combine, Posting, Source, TermPostings};
use crate::steps::{beyond, first_from, Tally};
use crate::tid::{lemma_key_injective, Tid};
use vstd::prelude::*;
use vstd::set_lib::{lemma_int_range, lemma_len_subset, set_int_range};

verus! {

/// The term is in the document there.
pub open spec fn is_in(term: TermPostings, key: int) -> bool {
    exists|q: int| 0 <= q < term.postings@.len() && (#[trigger] term.postings@[q]).tid.key() == key
}

/// The document there has one of the terms, or all of them.
pub open spec fn is_candidate(source: Source, combine: Combine, key: int) -> bool {
    match combine {
        Combine::Any => exists|i: int|
            0 <= i < source.terms@.len() && is_in(#[trigger] source.terms@[i], key),
        Combine::All => forall|i: int|
            0 <= i < source.terms@.len() ==> is_in(#[trigger] source.terms@[i], key),
    }
}

/// The document there is deleted.
pub open spec fn is_deleted(source: Source, key: int) -> bool {
    exists|i: int| 0 <= i < source.dead@.len() && (#[trigger] source.dead@[i]).key() == key
}

/// Where the deleted candidates from `frontier` on are, or the others.
pub open spec fn places(source: Source, combine: Combine, frontier: int, deleted: bool) -> Set<int> {
    Set::new(
        |key: int|
            frontier <= key < beyond() && is_candidate(source, combine, key) && is_deleted(
                source,
                key,
            ) == deleted,
    )
}

/// A candidate that is looked at is counted once or not at all, among the deleted
/// ones just where it is deleted. As long as rows are wanted, one that is not deleted
/// is scored and becomes one of the best.
pub proof fn law_a_candidate_is_counted_once<A, S, B, L, M>(
    source: Source,
    scoring: Scoring<A, S, B, L, M>,
    k: nat,
    best: Seq<Row>,
    tid: Tid,
    range: Option<(Tid, u32)>,
) where
    A: Fn(u32, u32) -> u32,
    S: Fn(usize, u32, u32) -> u32,
    B: Fn(usize, Block) -> u32,
    L: Fn(usize, Block, u32) -> u32,
    M: Fn(usize, Block, u32) -> u32,

    ensures
        ({
            let step = source.visited(scoring, k, best, tid, range);
            &&& step.tally.scored + step.tally.dead <= 1
            &&& step.tally.dead == 1 <==> is_deleted(source, tid.key())
            &&& step.tally.scored == 0 ==> step.best == best
            &&& best.len() < k ==> step.tally.scored + step.tally.dead == 1 && step.best.len()
                == best.len() + step.tally.scored
            &&& best.len() < k && step.tally.scored == 1 ==> exists|row: Row|
                row.tid == tid && #[trigger] best.to_multiset().insert(row)
                    == step.best.to_multiset()
            &&& step.frontier == tid.key() + 1
        }),
{
    lemma_deleted(source, tid);
    let row = Row { score: source.score_of(scoring, source.document_of(tid)), tid };
    lemma_inserted(best, row);
    if best.len() < k && !source.dead@.contains(tid) {
        assert(best.to_multiset().insert(row) == source.visited(
            scoring,
            k,
            best,
            tid,
            range,
        ).best.to_multiset());
    }
}

proof fn lemma_deleted(source: Source, tid: Tid)
    ensures
        source.dead@.contains(tid) <==> is_deleted(source, tid.key()),
{
    if is_deleted(source, tid.key()) {
        let i = choose|i: int|
            0 <= i < source.dead@.len() && (#[trigger] source.dead@[i]).key() == tid.key();
        lemma_key_injective(source.dead@[i], tid);
        assert(source.dead@[i] == tid);
    }
    if source.dead@.contains(tid) {
        let i = choose|i: int| 0 <= i < source.dead@.len() && source.dead@[i] == tid;
        assert(source.dead@[i].key() == tid.key());
    }
}

/// The term's next location is the first that is not before the frontier.
proof fn lemma_next_at(term: TermPostings, max_offset: u16, frontier: int)
    requires
        term.ordered(max_offset),
    ensures
        match term.next_at(frontier) {
            Some(tid) => frontier <= tid.key() && is_in(term, tid.key()) && forall|key: int|
                frontier <= key && #[trigger] is_in(term, key) ==> tid.key() <= key,
            None => forall|key: int| frontier <= key ==> !#[trigger] is_in(term, key),
        },
{
    reveal(TermPostings::ordered);
    lemma_first(term.postings@, frontier, 0);
    if let Some(tid) = term.next_at(frontier) {
        let q = choose|q: int|
            #![trigger term.postings@[q]]
            0 <= q < term.postings@.len() && term.postings@[q].tid == tid && frontier
                <= tid.key() && forall|x: int|
                0 <= x < q ==> (#[trigger] term.postings@[x]).tid.key() < frontier;
        assert(term.postings@[q].tid.key() == tid.key());
        assert forall|key: int| frontier <= key && #[trigger] is_in(term, key) implies tid.key()
            <= key by {
            let other = choose|other: int|
                0 <= other < term.postings@.len() && (
                #[trigger] term.postings@[other]).tid.key() == key;
            if other > q {
                assert(term.postings[q].tid.key() < term.postings[other].tid.key());
            }
        }
    }
}

proof fn lemma_first(postings: Seq<Posting>, frontier: int, from: int)
    requires
        0 <= from <= postings.len(),
    ensures
        match first_from(postings, frontier, from) {
            Some(tid) => exists|q: int|
                #![trigger postings[q]]
                from <= q < postings.len() && postings[q].tid == tid && frontier <= tid.key()
                    && forall|x: int|
                    from <= x < q ==> (#[trigger] postings[x]).tid.key() < frontier,
            None => forall|x: int|
                from <= x < postings.len() ==> (#[trigger] postings[x]).tid.key() < frontier,
        },
    decreases postings.len() - from,
{
    if from < postings.len() {
        if frontier <= postings[from].tid.key() {
            assert(postings[from].tid == first_from(postings, frontier, from)->0);
        } else {
            lemma_first(postings, frontier, from + 1);
            if let Some(tid) = first_from(postings, frontier, from + 1) {
                let q = choose|q: int|
                    #![trigger postings[q]]
                    from + 1 <= q < postings.len() && postings[q].tid == tid && frontier
                        <= tid.key() && forall|x: int|
                        from + 1 <= x < q ==> (#[trigger] postings[x]).tid.key() < frontier;
                assert(postings[q].tid == tid);
            }
        }
    }
}

proof fn lemma_places_finite(source: Source, combine: Combine, frontier: int, deleted: bool)
    requires
        0 <= frontier,
    ensures
        places(source, combine, frontier, deleted).finite(),
{
    lemma_int_range(0, beyond());
    lemma_len_subset(places(source, combine, frontier, deleted), set_int_range(0, beyond()));
}

/// Between two frontiers with no candidate there is nothing to count.
proof fn lemma_nothing_between(source: Source, combine: Combine, from: int, to: int, deleted: bool)
    requires
        from <= to,
        forall|key: int| from <= key < to ==> !#[trigger] is_candidate(source, combine, key),
    ensures
        places(source, combine, from, deleted) == places(source, combine, to, deleted),
{
    assert(places(source, combine, from, deleted) =~= places(source, combine, to, deleted));
}

/// A candidate is the only one of its place.
proof fn lemma_one_place(source: Source, combine: Combine, key: int, deleted: bool)
    requires
        0 <= key < beyond(),
        is_candidate(source, combine, key),
    ensures
        places(source, combine, key, deleted).len() == places(
            source,
            combine,
            key + 1,
            deleted,
        ).len() + if is_deleted(source, key) == deleted {
            1int
        } else {
            0
        },
{
    let rest = places(source, combine, key + 1, deleted);
    lemma_places_finite(source, combine, key + 1, deleted);
    if is_deleted(source, key) == deleted {
        assert(places(source, combine, key, deleted) =~= rest.insert(key));
    } else {
        assert(places(source, combine, key, deleted) =~= rest);
    }
}

proof fn lemma_no_places(source: Source, combine: Combine, frontier: int, deleted: bool)
    requires
        forall|key: int| frontier <= key ==> !#[trigger] is_candidate(source, combine, key),
    ensures
        places(source, combine, frontier, deleted).len() == 0,
{
    assert(places(source, combine, frontier, deleted) =~= Set::empty());
}

/// The term whose next location is the first.
proof fn lemma_least_next(source: Source, frontier: int, upto: int) -> (least: Option<int>)
    requires
        0 <= upto <= source.terms@.len(),
    ensures
        match least {
            Some(i) => 0 <= i < upto && source.terms@[i].next_at(frontier) is Some && forall|j: int|
                0 <= j < upto ==> (#[trigger] source.terms@[j].next_at(frontier) matches Some(tid)
                    ==> (source.terms@[i].next_at(frontier)->0).key() <= tid.key()),
            None => forall|j: int|
                0 <= j < upto ==> #[trigger] source.terms@[j].next_at(frontier) is None,
        },
    decreases upto,
{
    if upto == 0 {
        None
    } else {
        let before = lemma_least_next(source, frontier, upto - 1);
        match (before, source.terms@[upto - 1].next_at(frontier)) {
            (_, None) => before,
            (None, Some(_)) => Some(upto - 1),
            (Some(i), Some(tid)) => if (source.terms@[i].next_at(frontier)->0).key()
                <= tid.key() {
                before
            } else {
                Some(upto - 1)
            },
        }
    }
}

proof fn lemma_any_step<A, S, B, L, M>(
    source: Source,
    scoring: Scoring<A, S, B, L, M>,
    k: nat,
    max_offset: u16,
    best: Seq<Row>,
    frontier: int,
) where
    A: Fn(u32, u32) -> u32,
    S: Fn(usize, u32, u32) -> u32,
    B: Fn(usize, Block) -> u32,
    L: Fn(usize, Block, u32) -> u32,
    M: Fn(usize, Block, u32) -> u32,

    requires
        source.ordered(max_offset),
        best.len() < k,
    ensures
        match source.any_step(scoring, k, max_offset, best, frontier) {
            None => forall|key: int|
                frontier <= key ==> !#[trigger] is_candidate(source, Combine::Any, key),
            Some(step) => exists|pivot: Tid| #[trigger]
                source.visited(scoring, k, best, pivot, None) == step && frontier <= pivot.key()
                    && is_candidate(source, Combine::Any, pivot.key()) && forall|key: int|
                    frontier <= key < pivot.key() ==> !#[trigger] is_candidate(
                        source,
                        Combine::Any,
                        key,
                    ),
        },
{
    reveal(Source::any_step);
    assert forall|i: int| 0 <= i < source.terms@.len() implies match (
    #[trigger] source.terms@[i]).next_at(frontier) {
        Some(tid) => frontier <= tid.key() && is_in(source.terms@[i], tid.key()) && forall|key: int|
            frontier <= key && #[trigger] is_in(source.terms@[i], key) ==> tid.key() <= key,
        None => forall|key: int| frontier <= key ==> !#[trigger] is_in(source.terms@[i], key),
    } by {
        assert(source.terms[i].ordered(max_offset));
        lemma_next_at(source.terms@[i], max_offset, frontier);
    }
    match lemma_least_next(source, frontier, source.terms@.len() as int) {
        None => {
            assert forall|key: int| frontier <= key implies !#[trigger] is_candidate(
                source,
                Combine::Any,
                key,
            ) by {
                if is_candidate(source, Combine::Any, key) {
                    let i = choose|i: int|
                        0 <= i < source.terms@.len() && is_in(#[trigger] source.terms@[i], key);
                    assert(source.terms@[i].next_at(frontier) is None);
                }
            }
            if let Some(pivot) = source.pivot_of(scoring, k, best, frontier) {
                assert(source.is_pivot(scoring, k, best, frontier, pivot));
                let i = choose|i: int|
                    0 <= i < source.terms.len() && #[trigger] source.terms[i].next_at(frontier)
                        == Some(pivot);
                assert(source.terms@[i].next_at(frontier) is None);
            }
        },
        Some(i) => {
            let least = source.terms@[i].next_at(frontier)->0;
            assert(source.terms[i].next_at(frontier) == Some(least));
            assert(source.is_pivot(scoring, k, best, frontier, least)) by {
                assert forall|j: int| 0 <= j < source.terms.len() implies (
                #[trigger] source.terms[j].next_at(frontier) matches Some(tid) ==> tid.key()
                    < least.key() ==> !source.reaches(scoring, k, best, frontier, tid.key())) by {
                    assert(source.terms@[j].next_at(frontier) == source.terms[j].next_at(frontier));
                }
            }
            let pivot = source.pivot_of(scoring, k, best, frontier)->0;
            assert(source.is_pivot(scoring, k, best, frontier, pivot));
            let x = choose|x: int|
                0 <= x < source.terms.len() && #[trigger] source.terms[x].next_at(frontier) == Some(
                    pivot,
                );
            assert(source.terms@[x].next_at(frontier) == Some(pivot));
            assert(source.reaches(scoring, k, best, frontier, least.key()));
            assert(pivot.key() == least.key());
            lemma_key_injective(pivot, least);
            assert forall|j: int| 0 <= j < source.terms.len() implies !#[trigger] source.in_reach(
                j,
                frontier,
                pivot.key() - 1,
            ) by {
                assert(source.terms@[j].next_at(frontier) == source.terms[j].next_at(frontier));
            }
            assert(is_in(source.terms@[i], least.key()));
            assert forall|key: int| frontier <= key < pivot.key() implies !#[trigger] is_candidate(
                source,
                Combine::Any,
                key,
            ) by {
                if is_candidate(source, Combine::Any, key) {
                    let j = choose|j: int|
                        0 <= j < source.terms@.len() && is_in(#[trigger] source.terms@[j], key);
                    assert(source.terms@[j].next_at(frontier) is Some);
                }
            }
            assert(source.visited(scoring, k, best, pivot, None) == source.any_step(
                scoring,
                k,
                max_offset,
                best,
                frontier,
            )->0);
        },
    }
}

proof fn lemma_any_tally<A, S, B, L, M>(
    source: Source,
    scoring: Scoring<A, S, B, L, M>,
    k: nat,
    max_offset: u16,
    best: Seq<Row>,
    frontier: int,
) where
    A: Fn(u32, u32) -> u32,
    S: Fn(usize, u32, u32) -> u32,
    B: Fn(usize, Block) -> u32,
    L: Fn(usize, Block, u32) -> u32,
    M: Fn(usize, Block, u32) -> u32,

    requires
        source.ordered(max_offset),
        0 <= frontier,
        best.len() + places(source, Combine::Any, frontier, false).len() < k,
    ensures
        source.any_tally(scoring, k, max_offset, best, frontier).scored == places(
            source,
            Combine::Any,
            frontier,
            false,
        ).len(),
        source.any_tally(scoring, k, max_offset, best, frontier).dead == places(
            source,
            Combine::Any,
            frontier,
            true,
        ).len(),
    decreases
            (if frontier < beyond() {
                beyond() - frontier
            } else {
                0
            }),
{
    lemma_any_step(source, scoring, k, max_offset, best, frontier);
    match source.any_step(scoring, k, max_offset, best, frontier) {
        None => {
            lemma_no_places(source, Combine::Any, frontier, false);
            lemma_no_places(source, Combine::Any, frontier, true);
        },
        Some(step) => {
            let pivot = choose|pivot: Tid| #[trigger]
                source.visited(scoring, k, best, pivot, None) == step && frontier <= pivot.key()
                    && is_candidate(source, Combine::Any, pivot.key()) && forall|key: int|
                    frontier <= key < pivot.key() ==> !#[trigger] is_candidate(
                        source,
                        Combine::Any,
                        key,
                    );
            law_a_candidate_is_counted_once(source, scoring, k, best, pivot, None);
            lemma_nothing_between(source, Combine::Any, frontier, pivot.key(), false);
            lemma_nothing_between(source, Combine::Any, frontier, pivot.key(), true);
            lemma_one_place(source, Combine::Any, pivot.key(), false);
            lemma_one_place(source, Combine::Any, pivot.key(), true);
            lemma_any_tally(source, scoring, k, max_offset, step.best, step.frontier);
        },
    }
}

proof fn lemma_some_lead(source: Source, upto: int) -> (lead: int)
    requires
        0 < upto <= source.terms@.len(),
    ensures
        0 <= lead < upto,
        forall|i: int| 0 <= i < upto && i != lead ==> source.decoded_first(lead, i),
    decreases upto,
{
    if upto == 1 {
        0
    } else {
        let before = lemma_some_lead(source, upto - 1);
        if source.decoded_first(before, upto - 1) {
            before
        } else {
            let last = upto - 1;
            assert forall|i: int| 0 <= i < last implies source.decoded_first(last, i) by {
                if i != before {
                    assert(source.decoded_first(before, i));
                }
            }
            last
        }
    }
}

proof fn lemma_absent(source: Source, lead: int, pivot: Tid, i: int)
    requires
        0 <= i <= source.terms@.len(),
    ensures
        match source.absent_from(lead, pivot, i) {
            Some(x) => i <= x < source.terms@.len() && source.terms@[x].next_at(pivot.key()) != Some(
                pivot,
            ),
            None => forall|j: int|
                i <= j < source.terms@.len() && j != lead ==> #[trigger] source.terms@[j].next_at(
                    pivot.key(),
                ) == Some(pivot),
        },
    decreases source.terms@.len() - i,
{
    if i < source.terms@.len() {
        lemma_absent(source, lead, pivot, i + 1);
    }
}

/// A conjunction's step either looks at a candidate or passes by none.
proof fn lemma_all_step<A, S, B, L, M>(
    source: Source,
    scoring: Scoring<A, S, B, L, M>,
    k: nat,
    max_offset: u16,
    best: Seq<Row>,
    frontier: int,
    range: Option<(Tid, u32)>,
) where
    A: Fn(u32, u32) -> u32,
    S: Fn(usize, u32, u32) -> u32,
    B: Fn(usize, Block) -> u32,
    L: Fn(usize, Block, u32) -> u32,
    M: Fn(usize, Block, u32) -> u32,

    requires
        source.ordered(max_offset),
        source.terms@.len() > 0,
        best.len() < k,
    ensures
        match source.all_step(scoring, k, max_offset, best, frontier, range) {
            None => forall|key: int|
                frontier <= key ==> !#[trigger] is_candidate(source, Combine::All, key),
            Some(step) => {
                ||| exists|pivot: Tid| #[trigger]
                    source.visited(scoring, k, best, pivot, step.range) == step && frontier
                        <= pivot.key() && is_candidate(source, Combine::All, pivot.key())
                        && forall|key: int|
                        frontier <= key < pivot.key() ==> !#[trigger] is_candidate(
                            source,
                            Combine::All,
                            key,
                        )
                ||| step.best == best && step.tally == Tally::nothing() && frontier < step.frontier
                    <= beyond() && forall|key: int|
                    frontier <= key < step.frontier ==> !#[trigger] is_candidate(
                        source,
                        Combine::All,
                        key,
                    )
            },
        },
{
    reveal(Source::all_step);
    let some = lemma_some_lead(source, source.terms@.len() as int);
    assert(source.is_lead(some));
    let lead = source.lead();
    assert(source.is_lead(lead));
    assert(source.terms[lead].ordered(max_offset));
    lemma_next_at(source.terms@[lead], max_offset, frontier);
    match source.terms[lead].next_at(frontier) {
        None => {
            assert forall|key: int| frontier <= key implies !#[trigger] is_candidate(
                source,
                Combine::All,
                key,
            ) by {
                assert(!is_in(source.terms@[lead], key));
            }
        },
        Some(pivot) => {
            lemma_absent(source, lead, pivot, 0);
            match source.absent_from(lead, pivot, 0) {
                Some(i) => {
                    assert(source.terms[i].ordered(max_offset));
                    lemma_next_at(source.terms@[i], max_offset, pivot.key());
                    let next = source.terms@[i].next_at(pivot.key());
                    if let Some(found) = next {
                        lemma_key_injective(found, pivot);
                    }
                    assert forall|key: int|
                        frontier <= key && (next matches Some(found) ==> key
                            < found.key()) implies !#[trigger] is_candidate(
                        source,
                        Combine::All,
                        key,
                    ) by {
                        if key < pivot.key() {
                            assert(!is_in(source.terms@[lead], key));
                        } else {
                            assert(!is_in(source.terms@[i], key));
                        }
                    }
                },
                None => {
                    assert forall|j: int| 0 <= j < source.terms@.len() implies is_in(
                        #[trigger] source.terms@[j],
                        pivot.key(),
                    ) by {
                        if j != lead {
                            assert(source.terms@[j].next_at(pivot.key()) == Some(pivot));
                            assert(source.terms[j].ordered(max_offset));
                            lemma_next_at(source.terms@[j], max_offset, pivot.key());
                        }
                    }
                    assert forall|key: int|
                        frontier <= key < pivot.key() implies !#[trigger] is_candidate(
                        source,
                        Combine::All,
                        key,
                    ) by {
                        assert(!is_in(source.terms@[lead], key));
                    }
                    let step = source.all_step(scoring, k, max_offset, best, frontier, range)->0;
                    assert(source.visited(scoring, k, best, pivot, step.range) == step);
                },
            }
        },
    }
}

proof fn lemma_all_tally<A, S, B, L, M>(
    source: Source,
    scoring: Scoring<A, S, B, L, M>,
    k: nat,
    max_offset: u16,
    best: Seq<Row>,
    frontier: int,
    range: Option<(Tid, u32)>,
) where
    A: Fn(u32, u32) -> u32,
    S: Fn(usize, u32, u32) -> u32,
    B: Fn(usize, Block) -> u32,
    L: Fn(usize, Block, u32) -> u32,
    M: Fn(usize, Block, u32) -> u32,

    requires
        source.ordered(max_offset),
        source.terms@.len() > 0,
        0 <= frontier,
        best.len() + places(source, Combine::All, frontier, false).len() < k,
    ensures
        source.all_tally(scoring, k, max_offset, best, frontier, range).scored == places(
            source,
            Combine::All,
            frontier,
            false,
        ).len(),
        source.all_tally(scoring, k, max_offset, best, frontier, range).dead == places(
            source,
            Combine::All,
            frontier,
            true,
        ).len(),
    decreases
            (if frontier < beyond() {
                beyond() - frontier
            } else {
                0
            }),
{
    lemma_all_step(source, scoring, k, max_offset, best, frontier, range);
    match source.all_step(scoring, k, max_offset, best, frontier, range) {
        None => {
            lemma_no_places(source, Combine::All, frontier, false);
            lemma_no_places(source, Combine::All, frontier, true);
        },
        Some(step) => {
            if step.best == best && step.tally == Tally::nothing() && frontier < step.frontier
                <= beyond() && (forall|key: int|
                frontier <= key < step.frontier ==> !#[trigger] is_candidate(
                    source,
                    Combine::All,
                    key,
                )) {
                lemma_nothing_between(source, Combine::All, frontier, step.frontier, false);
                lemma_nothing_between(source, Combine::All, frontier, step.frontier, true);
            } else {
                let pivot = choose|pivot: Tid| #[trigger]
                    source.visited(scoring, k, best, pivot, step.range) == step && frontier
                        <= pivot.key() && is_candidate(source, Combine::All, pivot.key())
                        && forall|key: int|
                        frontier <= key < pivot.key() ==> !#[trigger] is_candidate(
                            source,
                            Combine::All,
                            key,
                        );
                law_a_candidate_is_counted_once(source, scoring, k, best, pivot, step.range);
                lemma_nothing_between(source, Combine::All, frontier, pivot.key(), false);
                lemma_nothing_between(source, Combine::All, frontier, pivot.key(), true);
                lemma_one_place(source, Combine::All, pivot.key(), false);
                lemma_one_place(source, Combine::All, pivot.key(), true);
            }
            lemma_all_tally(source, scoring, k, max_offset, step.best, step.frontier, step.range);
        },
    }
}

/// A walk that wants more rows than there are leaves nothing out: it scores every
/// candidate that is not deleted, and counts every one that is.
pub proof fn law_a_walk_that_wants_all_looks_at_all<A, S, B, L, M>(
    source: Source,
    scoring: Scoring<A, S, B, L, M>,
    combine: Combine,
    k: nat,
    max_offset: u16,
    best: Seq<Row>,
) where
    A: Fn(u32, u32) -> u32,
    S: Fn(usize, u32, u32) -> u32,
    B: Fn(usize, Block) -> u32,
    L: Fn(usize, Block, u32) -> u32,
    M: Fn(usize, Block, u32) -> u32,

    requires
        source.ordered(max_offset),
        source.terms@.len() > 0,
        best.len() + places(source, combine, 0, false).len() < k,
    ensures
        source.tally(scoring, combine, k, max_offset, best).scored == places(
            source,
            combine,
            0,
            false,
        ).len(),
        source.tally(scoring, combine, k, max_offset, best).dead == places(
            source,
            combine,
            0,
            true,
        ).len(),
{
    match combine {
        Combine::Any => lemma_any_tally(source, scoring, k, max_offset, best, 0),
        Combine::All => lemma_all_tally(source, scoring, k, max_offset, best, 0, None),
    }
}

} // verus!
