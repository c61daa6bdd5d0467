//! The execution of a search scan: which rows it emits, and in what order.

use crate::fx::{fx_set, fx_set_contains, fx_set_insert};
use crate::ranking::{
    at_most, in_rank_order, law_ranked, law_ranked_ignores_arrival, lemma_order_unique, ranked,
    ranks_before, sort_rows, Row,
};
use crate::tid::Tid;
use crate::top_k::{locations_distinct, TopK, WalkEvent};
use rustc_hash::FxBuildHasher;
use std::collections::HashSet;
use vstd::prelude::*;

verus! {

/// Work done by a scan, cumulative across rescans.
#[derive(Clone, Copy, Debug, PartialEq, Eq, Structural)]
pub struct Counters {
    /// Calls made by exhaustive ranking, not by the pruned walk.
    pub exhaustive_score_calls: usize,
    pub top_k_completions: usize,
    pub fetched: usize,
    pub skipped_pages: usize,
    pub segments_visited_immutable: usize,
    pub segments_visited_buffer: usize,
    /// Clause evaluations that exist only because the plan was inexact.
    pub heap_rechecks: usize,
    /// Candidates dropped by a dead list or by an all-dead chain.
    pub dead_skipped: usize,
    pub stream_visits: usize,
}

/// State of a search or count scan.
#[derive(Debug)]
pub struct ScanExec {
    /// The scan emits rows in score order.
    pub ordered: bool,
    /// Rows the query will consume, when that is known.
    pub top_k: Option<usize>,
    /// The scan counts its candidates and emits no rows.
    pub is_count: bool,
    /// The query text is a parameter, evaluated at the first access.
    pub runtime_query: bool,
    /// The limit is a parameter, evaluated at the first access.
    pub runtime_limit: bool,
    pub query_bound: bool,
    pub bounds_bound: bool,
    pub query_null: bool,
    /// Whether this execution scans the heap instead of the index, decided
    /// once.
    pub heap_fallback: Option<bool>,
    /// Some candidate came from an inexact plan and must pass the clause.
    pub recheck: bool,
    /// Candidates; in an ordered scan, scored.
    pub rows: Vec<Row>,
    /// The candidates come from a stream instead; whether it needs rechecks.
    pub stream: Option<bool>,
    /// How many of `rows` are in output order; the rest are sorted if ever
    /// reached.
    pub sorted: usize,
    pub next: usize,
    pub started: bool,
    /// `rows` holds only the pruned best; the rest are produced on demand.
    pub pruned: bool,
    /// Unknown while pruned.
    pub candidates: Option<usize>,
    /// The candidates a pruned scan scored.
    pub scored: Option<usize>,
    pub page_masks: Option<bool>,
    /// The rows that a count scan has counted.
    pub count: i64,
    pub counters: Counters,
}

/// The first `sorted` of `rows` are the ones that come first in output order,
/// in that order.
pub open spec fn sorted_prefix(rows: Seq<Row>, sorted: int) -> bool {
    &&& 0 <= sorted <= rows.len()
    &&& in_rank_order(rows.take(sorted))
    &&& forall|i: int, j: int|
        0 <= i < sorted <= j < rows.len() ==> !ranks_before(#[trigger] rows[j], #[trigger] rows[i])
}

/// What is in place stays in place when the rest is sorted.
pub proof fn lemma_sorted_prefix(rows: Seq<Row>, sorted: int)
    requires
        sorted_prefix(rows, sorted),
    ensures
        ranked(rows) == rows.take(sorted) + ranked(rows.skip(sorted)),
{
    broadcast use vstd::seq_lib::group_to_multiset_ensures;

    let head = rows.take(sorted);
    let tail = rows.skip(sorted);
    law_ranked(rows);
    law_ranked(tail);
    let all = head + ranked(tail);
    vstd::seq_lib::lemma_multiset_commutative(head, ranked(tail));
    vstd::seq_lib::lemma_multiset_commutative(head, tail);
    assert(head + tail =~= rows);
    assert(all.to_multiset() =~= rows.to_multiset());
    assert forall|i: int, j: int| 0 <= i < j < all.len() implies !ranks_before(all[j], all[i]) by {
        if i < sorted && j >= sorted {
            let row = ranked(tail)[j - sorted];
            assert(ranked(tail).to_multiset().contains(row));
            assert(tail.to_multiset().contains(row));
            let t = choose|t: int| 0 <= t < tail.len() && tail[t] == row;
            assert(tail.contains(row));
            assert(rows[sorted + t] == row);
            assert(!ranks_before(rows[sorted + t], rows[i]));
        } else if j < sorted {
            assert(!ranks_before(head[j], head[i]));
        } else {
            assert(!ranks_before(ranked(tail)[j - sorted], ranked(tail)[i - sorted]));
        }
    }
    lemma_order_unique(all, ranked(rows));
}

/// The rows whose locations are not among `gone`.
pub open spec fn without(rows: Seq<Row>, gone: Set<Tid>) -> Seq<Row>
    decreases rows.len(),
{
    if rows.len() == 0 {
        rows
    } else {
        let before = without(rows.drop_last(), gone);
        if gone.contains(rows.last().tid) {
            before
        } else {
            before.push(rows.last())
        }
    }
}

/// The locations of `rows`.
pub open spec fn locations(rows: Seq<Row>) -> Set<Tid> {
    Set::new(|tid: Tid| exists|i: int| 0 <= i < rows.len() && (#[trigger] rows[i]).tid == tid)
}

proof fn lemma_without(rows: Seq<Row>, gone: Set<Tid>)
    ensures
        without(rows, gone).len() <= rows.len(),
        forall|row: Row| #[trigger]
            without(rows, gone).to_multiset().count(row) == if gone.contains(row.tid) {
                0
            } else {
                rows.to_multiset().count(row)
            },
        forall|row: Row| #[trigger]
            without(rows, gone).contains(row) <==> rows.contains(row) && !gone.contains(row.tid),
        in_rank_order(rows) ==> in_rank_order(without(rows, gone)),
    decreases rows.len(),
{
    broadcast use vstd::seq_lib::group_to_multiset_ensures;

    let kept = without(rows, gone);
    if rows.len() > 0 {
        let rest = rows.drop_last();
        lemma_without(rest, gone);
        assert(rows =~= rest.push(rows.last()));
        let before = without(rest, gone);
        assert forall|row: Row| #[trigger] kept.contains(row) <==> rows.contains(row)
            && !gone.contains(row.tid) by {
            assert(before.contains(row) <==> rest.contains(row) && !gone.contains(row.tid));
            assert(rows.to_multiset().count(row) == rest.to_multiset().insert(rows.last()).count(
                row,
            ));
            assert(rows.contains(row) <==> rows.to_multiset().count(row) > 0);
            assert(rest.contains(row) <==> rest.to_multiset().count(row) > 0);
            assert(kept.contains(row) <==> kept.to_multiset().count(row) > 0);
            assert(before.contains(row) <==> before.to_multiset().count(row) > 0);
        }
        if in_rank_order(rows) {
            assert forall|i: int, j: int| 0 <= i < j < kept.len() implies !ranks_before(
                kept[j],
                kept[i],
            ) by {
                if j == before.len() {
                    assert(before.contains(kept[i]));
                    assert(rest.contains(kept[i]));
                    let x = choose|x: int| 0 <= x < rest.len() && rest[x] == kept[i];
                    assert(!ranks_before(rows[rows.len() - 1], rows[x]));
                } else {
                    assert(!ranks_before(before[j], before[i]));
                }
            }
        }
    }
}

proof fn lemma_without_concat(a: Seq<Row>, b: Seq<Row>, gone: Set<Tid>)
    ensures
        without(a + b, gone) == without(a, gone) + without(b, gone),
    decreases b.len(),
{
    if b.len() == 0 {
        assert(a + b =~= a);
        assert(without(a, gone) + without(b, gone) =~= without(a, gone));
    } else {
        assert((a + b).drop_last() =~= a + b.drop_last());
        lemma_without_concat(a, b.drop_last(), gone);
        assert(without(a, gone) + without(b, gone) =~= without(a + b, gone));
    }
}

proof fn lemma_without_prefix(rows: Seq<Row>, sorted: int, gone: Set<Tid>)
    requires
        sorted_prefix(rows, sorted),
    ensures
        sorted_prefix(without(rows, gone), without(rows.take(sorted), gone).len() as int),
{
    let head = rows.take(sorted);
    let tail = rows.skip(sorted);
    assert(head + tail =~= rows);
    lemma_without_concat(head, tail, gone);
    lemma_without(head, gone);
    lemma_without(tail, gone);
    let kept = without(rows, gone);
    let n = without(head, gone).len() as int;
    assert(kept.take(n) =~= without(head, gone));
    assert forall|i: int, j: int| 0 <= i < n <= j < kept.len() implies !ranks_before(
        #[trigger] kept[j],
        #[trigger] kept[i],
    ) by {
        assert(without(head, gone).contains(kept[i]));
        assert(without(tail, gone)[j - n] == kept[j]);
        assert(without(tail, gone).contains(kept[j]));
        assert(head.contains(kept[i]));
        assert(tail.contains(kept[j]));
        let x = choose|x: int| 0 <= x < head.len() && head[x] == kept[i];
        let y = choose|y: int| 0 <= y < tail.len() && tail[y] == kept[j];
        assert(!ranks_before(rows[sorted + y], rows[x]));
    }
}

/// A pruned scan that is read on emits every row once, in output order: the
/// best rows, then what the complete ordering holds without them.
pub proof fn law_completion_resumes(rows: Seq<Row>, k: nat)
    requires
        locations_distinct(rows),
    ensures
        ({
            let best = at_most(k, ranked(rows));
            best + ranked(without(rows, locations(best))) == ranked(rows)
        }),
{
    broadcast use vstd::seq_lib::group_to_multiset_ensures;

    let best = at_most(k, ranked(rows));
    let gone = locations(best);
    let rest = without(rows, gone);
    law_ranked(rows);
    law_ranked(rest);
    lemma_without(rows, gone);
    let all = best + ranked(rest);
    vstd::seq_lib::lemma_multiset_commutative(best, ranked(rest));
    let n = best.len() as int;
    let tail = ranked(rows).skip(n);
    assert(best =~= ranked(rows).take(n));
    assert(best + tail =~= ranked(rows));
    vstd::seq_lib::lemma_multiset_commutative(best, tail);
    assert forall|row: Row| #[trigger] rest.to_multiset().count(row) == tail.to_multiset().count(
        row,
    ) by {
        let total = rows.to_multiset().count(row);
        assert(total == best.to_multiset().count(row) + tail.to_multiset().count(row));
        assert(total <= 1) by {
            lemma_distinct_once(rows, row);
        }
        if gone.contains(row.tid) {
            let i = choose|i: int| 0 <= i < best.len() && (#[trigger] best[i]).tid == row.tid;
            if total == 1 {
                assert(rows.contains(row));
                assert(ranked(rows)[i] == best[i]);
                assert(ranked(rows).to_multiset().contains(best[i]));
                assert(rows.contains(best[i]));
                let x = choose|x: int| 0 <= x < rows.len() && rows[x] == row;
                let y = choose|y: int| 0 <= y < rows.len() && rows[y] == best[i];
                assert(x == y) by {
                    if x < y {
                        assert(rows[x].tid != rows[y].tid);
                    } else if y < x {
                        assert(rows[y].tid != rows[x].tid);
                    }
                }
                assert(best.contains(row));
                assert(best.to_multiset().count(row) > 0);
            }
        } else {
            if best.to_multiset().count(row) > 0 {
                assert(best.contains(row));
                let i = choose|i: int| 0 <= i < best.len() && best[i] == row;
                assert(gone.contains(row.tid));
            }
        }
    }
    assert(rest.to_multiset() =~= tail.to_multiset());
    assert(all.to_multiset() =~= ranked(rows).to_multiset());
    assert(in_rank_order(tail)) by {
        assert forall|i: int, j: int| 0 <= i < j < tail.len() implies !ranks_before(
            tail[j],
            tail[i],
        ) by {
            assert(!ranks_before(ranked(rows)[n + j], ranked(rows)[n + i]));
        }
    }
    lemma_order_unique(tail, ranked(rest));
}

proof fn lemma_distinct_once(rows: Seq<Row>, row: Row)
    requires
        locations_distinct(rows),
    ensures
        rows.to_multiset().count(row) <= 1,
{
    assert(rows.no_duplicates()) by {
        assert forall|i: int, j: int| 0 <= i < rows.len() && 0 <= j < rows.len() && i != j implies rows[i]
            != rows[j] by {
            if i < j {
                assert(rows[i].tid != rows[j].tid);
            } else {
                assert(rows[j].tid != rows[i].tid);
            }
        }
    }
    rows.lemma_multiset_has_no_duplicates();
    if rows.to_multiset().count(row) > 0 {
        assert(rows.to_multiset().contains(row));
    }
}

/// The rows a query with these limits consumes, when that is a number.
pub open spec fn hinted_top_k(limit: Option<i64>, offset: Option<i64>) -> Option<usize> {
    match limit {
        None => None,
        Some(count) => {
            let skipped: int = match offset {
                Some(n) => n as int,
                None => 0,
            };
            if count < 0 || skipped < 0 || count + skipped > i64::MAX || count + skipped
                > usize::MAX {
                None
            } else {
                Some((count + skipped) as usize)
            }
        },
    }
}

/// A checked hint, never a truncation: visibility checks or remaining quals
/// can reject the first rows, and then the complete ordering supplies more.
pub fn runtime_top_k(limit: Option<i64>, offset: Option<i64>) -> (top_k: Option<usize>)
    ensures
        top_k == hinted_top_k(limit, offset),
{
    let count: i64 = match limit {
        Some(count) => count,
        None => {
            return None;
        },
    };
    let skipped: i64 = match offset {
        Some(skipped) => skipped,
        None => 0,
    };
    if count < 0 || skipped < 0 {
        return None;
    }
    let total: i64 = match count.checked_add(skipped) {
        Some(total) => total,
        None => {
            return None;
        },
    };
    if total as u64 > usize::MAX as u64 {
        return None;
    }
    Some(total as usize)
}

/// What a search scan does next.
#[derive(Clone, Copy, Debug, PartialEq, Eq, Structural)]
pub enum Access {
    /// Evaluate the query parameter, and bind it.
    BindQuery,
    /// Evaluate the limit parameters, and bind them.
    BindBounds,
    /// Find out whether the index can be read, and decide on it.
    ProbeIndex,
    /// Read the next matching row off the heap.
    Fallback,
    /// Gather the candidates.
    Gather,
    /// Open the stream of candidates.
    StartStream,
    /// Take the next candidate of the stream.
    StreamNext,
    /// Replace the pruned best rows with the complete ordering.
    Complete,
    /// Fetch the candidate at this location.
    Fetch(Tid),
    /// There are no more rows.
    Done,
}

/// What becomes of a fetched candidate.
#[derive(Clone, Copy, Debug, PartialEq, Eq, Structural)]
pub enum Fetched {
    /// The row is emitted.
    Emit,
    /// The row is emitted if it passes the clause.
    Recheck,
    /// The chain has another member to try.
    Again,
    /// On to the next candidate.
    Skip,
}

/// No work done yet.
pub open spec fn no_work() -> Counters {
    Counters {
        exhaustive_score_calls: 0,
        top_k_completions: 0,
        fetched: 0,
        skipped_pages: 0,
        segments_visited_immutable: 0,
        segments_visited_buffer: 0,
        heap_rechecks: 0,
        dead_skipped: 0,
        stream_visits: 0,
    }
}

/// How many of `events` say that a candidate was dropped.
pub open spec fn dropped(events: Seq<WalkEvent>) -> nat
    decreases events.len(),
{
    if events.len() == 0 {
        0
    } else {
        dropped(events.drop_last()) + if events.last() is DeadSkipped {
            1nat
        } else {
            0nat
        }
    }
}

/// How many of `events` say that a source of the given kind was opened.
pub open spec fn visited(events: Seq<WalkEvent>, immutable: bool) -> nat
    decreases events.len(),
{
    if events.len() == 0 {
        0
    } else {
        visited(events.drop_last(), immutable) + if events.last() == (WalkEvent::SourceOpened {
            immutable,
        }) {
            1nat
        } else {
            0nat
        }
    }
}

impl ScanExec {
    /// The rows in place are the first of the output, and reading has not
    /// gone past them.
    pub open spec fn valid(self) -> bool {
        &&& self.ordered ==> sorted_prefix(self.rows@, self.sorted as int)
        &&& !self.is_count ==> self.next <= self.rows.len()
        &&& self.pruned ==> self.ordered
        &&& !self.ordered ==> self.rows.len() == 0
    }

    /// The rows still to come, in order, before any completion.
    pub open spec fn coming(self) -> Seq<Row> {
        ranked(self.rows@).skip(self.next as int)
    }

    /// Everything but the work counters is as in `other`.
    pub open spec fn same_but_counters(self, other: Self) -> bool {
        self == (ScanExec { counters: self.counters, ..other })
    }

    /// A scan that has not started.
    pub fn begin(
        ordered: bool,
        top_k: Option<usize>,
        is_count: bool,
        runtime_query: bool,
        runtime_limit: bool,
    ) -> (scan: Self)
        ensures
            scan.valid(),
            scan.ordered == ordered,
            scan.top_k == top_k,
            scan.is_count == is_count,
            scan.runtime_query == runtime_query,
            scan.runtime_limit == runtime_limit,
            scan.query_bound == !runtime_query,
            scan.bounds_bound == !runtime_limit,
            !scan.query_null && !scan.recheck && !scan.started && !scan.pruned,
            scan.heap_fallback is None,
            scan.rows@ == Seq::<Row>::empty(),
            scan.stream is None,
            scan.sorted == 0 && scan.next == 0,
            scan.candidates is None && scan.scored is None && scan.page_masks is None,
            scan.count == 0,
            scan.counters == no_work(),
    {
        ScanExec {
            ordered,
            top_k,
            is_count,
            runtime_query,
            runtime_limit,
            query_bound: !runtime_query,
            bounds_bound: !runtime_limit,
            query_null: false,
            heap_fallback: None,
            recheck: false,
            rows: Vec::new(),
            stream: None,
            sorted: 0,
            next: 0,
            started: false,
            pruned: false,
            candidates: None,
            scored: None,
            page_masks: None,
            count: 0,
            counters: Counters {
                exhaustive_score_calls: 0,
                top_k_completions: 0,
                fetched: 0,
                skipped_pages: 0,
                segments_visited_immutable: 0,
                segments_visited_buffer: 0,
                heap_rechecks: 0,
                dead_skipped: 0,
                stream_visits: 0,
            },
        }
    }

    /// Takes the value of the query parameter: whether it is NULL.
    pub fn bind_query(&mut self, null: bool)
        ensures
            *final(self) == (ScanExec { query_null: null, query_bound: true, ..*old(self) }),
    {
        self.query_null = null;
        self.query_bound = true;
    }

    /// Takes the values of the limit parameters; a scan that has them bound
    /// keeps what it has.
    pub fn bind_bounds(&mut self, limit: Option<i64>, offset: Option<i64>)
        ensures
            old(self).bounds_bound ==> *final(self) == *old(self),
            !old(self).bounds_bound ==> *final(self) == (ScanExec {
                bounds_bound: true,
                top_k: if old(self).ordered {
                    hinted_top_k(limit, offset)
                } else {
                    old(self).top_k
                },
                ..*old(self)
            }),
    {
        if self.bounds_bound {
            return;
        }
        if self.ordered {
            self.top_k = runtime_top_k(limit, offset);
        }
        self.bounds_bound = true;
    }

    /// Decides, once for the execution, whether it reads the heap instead of
    /// the index; `segmented` says whether the index can be read.
    pub fn decide_fallback(&mut self, segmented: bool) -> (fallback: bool)
        ensures
            fallback == (match old(self).heap_fallback {
                Some(decided) => decided,
                None => !segmented,
            }),
            *final(self) == (ScanExec { heap_fallback: Some(fallback), ..*old(self) }),
    {
        if let Some(decided) = self.heap_fallback {
            return decided;
        }
        let fallback = !segmented;
        self.heap_fallback = Some(fallback);
        fallback
    }

    /// Counts a source as visited, classified by its place: immutable
    /// segments come first, then the write buffer.
    pub fn note_source_visited(&mut self, index: usize, immutable_sources: usize)
        requires
            old(self).counters.segments_visited_immutable < usize::MAX,
            old(self).counters.segments_visited_buffer < usize::MAX,
        ensures
            final(self).same_but_counters(*old(self)),
            final(self).counters == (if index < immutable_sources {
                Counters {
                    segments_visited_immutable: (old(self).counters.segments_visited_immutable
                        + 1) as usize,
                    ..old(self).counters
                }
            } else {
                Counters {
                    segments_visited_buffer: (old(self).counters.segments_visited_buffer
                        + 1) as usize,
                    ..old(self).counters
                }
            }),
    {
        if index < immutable_sources {
            self.counters.segments_visited_immutable = self.counters.segments_visited_immutable + 1;
        } else {
            self.counters.segments_visited_buffer = self.counters.segments_visited_buffer + 1;
        }
    }

    /// Counts what a pruned walk reported.
    pub fn note_events(&mut self, events: &Vec<WalkEvent>)
        requires
            old(self).counters.segments_visited_immutable + events.len() <= usize::MAX,
            old(self).counters.segments_visited_buffer + events.len() <= usize::MAX,
            old(self).counters.dead_skipped + events.len() <= usize::MAX,
        ensures
            final(self).same_but_counters(*old(self)),
            final(self).counters == (Counters {
                segments_visited_immutable: (old(self).counters.segments_visited_immutable
                    + visited(events@, true)) as usize,
                segments_visited_buffer: (old(self).counters.segments_visited_buffer + visited(
                    events@,
                    false,
                )) as usize,
                dead_skipped: (old(self).counters.dead_skipped + dropped(events@)) as usize,
                ..old(self).counters
            }),
    {
        let ghost before = self.counters;
        let mut i: usize = 0;
        while i < events.len()
            invariant
                i <= events.len(),
                before == old(self).counters,
                before.segments_visited_immutable + events.len() <= usize::MAX,
                before.segments_visited_buffer + events.len() <= usize::MAX,
                before.dead_skipped + events.len() <= usize::MAX,
                visited(events@.take(i as int), true) <= i,
                visited(events@.take(i as int), false) <= i,
                dropped(events@.take(i as int)) <= i,
                self.same_but_counters(*old(self)),
                self.counters == (Counters {
                    segments_visited_immutable: (before.segments_visited_immutable + visited(
                        events@.take(i as int),
                        true,
                    )) as usize,
                    segments_visited_buffer: (before.segments_visited_buffer + visited(
                        events@.take(i as int),
                        false,
                    )) as usize,
                    dead_skipped: (before.dead_skipped + dropped(events@.take(i as int))) as usize,
                    ..before
                }),
            decreases events.len() - i,
        {
            proof {
                assert(events@.take(i + 1).drop_last() =~= events@.take(i as int));
                assert(events@.take(i + 1).last() == events[i as int]);
            }
            match events[i] {
                WalkEvent::SourceOpened { immutable: true } => {
                    self.counters.segments_visited_immutable =
                    self.counters.segments_visited_immutable + 1;
                },
                WalkEvent::SourceOpened { immutable: false } => {
                    self.counters.segments_visited_buffer = self.counters.segments_visited_buffer
                        + 1;
                },
                WalkEvent::DeadSkipped => {
                    self.counters.dead_skipped = self.counters.dead_skipped + 1;
                },
            }
            i = i + 1;
        }
        proof {
            assert(events@.take(i as int) =~= events@);
        }
    }

    /// Whether the scan first tries to find its rows by pruning, and for how
    /// many: a ranked scan with a known number of rows, and not too many.
    pub fn prunes(&self) -> (k: Option<usize>)
        ensures
            k == (match self.top_k {
                Some(k) => if self.ordered && k <= crate::top_k::PRUNE_MAX_K {
                    Some(k)
                } else {
                    None
                },
                None => None,
            }),
    {
        match self.top_k {
            Some(k) => if self.ordered && k <= crate::top_k::PRUNE_MAX_K {
                Some(k)
            } else {
                None
            },
            None => None,
        }
    }

    /// Starts with the rows that pruning found.
    pub fn gather_top(&mut self, top: TopK)
        requires
            old(self).ordered,
            in_rank_order(top.rows@),
        ensures
            *final(self) == (ScanExec {
                rows: top.rows,
                sorted: top.rows.len(),
                next: 0,
                started: true,
                pruned: !top.complete,
                candidates: if top.complete {
                    Some(top.rows.len())
                } else {
                    None
                },
                scored: Some(top.scored),
                ..*old(self)
            }),
            final(self).valid(),
            final(self).coming() == top.rows@,
    {
        let len: usize = top.rows.len();
        self.candidates = if top.complete {
            Some(len)
        } else {
            None
        };
        self.scored = Some(top.scored);
        self.pruned = !top.complete;
        self.sorted = len;
        self.rows = top.rows;
        self.next = 0;
        self.started = true;
        proof {
            assert(self.rows@.take(len as int) =~= self.rows@);
            law_ranked(self.rows@);
            lemma_order_unique(self.rows@, ranked(self.rows@));
            assert(ranked(self.rows@).skip(0) =~= ranked(self.rows@));
        }
    }

    /// Stores every candidate, scored and the first ones in output order.
    /// Only the rows the query will consume are ordered now.
    fn finish(&mut self, scored: &Vec<Row>)
        requires
            old(self).ordered,
            old(self).counters.exhaustive_score_calls + scored.len() <= usize::MAX,
        ensures
            final(self).rows@.to_multiset() == scored@.to_multiset(),
            sorted_prefix(final(self).rows@, final(self).sorted as int),
            final(self).sorted == (match old(self).top_k {
                Some(k) => if k < scored.len() {
                    k
                } else {
                    scored.len()
                },
                None => scored.len(),
            }),
            *final(self) == (ScanExec {
                rows: final(self).rows,
                sorted: final(self).sorted,
                candidates: Some(scored.len()),
                counters: Counters {
                    exhaustive_score_calls: (old(self).counters.exhaustive_score_calls
                        + scored.len()) as usize,
                    ..old(self).counters
                },
                ..*old(self)
            }),
    {
        let len: usize = scored.len();
        self.candidates = Some(len);
        self.counters.exhaustive_score_calls = self.counters.exhaustive_score_calls + len;
        self.sorted = match self.top_k {
            Some(k) => if k < len {
                k
            } else {
                len
            },
            None => len,
        };
        self.rows = sort_rows(scored);
        proof {
            law_ranked(scored@);
            let head = self.rows@.take(self.sorted as int);
            assert forall|i: int, j: int| 0 <= i < j < head.len() implies !ranks_before(
                head[j],
                head[i],
            ) by {
                assert(!ranks_before(self.rows@[j], self.rows@[i]));
            }
        }
    }

    /// Starts with all candidates, each scored.
    pub fn gather(&mut self, scored: &Vec<Row>)
        requires
            old(self).ordered,
            old(self).counters.exhaustive_score_calls + scored.len() <= usize::MAX,
        ensures
            final(self).valid(),
            final(self).coming() == ranked(scored@),
            final(self).sorted == (match old(self).top_k {
                Some(k) => if k < scored.len() {
                    k
                } else {
                    scored.len()
                },
                None => scored.len(),
            }),
            *final(self) == (ScanExec {
                rows: final(self).rows,
                sorted: final(self).sorted,
                next: 0,
                started: true,
                pruned: false,
                scored: None,
                candidates: Some(scored.len()),
                counters: Counters {
                    exhaustive_score_calls: (old(self).counters.exhaustive_score_calls
                        + scored.len()) as usize,
                    ..old(self).counters
                },
                ..*old(self)
            }),
    {
        self.pruned = false;
        self.scored = None;
        self.finish(scored);
        self.next = 0;
        self.started = true;
        proof {
            law_ranked_ignores_arrival(self.rows@, scored@);
            assert(ranked(self.rows@).skip(0) =~= ranked(self.rows@));
        }
    }

    /// Replaces the pruned best rows with the complete ordering of all
    /// candidates, once the executor reads past them. The locations already
    /// consumed are removed from the complete ordering rather than skipped by
    /// position: documents indexed since the best rows were found can rank
    /// above them and would otherwise shift the consumed rows back into the
    /// output.
    pub fn complete(&mut self, scored: &Vec<Row>)
        requires
            old(self).valid(),
            old(self).pruned,
            !old(self).is_count,
            old(self).counters.exhaustive_score_calls + scored.len() <= usize::MAX,
            old(self).counters.top_k_completions < usize::MAX,
        ensures
            final(self).valid(),
            final(self).coming() == ranked(
                without(scored@, locations(old(self).rows@.take(old(self).next as int))),
            ),
            *final(self) == (ScanExec {
                rows: final(self).rows,
                sorted: final(self).sorted,
                next: 0,
                pruned: false,
                candidates: Some(scored.len()),
                counters: Counters {
                    exhaustive_score_calls: (old(self).counters.exhaustive_score_calls
                        + scored.len()) as usize,
                    top_k_completions: (old(self).counters.top_k_completions + 1) as usize,
                    ..old(self).counters
                },
                ..*old(self)
            }),
    {
        let ghost gone = locations(self.rows@.take(self.next as int));
        self.counters.top_k_completions = self.counters.top_k_completions + 1;
        let consumed = keys_of(&self.rows, self.next);
        self.finish(scored);
        let ghost all = self.rows@;
        let ghost prefix = self.sorted as int;
        let mut kept: Vec<Row> = Vec::new();
        let mut sorted: usize = 0;
        let mut i: usize = 0;
        proof {
            assert(all.take(0) =~= Seq::empty());
        }
        while i < self.rows.len()
            invariant
                i <= self.rows.len(),
                all == self.rows@,
                prefix == self.sorted <= all.len(),
                forall|tid: Tid| #[trigger]
                    consumed@.contains(tid.key() as u64) <==> gone.contains(tid),
                kept@ == without(all.take(i as int), gone),
                sorted <= kept.len(),
                sorted <= i,
                i <= prefix ==> sorted == kept.len(),
                i >= prefix ==> sorted == without(all.take(prefix), gone).len(),
            decreases self.rows.len() - i,
        {
            let row: Row = self.rows[i];
            proof {
                assert(all.take(i + 1).drop_last() =~= all.take(i as int));
                assert(all.take(i + 1).last() == row);
                assert(consumed@.contains(row.tid.key() as u64) <==> gone.contains(row.tid));
            }
            if !has_key(&consumed, row.tid) {
                kept.push(row);
                if i < self.sorted {
                    sorted = sorted + 1;
                }
            }
            i = i + 1;
        }
        proof {
            assert(all.take(i as int) =~= all);
            lemma_without_prefix(all, prefix, gone);
            lemma_without(all, gone);
            lemma_without(scored@, gone);
            assert(kept@.to_multiset() =~= without(scored@, gone).to_multiset());
            law_ranked_ignores_arrival(kept@, without(scored@, gone));
            assert(ranked(kept@).skip(0) =~= ranked(kept@));
        }
        self.rows = kept;
        self.sorted = sorted;
        self.next = 0;
        self.pruned = false;
    }

    /// Orders the candidates past the first ones, once the executor reads
    /// beyond them.
    fn sort_rest(&mut self)
        requires
            sorted_prefix(old(self).rows@, old(self).sorted as int),
        ensures
            final(self).rows@ == ranked(old(self).rows@),
            final(self).sorted == old(self).rows.len(),
            *final(self) == (ScanExec {
                rows: final(self).rows,
                sorted: final(self).sorted,
                ..*old(self)
            }),
    {
        let ghost before = self.rows@;
        let mut rest: Vec<Row> = Vec::new();
        let mut i: usize = self.sorted;
        while i < self.rows.len()
            invariant
                self.rows@ == before,
                self.sorted <= i <= self.rows.len(),
                rest@ == before.subrange(self.sorted as int, i as int),
                *self == *old(self),
            decreases self.rows.len() - i,
        {
            rest.push(self.rows[i]);
            proof {
                assert(rest@ =~= before.subrange(self.sorted as int, i + 1));
            }
            i = i + 1;
        }
        let mut tail = sort_rows(&rest);
        proof {
            assert(rest@ =~= before.skip(self.sorted as int));
            lemma_sorted_prefix(before, self.sorted as int);
            law_ranked(rest@);
        }
        self.rows.truncate(self.sorted);
        self.rows.append(&mut tail);
        self.sorted = self.rows.len();
        proof {
            assert(self.rows@ =~= ranked(before));
        }
    }
}

/// The positions of the first `upto` rows' locations.
fn keys_of(rows: &Vec<Row>, upto: usize) -> (keys: HashSet<u64, FxBuildHasher>)
    requires
        upto <= rows.len(),
    ensures
        forall|tid: Tid| #[trigger]
            keys@.contains(tid.key() as u64) <==> locations(rows@.take(upto as int)).contains(tid),
{
    let mut keys = fx_set();
    let mut i: usize = 0;
    while i < upto
        invariant
            i <= upto <= rows.len(),
            forall|tid: Tid| #[trigger]
                keys@.contains(tid.key() as u64) <==> locations(rows@.take(i as int)).contains(tid),
        decreases upto - i,
    {
        let row: Row = rows[i];
        let ghost was = keys@;
        let _ = fx_set_insert(&mut keys, row.tid.number());
        proof {
            let head = rows@.take(i as int);
            let longer = rows@.take(i + 1);
            assert forall|tid: Tid| #[trigger] keys@.contains(tid.key() as u64) <==> locations(
                longer,
            ).contains(tid) by {
                crate::tid::lemma_key_injective(tid, row.tid);
                assert(was.contains(tid.key() as u64) <==> locations(head).contains(tid));
                if locations(head).contains(tid) {
                    let x = choose|x: int| 0 <= x < head.len() && (#[trigger] head[x]).tid == tid;
                    assert(longer[x].tid == tid);
                }
                if locations(longer).contains(tid) {
                    let x = choose|x: int|
                        0 <= x < longer.len() && (#[trigger] longer[x]).tid == tid;
                    if x < i {
                        assert(head[x].tid == tid);
                    }
                }
                assert(longer[i as int] == row);
            }
        }
        i = i + 1;
    }
    keys
}

fn has_key(keys: &HashSet<u64, FxBuildHasher>, tid: Tid) -> (has: bool)
    ensures
        has == keys@.contains(tid.key() as u64),
{
    crate::fx::fx_set_contains(keys, tid.number())
}

impl ScanExec {
    /// What a search scan in this state does next.
    pub open spec fn next_access(self) -> Access {
        if !self.query_bound {
            Access::BindQuery
        } else if self.query_null {
            Access::Done
        } else if !self.bounds_bound {
            Access::BindBounds
        } else if self.heap_fallback is None {
            Access::ProbeIndex
        } else if self.heap_fallback == Some(true) {
            Access::Fallback
        } else if !self.started {
            if self.ordered {
                Access::Gather
            } else {
                Access::StartStream
            }
        } else if self.stream is Some {
            Access::StreamNext
        } else if self.next >= self.rows.len() {
            if self.pruned {
                Access::Complete
            } else {
                Access::Done
            }
        } else {
            Access::Fetch(self.coming()[0].tid)
        }
    }

    /// Decides what a search scan does next. The rows of an ordered scan come
    /// in output order; NULL has no matches and is never read as a query.
    pub fn access(&mut self) -> (access: Access)
        requires
            old(self).valid(),
            !old(self).is_count,
        ensures
            access == old(self).next_access(),
            final(self).valid(),
            access is Fetch ==> {
                &&& old(self).coming().len() > 0
                &&& final(self).coming() == old(self).coming().drop_first()
                &&& *final(self) == (ScanExec {
                    rows: final(self).rows,
                    sorted: final(self).sorted,
                    next: (old(self).next + 1) as usize,
                    ..*old(self)
                })
                &&& final(self).rows@.take(final(self).next as int) == ranked(old(self).rows@).take(
                    final(self).next as int,
                )
            },
            access == Access::Done && old(self).query_bound && old(self).query_null
                ==> *final(self) == (ScanExec { started: true, ..*old(self) }),
            !(access is Fetch) && !(old(self).query_bound && old(self).query_null)
                ==> *final(self) == *old(self),
    {
        if !self.query_bound {
            return Access::BindQuery;
        }
        if self.query_null {
            self.started = true;
            return Access::Done;
        }
        if !self.bounds_bound {
            return Access::BindBounds;
        }
        match self.heap_fallback {
            None => {
                return Access::ProbeIndex;
            },
            Some(true) => {
                return Access::Fallback;
            },
            Some(false) => {},
        }
        if !self.started {
            return if self.ordered {
                Access::Gather
            } else {
                Access::StartStream
            };
        }
        if self.stream.is_some() {
            return Access::StreamNext;
        }
        if self.next >= self.rows.len() {
            return if self.pruned {
                Access::Complete
            } else {
                Access::Done
            };
        }
        let ghost before = self.rows@;
        proof {
            law_ranked(before);
            lemma_sorted_prefix(before, self.sorted as int);
        }
        if self.next >= self.sorted {
            self.sort_rest();
            proof {
                assert(self.rows@.take(self.sorted as int) =~= self.rows@);
            }
        }
        let tid: Tid = self.rows[self.next].tid;
        proof {
            law_ranked(self.rows@);
            lemma_sorted_prefix(self.rows@, self.sorted as int);
            assert(ranked(self.rows@) == ranked(before)) by {
                law_ranked(ranked(before));
                lemma_order_unique(ranked(before), ranked(ranked(before)));
            }
            assert(ranked(before)[self.next as int] == self.rows@[self.next as int]);
            assert(ranked(before).skip(self.next as int).drop_first() =~= ranked(before).skip(
                self.next + 1,
            ));
            assert(self.rows@.take(self.next + 1) =~= ranked(before).take(self.next + 1));
        }
        self.next = self.next + 1;
        Access::Fetch(tid)
    }

    /// Starts to read candidates from a stream; `recheck` when it may hold
    /// more than the matches.
    pub fn start_stream(&mut self, recheck: bool)
        ensures
            *final(self) == (ScanExec {
                stream: Some(recheck),
                recheck,
                started: true,
                ..*old(self)
            }),
    {
        self.recheck = recheck;
        self.stream = Some(recheck);
        self.started = true;
    }

    /// Takes what the stream gave.
    pub fn streamed(&mut self, candidate: Option<Tid>) -> (access: Access)
        requires
            old(self).counters.stream_visits < usize::MAX,
        ensures
            access == (match candidate {
                Some(tid) => Access::Fetch(tid),
                None => Access::Done,
            }),
            final(self).same_but_counters(*old(self)),
            final(self).counters == (match candidate {
                Some(_) => Counters {
                    stream_visits: (old(self).counters.stream_visits + 1) as usize,
                    ..old(self).counters
                },
                None => old(self).counters,
            }),
    {
        match candidate {
            Some(tid) => {
                self.counters.stream_visits = self.counters.stream_visits + 1;
                Access::Fetch(tid)
            },
            None => Access::Done,
        }
    }

    /// Takes the outcome of fetching a candidate: whether a visible tuple was
    /// found, or else whether the chain has another member or is all dead.
    pub fn fetched(&mut self, found: bool, call_again: bool, all_dead: bool) -> (fetched: Fetched)
        requires
            old(self).counters.fetched < usize::MAX,
            old(self).counters.heap_rechecks < usize::MAX,
            old(self).counters.dead_skipped < usize::MAX,
        ensures
            fetched == (if found {
                if old(self).recheck {
                    Fetched::Recheck
                } else {
                    Fetched::Emit
                }
            } else if call_again {
                Fetched::Again
            } else {
                Fetched::Skip
            }),
            final(self).same_but_counters(*old(self)),
            final(self).counters == (Counters {
                fetched: (old(self).counters.fetched + if found {
                    1int
                } else {
                    0
                }) as usize,
                heap_rechecks: (old(self).counters.heap_rechecks + if found && old(self).recheck {
                    1int
                } else {
                    0
                }) as usize,
                dead_skipped: (old(self).counters.dead_skipped + if !found && !call_again
                    && all_dead {
                    1int
                } else {
                    0
                }) as usize,
                ..old(self).counters
            }),
    {
        if found {
            self.counters.fetched = self.counters.fetched + 1;
            if self.recheck {
                self.counters.heap_rechecks = self.counters.heap_rechecks + 1;
                Fetched::Recheck
            } else {
                Fetched::Emit
            }
        } else if call_again {
            Fetched::Again
        } else {
            if all_dead {
                self.counters.dead_skipped = self.counters.dead_skipped + 1;
            }
            Fetched::Skip
        }
    }

    /// Counts a row that the heap fallback emits.
    pub fn fallback_fetched(&mut self)
        requires
            old(self).counters.fetched < usize::MAX,
        ensures
            final(self).same_but_counters(*old(self)),
            final(self).counters == (Counters {
                fetched: (old(self).counters.fetched + 1) as usize,
                ..old(self).counters
            }),
    {
        self.counters.fetched = self.counters.fetched + 1;
    }

    /// Whether the scan binds parameters again when it is rescanned.
    pub open spec fn parameterized(self) -> bool {
        self.runtime_query || self.runtime_limit
    }

    /// The state of the scan when it is rescanned. Completion removed the
    /// consumed rows from the cached ones, so a scan that completed gathers
    /// anew; others rewind.
    pub open spec fn rescanned(self) -> ScanExec {
        let rewound = ScanExec { next: 0, ..self };
        let reset = if self.parameterized() || self.counters.top_k_completions > 0 {
            ScanExec {
                query_bound: !self.runtime_query,
                bounds_bound: !self.runtime_limit,
                query_null: false,
                started: false,
                sorted: 0,
                pruned: false,
                recheck: false,
                candidates: None,
                scored: None,
                ..rewound
            }
        } else {
            rewound
        };
        let streamed = match self.stream {
            Some(recheck) => ScanExec { recheck, ..reset },
            None => reset,
        };
        if self.is_count {
            ScanExec { started: false, ..streamed }
        } else {
            streamed
        }
    }

    /// Prepares the scan to run again. Answers whether the scorer that the
    /// scan published is to be forgotten.
    pub fn rescan(&mut self) -> (forget: bool)
        requires
            old(self).valid(),
        ensures
            forget == old(self).parameterized(),
            final(self).valid(),
            final(self).rows@ == (if old(self).parameterized() || old(
                self,
            ).counters.top_k_completions > 0 {
                Seq::empty()
            } else {
                old(self).rows@
            }),
            *final(self) == (ScanExec { rows: final(self).rows, ..old(self).rescanned() }),
    {
        self.next = 0;
        let parameterized = self.runtime_query || self.runtime_limit;
        if parameterized || self.counters.top_k_completions > 0 {
            self.query_bound = !self.runtime_query;
            self.bounds_bound = !self.runtime_limit;
            self.query_null = false;
            self.started = false;
            self.rows.clear();
            self.sorted = 0;
            self.pruned = false;
            self.recheck = false;
            self.candidates = None;
            self.scored = None;
            proof {
                assert(self.rows@.take(0) =~= Seq::empty());
            }
        }
        if let Some(recheck) = self.stream {
            self.recheck = recheck;
        }
        if self.is_count {
            self.started = false;
        }
        parameterized
    }
}

/// A scan that ran without completing a pruned ordering and that binds no
/// parameters emits the same rows again when it is rescanned.
pub proof fn law_rescan_repeats(scan: ScanExec)
    requires
        scan.valid(),
        scan.ordered,
        !scan.parameterized(),
        scan.counters.top_k_completions == 0,
    ensures
        scan.rescanned().coming() == ranked(scan.rows@),
        scan.rescanned().started == (scan.started && !scan.is_count),
{
    assert(ranked(scan.rows@).skip(0) =~= ranked(scan.rows@));
}

/// Locations in heap order, each once.
pub open spec fn ascending_tids(tids: Seq<Tid>) -> bool {
    forall|i: int, j: int|
        0 <= i < j < tids.len() ==> (#[trigger] tids[i]).key() < (#[trigger] tids[j]).key()
}

/// The candidates of a source that are not among its deleted locations, in the
/// order in which the source gave them.
pub fn live_candidates(tids: &Vec<Tid>, dead: &Vec<Tid>) -> (live: Vec<Tid>)
    ensures
        live@ == tids@.filter(|tid: Tid| !dead@.contains(tid)),
{
    let mut deleted = fx_set();
    let mut i: usize = 0;
    while i < dead.len()
        invariant
            i <= dead.len(),
            forall|key: u64| #[trigger]
                deleted@.contains(key) <==> exists|j: int|
                    0 <= j < i && (#[trigger] dead[j]).key() == key,
        decreases dead.len() - i,
    {
        let ghost were = deleted@;
        fx_set_insert(&mut deleted, dead[i].number());
        proof {
            assert forall|key: u64| #[trigger] deleted@.contains(key) <==> exists|j: int|
                0 <= j < i + 1 && (#[trigger] dead[j]).key() == key by {
                assert(were.contains(key) <==> exists|j: int|
                    0 <= j < i && (#[trigger] dead[j]).key() == key);
                if key == dead[i as int].key() {
                    assert(dead[i as int].key() == key);
                }
            }
        }
        i = i + 1;
    }
    let ghost kept = |tid: Tid| !dead@.contains(tid);
    let mut live: Vec<Tid> = Vec::new();
    let mut i: usize = 0;
    proof {
        reveal(Seq::filter);
        assert(tids@.take(0).filter(kept) =~= live@);
    }
    while i < tids.len()
        invariant
            i <= tids.len(),
            kept == (|tid: Tid| !dead@.contains(tid)),
            forall|key: u64| #[trigger]
                deleted@.contains(key) <==> exists|j: int|
                    0 <= j < dead.len() && (#[trigger] dead[j]).key() == key,
            live@ == tids@.take(i as int).filter(kept),
        decreases tids.len() - i,
    {
        let tid: Tid = tids[i];
        let is_dead = fx_set_contains(&deleted, tid.number());
        proof {
            if is_dead {
                let j = choose|j: int|
                    0 <= j < dead.len() && (#[trigger] dead[j]).key() == tid.key();
                crate::tid::lemma_key_injective(dead[j], tid);
                assert(dead@[j] == tid);
            } else if dead@.contains(tid) {
                let j = choose|j: int| 0 <= j < dead.len() && dead@[j] == tid;
                assert(dead[j].key() == tid.key());
            }
            assert(is_dead == dead@.contains(tid));
            let longer = tids@.take(i + 1);
            assert(longer.drop_last() =~= tids@.take(i as int));
            assert(longer.last() == tid);
            reveal(Seq::filter);
        }
        if !is_dead {
            live.push(tid);
        }
        i = i + 1;
    }
    proof {
        assert(tids@.take(i as int) =~= tids@);
    }
    live
}

/// The locations that match in some source and are not deleted there, all
/// together in heap order and each once. `dead` has the deleted locations of
/// each source.
pub fn matching_tids(lists: &Vec<Vec<Tid>>, dead: &Vec<Vec<Tid>>) -> (tids: Vec<Tid>)
    requires
        lists.len() == dead.len(),
    ensures
        ascending_tids(tids@),
        forall|tid: Tid| #[trigger]
            tids@.contains(tid) <==> exists|i: int|
                0 <= i < lists.len() && (#[trigger] lists[i])@.contains(tid)
                    && !dead[i]@.contains(tid),
{
    let mut live: Vec<Vec<Tid>> = Vec::new();
    let mut i: usize = 0;
    while i < lists.len()
        invariant
            lists.len() == dead.len(),
            i <= lists.len(),
            live.len() == i,
            forall|l: int, tid: Tid|
                0 <= l < i ==> (#[trigger] live[l]@.contains(tid) <==> lists[l]@.contains(tid)
                    && !dead[l]@.contains(tid)),
        decreases lists.len() - i,
    {
        let found = live_candidates(&lists[i], &dead[i]);
        let ghost were = live@;
        live.push(found);
        proof {
            let kept = |tid: Tid| !dead[i as int]@.contains(tid);
            assert forall|l: int, tid: Tid| 0 <= l < i + 1 implies (#[trigger] live[l]@.contains(tid)
                <==> lists[l]@.contains(tid) && !dead[l]@.contains(tid)) by {
                if l < i {
                    assert(were[l]@.contains(tid) <==> lists[l]@.contains(tid)
                        && !dead[l]@.contains(tid));
                } else {
                    lemma_filter_holds(lists[l]@, kept, tid);
                }
            }
        }
        i = i + 1;
    }
    let tids = merge_candidates(&live);
    proof {
        assert forall|tid: Tid| #[trigger] tids@.contains(tid) <==> exists|i: int|
            0 <= i < lists.len() && (#[trigger] lists[i])@.contains(tid) && !dead[i]@.contains(
                tid,
            ) by {
            if tids@.contains(tid) {
                let l = choose|l: int| 0 <= l < live.len() && (#[trigger] live[l])@.contains(tid);
                assert(lists[l]@.contains(tid));
            }
            if exists|i: int|
                0 <= i < lists.len() && (#[trigger] lists[i])@.contains(tid) && !dead[i]@.contains(
                    tid,
                ) {
                let l = choose|l: int|
                    0 <= l < lists.len() && (#[trigger] lists[l])@.contains(tid)
                        && !dead[l]@.contains(tid);
                assert(live[l]@.contains(tid));
            }
        }
    }
    tids
}

/// A filter keeps what was there and passes.
proof fn lemma_filter_holds(tids: Seq<Tid>, kept: spec_fn(Tid) -> bool, tid: Tid)
    ensures
        tids.filter(kept).contains(tid) <==> tids.contains(tid) && kept(tid),
    decreases tids.len(),
{
    reveal(Seq::filter);
    if tids.len() > 0 {
        let rest = tids.drop_last();
        lemma_filter_holds(rest, kept, tid);
        assert(tids =~= rest.push(tids.last()));
        lemma_push_tid(rest, tids.last(), tid);
        if kept(tids.last()) {
            lemma_push_tid(rest.filter(kept), tids.last(), tid);
        }
    }
}

/// The locations that the sources gave, all together in heap order and each
/// once.
pub fn merge_candidates(lists: &Vec<Vec<Tid>>) -> (tids: Vec<Tid>)
    ensures
        ascending_tids(tids@),
        forall|tid: Tid| #[trigger]
            tids@.contains(tid) <==> exists|i: int|
                0 <= i < lists.len() && (#[trigger] lists[i])@.contains(tid),
{
    let mut rows: Vec<Row> = Vec::new();
    let mut i: usize = 0;
    while i < lists.len()
        invariant
            i <= lists.len(),
            forall|x: int| 0 <= x < rows.len() ==> (#[trigger] rows[x]).score == 0,
            forall|tid: Tid| #[trigger]
                rows@.contains(Row { score: 0, tid }) <==> exists|l: int|
                    0 <= l < i && (#[trigger] lists[l])@.contains(tid),
        decreases lists.len() - i,
    {
        let list = &lists[i];
        let ghost were = rows@;
        let mut j: usize = 0;
        while j < list.len()
            invariant
                j <= list.len(),
                forall|x: int| 0 <= x < rows.len() ==> (#[trigger] rows[x]).score == 0,
                forall|tid: Tid| #[trigger]
                    rows@.contains(Row { score: 0, tid }) <==> were.contains(Row { score: 0, tid })
                        || list@.take(j as int).contains(tid),
            decreases list.len() - j,
        {
            let ghost had = rows@;
            let row = Row { score: 0, tid: list[j] };
            rows.push(row);
            proof {
                let head = list@.take(j as int);
                let longer = list@.take(j + 1);
                assert(longer =~= head.push(list[j as int]));
                assert forall|tid: Tid| #[trigger] rows@.contains(Row { score: 0, tid })
                    <==> were.contains(Row { score: 0, tid }) || longer.contains(tid) by {
                    lemma_push_row(had, row, Row { score: 0, tid });
                    lemma_push_tid(head, list[j as int], tid);
                    assert(had.contains(Row { score: 0, tid }) <==> were.contains(
                        Row { score: 0, tid },
                    ) || head.contains(tid));
                }
            }
            j = j + 1;
        }
        proof {
            assert(list@.take(j as int) =~= list@);
            assert forall|tid: Tid| #[trigger] rows@.contains(Row { score: 0, tid }) <==> exists|
                l: int,
            |
                0 <= l < i + 1 && (#[trigger] lists[l])@.contains(tid) by {
                assert(rows@.contains(Row { score: 0, tid }) <==> were.contains(
                    Row { score: 0, tid },
                ) || list@.contains(tid));
                if list@.contains(tid) {
                    assert(lists[i as int]@.contains(tid));
                }
            }
        }
        i = i + 1;
    }
    let sorted = sort_rows(&rows);
    proof {
        broadcast use vstd::seq_lib::group_to_multiset_ensures;

        law_ranked(rows@);
        assert forall|row: Row| #[trigger] sorted@.contains(row) <==> rows@.contains(row) by {
            assert(sorted@.to_multiset().contains(row) <==> sorted@.contains(row));
            assert(rows@.to_multiset().contains(row) <==> rows@.contains(row));
        }
    }
    let mut tids: Vec<Tid> = Vec::new();
    let mut i: usize = 0;
    while i < sorted.len()
        invariant
            i <= sorted.len(),
            in_rank_order(sorted@),
            forall|row: Row| #[trigger] sorted@.contains(row) <==> rows@.contains(row),
            forall|x: int| 0 <= x < rows.len() ==> (#[trigger] rows[x]).score == 0,
            ascending_tids(tids@),
            forall|x: int, y: int|
                0 <= x < tids.len() && i <= y < sorted.len() ==> (#[trigger] tids[x]).key() <= (
                #[trigger] sorted[y]).tid.key(),
            forall|x: int| 0 <= x < i ==> tids@.contains((#[trigger] sorted[x]).tid),
            forall|x: int| 0 <= x < tids.len() ==> sorted@.contains(
                Row { score: 0, tid: #[trigger] tids[x] },
            ),
        decreases sorted.len() - i,
    {
        let row: Row = sorted[i];
        proof {
            assert(sorted@.contains(sorted@[i as int]));
            assert(rows@.contains(row));
            assert(row == Row { score: 0, tid: row.tid });
            assert forall|y: int| i < y < sorted.len() implies row.tid.key() <= (
            #[trigger] sorted[y]).tid.key() by {
                assert(!ranks_before(sorted@[y], sorted@[i as int]));
                assert(sorted@.contains(sorted@[y]));
                assert(rows@.contains(sorted@[y]));
            }
        }
        let ghost had = tids@;
        let last: usize = tids.len();
        if last == 0 || tids[last - 1] != row.tid {
            proof {
                if last > 0 {
                    crate::tid::lemma_key_injective(tids[last - 1], row.tid);
                }
            }
            tids.push(row.tid);
            proof {
                assert(tids@[last as int] == row.tid);
                assert forall|x: int| 0 <= x < i implies tids@.contains(
                    (#[trigger] sorted[x]).tid,
                ) by {
                    lemma_push_tid(had, row.tid, sorted[x].tid);
                }
                assert forall|x: int, y: int| 0 <= x < y < tids.len() implies (#[trigger] tids[x]).key()
                    < (#[trigger] tids[y]).key() by {
                    if y == last && x < last - 1 {
                        assert(had[x].key() < had[last - 1].key());
                    }
                }
            }
        } else {
            assert(tids@[last - 1] == row.tid);
        }
        i = i + 1;
    }
    proof {
        assert forall|tid: Tid| #[trigger] tids@.contains(tid) <==> exists|l: int|
            0 <= l < lists.len() && (#[trigger] lists[l])@.contains(tid) by {
            if tids@.contains(tid) {
                let x = choose|x: int| 0 <= x < tids.len() && tids@[x] == tid;
                assert(sorted@.contains(Row { score: 0, tid: tids[x] }));
                assert(rows@.contains(Row { score: 0, tid }));
            }
            if rows@.contains(Row { score: 0, tid }) {
                assert(sorted@.contains(Row { score: 0, tid }));
                let x = choose|x: int|
                    0 <= x < sorted.len() && sorted@[x] == (Row { score: 0, tid });
                assert(tids@.contains(sorted[x].tid));
            }
        }
    }
    tids
}

proof fn lemma_push_row(rows: Seq<Row>, last: Row, row: Row)
    ensures
        rows.push(last).contains(row) <==> rows.contains(row) || row == last,
{
    let all = rows.push(last);
    assert(all[rows.len() as int] == last);
    if rows.contains(row) {
        let j = choose|j: int| 0 <= j < rows.len() && rows[j] == row;
        assert(all[j] == row);
    }
    if all.contains(row) && row != last {
        let j = choose|j: int| 0 <= j < all.len() && all[j] == row;
        assert(rows[j] == row);
    }
}

proof fn lemma_push_tid(tids: Seq<Tid>, last: Tid, tid: Tid)
    ensures
        tids.push(last).contains(tid) <==> tids.contains(tid) || tid == last,
{
    let all = tids.push(last);
    assert(all[tids.len() as int] == last);
    if tids.contains(tid) {
        let j = choose|j: int| 0 <= j < tids.len() && tids[j] == tid;
        assert(all[j] == tid);
    }
    if all.contains(tid) && tid != last {
        let j = choose|j: int| 0 <= j < all.len() && all[j] == tid;
        assert(tids[j] == tid);
    }
}

} // verus!
