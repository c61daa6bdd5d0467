//! What a scan puts out, and what a count counts.

use crate::count::{
    law_count_adds_up, pages_count, passing_count, scan_steps, steps_count, tids_upto,
    CandidatePage, Page,
};
use crate::laws::ranking::{is_better, is_earlier, law_better_rows_rank_first};
use crate::laws::statistics::{added, lemma_added_push};
use crate::ranking::{law_ranked, ranked, ranks_before, Row};
use crate::scan::{
    ascending_tids, dropped, hinted_top_k, visited, without, Access, ScanExec,
};
use crate::tid::Tid;
use crate::top_k::WalkEvent;
use vstd::prelude::*;

verus! {

/// A scan is bounded by what LIMIT and OFFSET ask for together, where both are
/// sizes and fit, and is not bounded otherwise.
pub proof fn law_a_scan_is_bounded_by_limit_and_offset(limit: Option<i64>, offset: Option<i64>)
    ensures
        hinted_top_k(limit, offset) matches Some(k) ==> limit is Some && limit->0 >= 0 && (
        offset matches Some(n) ==> n >= 0) && k == limit->0 + (match offset {
            Some(n) => n as int,
            None => 0,
        }),
        hinted_top_k(limit, offset) is None ==> limit is None || limit->0 < 0 || (
        offset matches Some(n) && n < 0) || limit->0 + (match offset {
            Some(n) => n as int,
            None => 0,
        }) > i64::MAX || limit->0 + (match offset {
            Some(n) => n as int,
            None => 0,
        }) > usize::MAX,
{
}

/// The places at which an event was reported.
pub open spec fn reported(events: Seq<WalkEvent>, event: WalkEvent) -> Set<int> {
    Set::new(|i: int| 0 <= i < events.len() && events[i] == event)
}

proof fn lemma_reported(events: Seq<WalkEvent>, event: WalkEvent)
    requires
        events.len() > 0,
    ensures
        ({
            let before = reported(events.drop_last(), event);
            &&& events.last() == event ==> reported(events, event) == before.insert(
                events.len() - 1,
            ) && !before.contains(events.len() - 1)
            &&& events.last() != event ==> reported(events, event) == before
        }),
{
    let before = reported(events.drop_last(), event);
    if events.last() == event {
        assert(reported(events, event) =~= before.insert(events.len() - 1));
    } else {
        assert(reported(events, event) =~= before);
    }
}

/// What a walk reports is counted: the sources it opened, by their kind, and the
/// deleted candidates it dropped.
pub proof fn law_reports_are_counted(events: Seq<WalkEvent>)
    ensures
        reported(events, WalkEvent::DeadSkipped).finite(),
        reported(events, (WalkEvent::SourceOpened { immutable: true })).finite(),
        reported(events, (WalkEvent::SourceOpened { immutable: false })).finite(),
        dropped(events) == reported(events, WalkEvent::DeadSkipped).len(),
        visited(events, true) == reported(
            events,
            (WalkEvent::SourceOpened { immutable: true }),
        ).len(),
        visited(events, false) == reported(
            events,
            (WalkEvent::SourceOpened { immutable: false }),
        ).len(),
    decreases events.len(),
{
    let dead = WalkEvent::DeadSkipped;
    let fixed = WalkEvent::SourceOpened { immutable: true };
    let buffer = WalkEvent::SourceOpened { immutable: false };
    if events.len() == 0 {
        assert(reported(events, dead) =~= Set::empty());
        assert(reported(events, fixed) =~= Set::empty());
        assert(reported(events, buffer) =~= Set::empty());
    } else {
        law_reports_are_counted(events.drop_last());
        lemma_reported(events, dead);
        lemma_reported(events, fixed);
        lemma_reported(events, buffer);
    }
}

/// The rows still to come are in order and, with those that have come, are all of
/// the scan's rows. None of them is better than one that has come.
pub proof fn law_the_best_rows_come_first(scan: ScanExec)
    requires
        scan.next <= scan.rows@.len(),
    ensures
        ({
            let come = ranked(scan.rows@).take(scan.next as int);
            let coming = scan.coming();
            &&& come.len() == scan.next
            &&& come.len() + coming.len() == scan.rows@.len()
            &&& (come + coming).to_multiset() == scan.rows@.to_multiset()
            &&& forall|i: int, j: int|
                0 <= i < j < coming.len() ==> !is_better(coming[j], coming[i])
            &&& forall|i: int, j: int|
                0 <= i < come.len() && 0 <= j < coming.len() ==> !is_better(coming[j], come[i])
        }),
{
    law_ranked(scan.rows@);
    let all = ranked(scan.rows@);
    let n = scan.next as int;
    let come = all.take(n);
    let coming = scan.coming();
    assert(come + coming =~= all);
    assert forall|i: int, j: int| 0 <= i < j < all.len() implies !is_better(all[j], all[i]) by {
        law_better_rows_rank_first(all[j], all[i]);
        assert(!ranks_before(all[j], all[i]));
    }
    assert forall|i: int, j: int| 0 <= i < j < coming.len() implies !is_better(
        coming[j],
        coming[i],
    ) by {
        assert(coming[i] == all[n + i] && coming[j] == all[n + j]);
    }
    assert forall|i: int, j: int| 0 <= i < come.len() && 0 <= j < coming.len() implies !is_better(
        coming[j],
        come[i],
    ) by {
        assert(come[i] == all[i] && coming[j] == all[n + j]);
    }
}

/// A scan ends only when its query is NULL or every row has been put out and none
/// was left out. Until its query and its bounds are known nothing is read, a scan
/// that reads the table does not read the index, and what is fetched is the first
/// of the rows still to come.
pub proof fn law_a_scan_goes_on_until_all_rows_came(scan: ScanExec)
    ensures
        match scan.next_access() {
            Access::Done => scan.query_bound && (scan.query_null || (scan.started && scan.stream
                is None && scan.next >= scan.rows@.len() && !scan.pruned && scan.heap_fallback
                == Some(false))),
            Access::BindQuery => !scan.query_bound,
            Access::BindBounds => scan.query_bound && !scan.query_null && !scan.bounds_bound,
            Access::ProbeIndex => scan.heap_fallback is None,
            Access::Fallback => scan.heap_fallback == Some(true),
            Access::Gather => scan.ordered && !scan.started,
            Access::StartStream => !scan.ordered && !scan.started,
            Access::StreamNext => scan.started && scan.stream is Some,
            Access::Complete => scan.pruned && scan.started && scan.next >= scan.rows@.len(),
            Access::Fetch(tid) => scan.started && scan.next < scan.rows@.len() && tid
                == scan.coming()[0].tid,
        },
        scan.next_access() is Gather || scan.next_access() is StartStream || scan.next_access()
            is StreamNext || scan.next_access() is Fetch || scan.next_access() is Complete
            ==> scan.query_bound && !scan.query_null && scan.bounds_bound && scan.heap_fallback
            == Some(false),
        scan.next_access() is Fallback || scan.next_access() is ProbeIndex ==> scan.query_bound
            && !scan.query_null && scan.bounds_bound,
{
}

/// A scan that has no parameters and put out no more than it had gathered starts
/// over with the same rows. Another one reads its parameters and its rows anew.
/// What was counted stays.
pub proof fn law_a_rescan_starts_over(scan: ScanExec)
    ensures
        ({
            let again = scan.rescanned();
            &&& again.next == 0
            &&& again.counters == scan.counters
            &&& again.ordered == scan.ordered && again.is_count == scan.is_count && again.top_k
                == scan.top_k
            &&& scan.runtime_query || scan.runtime_limit || scan.counters.top_k_completions > 0
                ==> !again.started && !again.pruned && (again.query_bound <==> !scan.runtime_query)
                && (again.bounds_bound <==> !scan.runtime_limit) && again.candidates is None
                && again.scored is None
            &&& !(scan.runtime_query || scan.runtime_limit || scan.counters.top_k_completions > 0)
                ==> again.query_bound == scan.query_bound && again.bounds_bound == scan.bounds_bound
                && again.pruned == scan.pruned && again.sorted == scan.sorted && (again.started
                <==> scan.started && !scan.is_count)
            &&& scan.is_count ==> !again.started
            &&& scan.stream matches Some(recheck) ==> again.recheck == recheck
        }),
{
}

/// What is left of rows once some locations are gone: the rows at other locations,
/// as often as they were there.
pub proof fn law_only_what_is_gone_is_left_out(rows: Seq<Row>, gone: Set<Tid>, row: Row)
    ensures
        without(rows, gone).to_multiset().count(row) == (if gone.contains(row.tid) {
            0
        } else {
            rows.to_multiset().count(row)
        }),
    decreases rows.len(),
{
    broadcast use vstd::seq_lib::group_to_multiset_ensures;

    if rows.len() > 0 {
        let rest = rows.drop_last();
        law_only_what_is_gone_is_left_out(rest, gone, row);
        assert(rows =~= rest.push(rows.last()));
        assert(rows.to_multiset() =~= rest.to_multiset().insert(rows.last()));
        if !gone.contains(rows.last().tid) {
            assert(without(rows, gone).to_multiset() =~= without(rest, gone).to_multiset().insert(
                rows.last(),
            ));
        }
    } else {
        assert(rows.to_multiset().count(row) == 0);
    }
}

/// Locations ascend by block and then by place.
pub proof fn law_locations_ascend(tids: Seq<Tid>)
    ensures
        ascending_tids(tids) <==> forall|i: int, j: int|
            0 <= i < j < tids.len() ==> is_earlier(#[trigger] tids[i], #[trigger] tids[j]),
{
    assert forall|a: Tid, b: Tid| #[trigger] is_earlier(a, b) <==> a.key() < b.key() by {}
    if ascending_tids(tids) {
        assert forall|i: int, j: int| 0 <= i < j < tids.len() implies is_earlier(
            #[trigger] tids[i],
            #[trigger] tids[j],
        ) by {
            assert(tids[i].key() < tids[j].key());
        }
    }
}

/// The candidates of pages: each place of a page is one, in the page's block.
pub proof fn law_pages_are_of_their_places(pages: Seq<Page>, upto: int, tid: Tid)
    requires
        0 <= upto <= pages.len(),
    ensures
        tids_upto(pages, upto).contains(tid) <==> exists|p: int|
            0 <= p < upto && (#[trigger] pages[p]).block == tid.block
                && pages[p].offsets@.contains(tid.offset),
    decreases upto,
{
    if upto > 0 {
        law_pages_are_of_their_places(pages, upto - 1, tid);
        let page = pages[upto - 1];
        let before = tids_upto(pages, upto - 1);
        let here = page.tids();
        let all = before + here;
        if before.contains(tid) {
            let i = choose|i: int| 0 <= i < before.len() && before[i] == tid;
            assert(all[i] == tid);
        }
        if page.block == tid.block && page.offsets@.contains(tid.offset) {
            let i = choose|i: int| 0 <= i < page.offsets@.len() && page.offsets@[i] == tid.offset;
            assert(here[i] == tid);
            assert(all[before.len() + i] == tid);
        }
        if all.contains(tid) {
            let i = choose|i: int| 0 <= i < all.len() && all[i] == tid;
            if i < before.len() {
                assert(before[i] == tid);
            } else {
                let j = i - before.len();
                assert(here[j] == tid);
                assert(page.offsets@[j] == tid.offset);
                assert(pages[upto - 1].block == tid.block);
            }
        }
    }
}

/// The rows of a page that are visible and pass.
pub open spec fn passing_rows(page: CandidatePage) -> Set<int> {
    Set::new(|r: int| 0 <= r < page.passing.len() && page.passing[r])
}

proof fn lemma_passing(passing: Seq<bool>)
    ensures
        Set::new(|r: int| 0 <= r < passing.len() && passing[r]).finite(),
        passing_count(passing) == Set::new(|r: int| 0 <= r < passing.len() && passing[r]).len(),
        (forall|r: int| 0 <= r < passing.len() ==> #[trigger] passing[r]) ==> passing_count(passing)
            == passing.len(),
    decreases passing.len(),
{
    let all = Set::new(|r: int| 0 <= r < passing.len() && passing[r]);
    if passing.len() == 0 {
        assert(all =~= Set::empty());
    } else {
        let rest = passing.drop_last();
        let before = Set::new(|r: int| 0 <= r < rest.len() && rest[r]);
        lemma_passing(rest);
        if passing.last() {
            assert(all =~= before.insert(passing.len() - 1));
        } else {
            assert(all =~= before);
        }
        if forall|r: int| 0 <= r < passing.len() ==> #[trigger] passing[r] {
            assert forall|r: int| 0 <= r < rest.len() implies #[trigger] rest[r] by {
                assert(passing[r]);
            }
            assert(passing[passing.len() - 1]);
        }
    }
}

/// A count is the number of candidates that are visible and pass. A page's rows
/// are taken to pass without a look only where the candidates need no recheck and
/// the page is visible to everyone.
pub proof fn law_a_count_is_of_the_passing_rows(recheck: bool, pages: Seq<CandidatePage>)
    requires
        forall|p: int, r: int|
            #![trigger pages[p].passing[r]]
            0 <= p < pages.len() && !recheck && pages[p].all_visible && 0 <= r
                < pages[p].passing.len() ==> pages[p].passing[r],
    ensures
        steps_count(recheck, scan_steps(recheck, pages)) == added(
            Seq::new(pages.len(), |p: int| passing_rows(pages[p]).len()),
        ),
{
    law_count_adds_up(recheck, pages);
    lemma_pages(recheck, pages);
}

proof fn lemma_pages(recheck: bool, pages: Seq<CandidatePage>)
    requires
        forall|p: int, r: int|
            #![trigger pages[p].passing[r]]
            0 <= p < pages.len() && !recheck && pages[p].all_visible && 0 <= r
                < pages[p].passing.len() ==> pages[p].passing[r],
    ensures
        pages_count(recheck, pages) == added(
            Seq::new(pages.len(), |p: int| passing_rows(pages[p]).len()),
        ),
    decreases pages.len(),
{
    let sizes = Seq::new(pages.len(), |p: int| passing_rows(pages[p]).len());
    if pages.len() > 0 {
        let rest = pages.drop_last();
        assert forall|p: int, r: int|
            #![trigger rest[p].passing[r]]
            0 <= p < rest.len() && !recheck && rest[p].all_visible && 0 <= r
                < rest[p].passing.len() implies rest[p].passing[r] by {
            assert(pages[p].passing[r]);
        }
        lemma_pages(recheck, rest);
        let before = Seq::new(rest.len(), |p: int| passing_rows(rest[p]).len());
        let last = pages[pages.len() - 1];
        assert(sizes =~= before.push(passing_rows(last).len()));
        lemma_added_push(before, passing_rows(last).len());
        lemma_passing(last.passing);
        assert(passing_rows(last) =~= Set::new(
            |r: int| 0 <= r < last.passing.len() && last.passing[r],
        ));
        if !recheck && last.all_visible {
            assert forall|r: int| 0 <= r < last.passing.len() implies #[trigger] last.passing[r] by {
                assert(pages[pages.len() - 1].passing[r]);
            }
        }
    }
}

} // verus!
