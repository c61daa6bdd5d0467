use stannum::count::{pages_of, Page};
use stannum::explain::{PropertyValue, Surroundings};
use stannum::ranking::Row;
use stannum::scan::{
    live_candidates, matching_tids, merge_candidates, runtime_top_k, Access, Fetched, ScanExec,
};
use stannum::tid::Tid;
use stannum::top_k::{TopK, WalkEvent};

fn tid(n: u32) -> Tid {
    Tid { block: n, offset: 1 }
}

fn row(score: f32, n: u32) -> Row {
    Row { score: score.to_bits(), tid: tid(n) }
}

/// What a search scan emits, when every candidate is visible.
fn drain(scan: &mut ScanExec, all: &[Row]) -> Vec<u32> {
    let mut emitted = Vec::new();
    loop {
        match scan.access() {
            Access::Fetch(tid) => {
                assert_eq!(scan.fetched(true, false, false), Fetched::Emit);
                emitted.push(tid.block);
            }
            Access::Complete => scan.complete(&all.to_vec()),
            Access::Gather => scan.gather(&all.to_vec()),
            Access::Done => return emitted,
            other => panic!("{other:?}"),
        }
    }
}

fn ready(ordered: bool, top_k: Option<usize>) -> ScanExec {
    let mut scan = ScanExec::begin(ordered, top_k, false, false, false);
    assert_eq!(scan.access(), Access::ProbeIndex);
    assert!(!scan.decide_fallback(true));
    scan
}

#[test]
fn an_ordered_scan_emits_rows_by_rank() {
    let rows = [row(1.0, 5), row(3.0, 4), row(1.0, 2), row(2.0, 9)];
    for top_k in [None, Some(0), Some(1), Some(2), Some(4), Some(9)] {
        let mut scan = ready(true, top_k);
        assert_eq!(drain(&mut scan, &rows), vec![4, 9, 2, 5]);
        assert_eq!(scan.counters.fetched, 4);
        assert_eq!(scan.counters.exhaustive_score_calls, 4);
        assert_eq!(scan.candidates, Some(4));
    }
}

#[test]
fn reading_past_a_pruned_top_resumes_the_complete_order() {
    let rows = [row(1.0, 5), row(3.0, 4), row(1.0, 2), row(2.0, 9)];
    let mut scan = ready(true, Some(2));
    assert_eq!(scan.prunes(), Some(2));
    assert_eq!(scan.access(), Access::Gather);
    scan.gather_top(TopK { rows: vec![row(3.0, 4), row(2.0, 9)], scored: 3, complete: false });
    assert_eq!(drain(&mut scan, &rows), vec![4, 9, 2, 5]);
    assert_eq!(scan.counters.top_k_completions, 1);
    assert_eq!(scan.counters.exhaustive_score_calls, 4);
    assert_eq!(scan.scored, Some(3));

    // A row indexed since ranks above those consumed, which do not come back.
    let mut scan = ready(true, Some(2));
    assert_eq!(scan.access(), Access::Gather);
    scan.gather_top(TopK { rows: vec![row(3.0, 4), row(2.0, 9)], scored: 3, complete: false });
    let mut later = rows.to_vec();
    later.push(row(8.0, 7));
    assert_eq!(drain(&mut scan, &later), vec![4, 9, 7, 2, 5]);

    // A complete top is all there is.
    let mut scan = ready(true, Some(9));
    scan.gather_top(TopK { rows: vec![row(3.0, 4)], scored: 1, complete: true });
    assert_eq!(drain(&mut scan, &rows), vec![4]);
    assert_eq!(scan.candidates, Some(1));
}

#[test]
fn a_rescan_emits_the_same_rows() {
    let rows = [row(1.0, 5), row(3.0, 4), row(1.0, 2), row(2.0, 9)];
    let mut scan = ready(true, Some(2));
    let first = drain(&mut scan, &rows);
    assert!(!scan.rescan());
    assert!(scan.started);
    assert_eq!(drain(&mut scan, &rows), first);

    // After a completion the rows are gathered anew.
    let mut scan = ready(true, Some(1));
    scan.gather_top(TopK { rows: vec![row(3.0, 4)], scored: 1, complete: false });
    drain(&mut scan, &rows);
    assert!(!scan.rescan());
    assert!(!scan.started && scan.rows.is_empty());
    assert_eq!(drain(&mut scan, &rows), first);

    // A parameterized scan binds again and forgets its scorer.
    let mut scan = ScanExec::begin(true, None, false, true, false);
    scan.bind_query(false);
    scan.decide_fallback(true);
    assert_eq!(drain(&mut scan, &rows), first);
    assert!(scan.rescan());
    assert_eq!(scan.access(), Access::BindQuery);
}

#[test]
fn parameters_are_bound_before_anything_is_read() {
    let mut scan = ScanExec::begin(true, Some(3), false, true, true);
    assert_eq!(scan.access(), Access::BindQuery);
    scan.bind_query(false);
    assert_eq!(scan.access(), Access::BindBounds);
    scan.bind_bounds(Some(10), Some(5));
    assert_eq!(scan.top_k, Some(15));
    assert_eq!(scan.prunes(), Some(15));
    scan.bind_bounds(Some(1), None);
    assert_eq!(scan.top_k, Some(15));
    assert_eq!(scan.access(), Access::ProbeIndex);
}

#[test]
fn a_null_query_has_no_matches() {
    let mut scan = ScanExec::begin(true, None, false, true, false);
    scan.bind_query(true);
    assert_eq!(scan.access(), Access::Done);
    assert!(scan.started);
}

#[test]
fn the_fallback_is_decided_once() {
    let mut scan = ScanExec::begin(false, None, false, false, false);
    assert!(scan.decide_fallback(false));
    assert!(scan.decide_fallback(true));
    assert_eq!(scan.access(), Access::Fallback);
    scan.fallback_fetched();
    assert_eq!(scan.counters.fetched, 1);
}

#[test]
fn an_unordered_scan_streams() {
    let mut scan = ready(false, None);
    assert_eq!(scan.access(), Access::StartStream);
    scan.note_source_visited(0, 1);
    scan.note_source_visited(1, 1);
    scan.start_stream(true);
    assert_eq!(scan.access(), Access::StreamNext);
    assert_eq!(scan.streamed(Some(tid(3))), Access::Fetch(tid(3)));
    assert_eq!(scan.fetched(false, true, false), Fetched::Again);
    assert_eq!(scan.fetched(true, false, false), Fetched::Recheck);
    assert_eq!(scan.fetched(false, false, true), Fetched::Skip);
    assert_eq!(scan.streamed(None), Access::Done);
    let counters = scan.counters;
    assert_eq!((counters.stream_visits, counters.fetched), (1, 1));
    assert_eq!((counters.heap_rechecks, counters.dead_skipped), (1, 1));
    assert_eq!((counters.segments_visited_immutable, counters.segments_visited_buffer), (1, 1));
}

#[test]
fn runtime_bounds_are_checked_hints() {
    assert_eq!(runtime_top_k(Some(10), None), Some(10));
    assert_eq!(runtime_top_k(Some(10), Some(5)), Some(15));
    assert_eq!(runtime_top_k(None, Some(5)), None);
    assert_eq!(runtime_top_k(Some(-1), None), None);
    assert_eq!(runtime_top_k(Some(1), Some(-1)), None);
    assert_eq!(runtime_top_k(Some(i64::MAX), Some(1)), None);
}

#[test]
fn walk_events_are_counted() {
    let mut scan = ready(true, Some(1));
    scan.note_events(&vec![
        WalkEvent::SourceOpened { immutable: true },
        WalkEvent::DeadSkipped,
        WalkEvent::SourceOpened { immutable: true },
        WalkEvent::SourceOpened { immutable: false },
    ]);
    let counters = scan.counters;
    assert_eq!((counters.segments_visited_immutable, counters.segments_visited_buffer), (2, 1));
    assert_eq!(counters.dead_skipped, 1);
}

#[test]
fn candidates_come_once_in_heap_order() {
    let lists = vec![vec![tid(7), tid(2)], vec![], vec![tid(2), tid(1), tid(9)]];
    assert_eq!(merge_candidates(&lists), vec![tid(1), tid(2), tid(7), tid(9)]);
    assert!(merge_candidates(&vec![]).is_empty());
}

#[test]
fn deleted_locations_are_no_candidates_of_their_source() {
    let tids = vec![tid(9), tid(2), tid(7), tid(2)];
    assert_eq!(live_candidates(&tids, &vec![tid(7), tid(3)]), vec![tid(9), tid(2), tid(2)]);
    assert_eq!(live_candidates(&tids, &vec![]), tids);
    assert!(live_candidates(&tids, &vec![tid(2), tid(7), tid(9)]).is_empty());
    let lists = vec![vec![tid(2), tid(7)], vec![tid(1), tid(2), tid(9)]];
    let found = |dead: Vec<Vec<Tid>>| matching_tids(&lists, &dead);
    assert_eq!(found(vec![vec![], vec![]]), vec![tid(1), tid(2), tid(7), tid(9)]);
    // A location deleted in one source may be live in another.
    assert_eq!(found(vec![vec![tid(2)], vec![]]), vec![tid(1), tid(2), tid(7), tid(9)]);
    assert_eq!(found(vec![vec![tid(2)], vec![tid(2), tid(7)]]), vec![tid(1), tid(7), tid(9)]);
}

#[test]
fn all_visible_pages_are_counted_without_a_fetch() {
    let at = |block: u32, offset: u16| Tid { block, offset };
    let pages = pages_of(&vec![at(3, 1), at(3, 7), at(5, 2)]);
    let shape: Vec<(u32, Vec<u16>)> =
        pages.into_iter().map(|Page { block, offsets }| (block, offsets)).collect();
    assert_eq!(shape, vec![(3, vec![1, 7]), (5, vec![2])]);
    let mut scan = ScanExec::begin(false, None, true, false, false);
    assert!(!scan.counted());
    scan.count_with(true);
    scan.start_count();
    assert!(scan.count_page(2, true));
    assert!(!scan.count_page(1, false));
    scan.count_row(true);
    assert_eq!(scan.count, 3);
    scan.note_plan(true);
    assert!(!scan.recheck);
    scan.note_plan(false);
    scan.note_plan(true);
    assert!(!scan.count_page(2, true));
    scan.count_row(false);
    scan.count_row(true);
    assert_eq!(scan.counters.skipped_pages, 1);
    assert_eq!(scan.finish_count(Some(3)), 4);
    assert!(scan.counted());
    assert_eq!((scan.candidates, scan.page_masks), (Some(3), Some(true)));
    scan.rescan();
    assert!(!scan.counted());
    scan.start_count();
    assert_eq!(scan.finish_count(None), 0);
}

#[test]
fn skipping_pages_changes_no_count() {
    // Of each page, whether it is all-visible and which of its rows pass.
    let pages = [
        (true, vec![true, true, true]),
        (false, vec![true, false]),
        (false, vec![]),
        (true, vec![true]),
        (false, vec![false, false]),
    ];
    for exact in [true, false] {
        let mut scan = ScanExec::begin(false, None, true, false, false);
        scan.note_plan(exact);
        scan.start_count();
        for (all_visible, rows) in &pages {
            if !scan.count_page(rows.len(), *all_visible) {
                rows.iter().for_each(|passes| scan.count_row(*passes));
            }
        }
        assert_eq!(scan.counters.skipped_pages, if exact { 2 } else { 0 });
        assert_eq!(scan.finish_count(Some(8)), 5);
    }
}

fn explained(scan: &ScanExec, around: &Surroundings) -> Vec<String> {
    scan.explain(around)
        .into_iter()
        .map(|property| match property.value {
            PropertyValue::Text(text) => format!("{}: {text}", property.name),
            PropertyValue::Integer(n) => format!("{}: {n}", property.name),
        })
        .collect()
}

fn around(analyze: bool) -> Surroundings {
    Surroundings {
        index: Some("docs_idx".to_owned()),
        query: "beer".to_owned(),
        directory: Some((2, 1)),
        analysis: None,
        analyze,
        workers: false,
        stream_pages: false,
        pages: Some((3, 0)),
    }
}

#[test]
fn explain_shows_an_ordered_scan() {
    let mut scan = ready(true, Some(2));
    let plan = vec!["Index: docs_idx", "Query: beer", "Order: score DESC", "Top K: 2", "Segments: 3"];
    assert_eq!(explained(&scan, &around(false)), plan);
    scan.note_events(&vec![WalkEvent::SourceOpened { immutable: true }, WalkEvent::DeadSkipped]);
    scan.gather_top(TopK { rows: vec![row(3.0, 4)], scored: 5, complete: true });
    let mut all = plan;
    all.extend([
        "Candidates: 1",
        "Pruning: block-max",
        "Scored Candidates: 5",
        "Pruned by Block-Max: 0",
        "Segments Visited: 1",
        "Immutable Segments: 1",
        "Dictionary Pages Read: 3",
        "Exhaustive Score Calls: 0",
        "Top-K Completions: 0",
        "Heap Fetches: 0",
        "Heap Rechecks: 0",
        "Dead Skipped: 1",
    ]);
    assert_eq!(explained(&scan, &around(true)), all);
}

#[test]
fn explain_shows_streams_counts_and_workers() {
    let mut scan = ready(false, None);
    let mut outside = around(true);
    outside.index = None;
    outside.directory = Some((2, 0));
    outside.analysis = Some("jieba 0.9.0 / dict 00 / matches".to_owned());
    outside.workers = true;
    let plan = vec!["Query: beer", "Segments: 2", "Analysis: jieba 0.9.0 / dict 00 / matches"];
    let mut all = plan.clone();
    all.push("Execution Counters: Unavailable from parallel workers");
    assert_eq!(explained(&scan, &outside), all);
    scan.note_source_visited(3, 1);
    scan.start_stream(false);
    scan.count_with(false);
    outside.stream_pages = true;
    outside.pages = Some((0, 4));
    let mut all = plan;
    all.extend([
        "Candidate Strategy: streaming page bitmaps",
        "Candidates Visited: 0",
        "Count Strategy: scalar",
        "Segments Visited: 1",
        "Write-Buffer Segments: 1",
        "Postings Blocks Read: 4",
        "Heap Fetches: 0",
        "Heap Rechecks: 0",
    ]);
    assert_eq!(explained(&scan, &outside), all);
    outside.directory = None;
    outside.analyze = false;
    assert_eq!(explained(&scan, &outside), vec!["Query: beer"]);
}
