use stannum::am::{amrescan, fallback_rows, ScanKey, ScanPlan};
use stannum::query::Query;
use stannum::ranking::Row;
use stannum::search::{
    accepted_pruned_rows, check_search, check_search_count, exhaustive_rows, pointer_of, rank_rows,
    search_path, still_shown, tid_of, validate_shape, validate_snippet, visible_tid_pairs,
    CountError, FetchedTid,
    SearchError, SearchPath, SearchRequest, SearchRow, SnippetMode, VisibleTid,
};
use stannum::tid::Tid;
use stannum::top_k::{TopK, PRUNE_MAX_K};

fn tid(n: u32) -> Tid {
    Tid { block: n, offset: 1 }
}

fn visible(indexed: u32, member: u32) -> VisibleTid {
    VisibleTid { indexed_tid: tid(indexed), visible_tid: tid(member) }
}

fn row(score: f32, n: u32) -> Row {
    Row { score: score.to_bits(), tid: tid(n) }
}

fn shown(rows: &[SearchRow]) -> Vec<(f32, u32)> {
    rows.iter().map(|row| (f32::from_bits(row.score), row.row.visible_tid.block)).collect()
}

#[test]
fn a_visible_member_is_shown_once() {
    let fetched = |indexed: u32, member: Option<u32>| FetchedTid {
        indexed_tid: tid(indexed),
        member: member.map(tid),
    };
    let found = visible_tid_pairs(&vec![
        fetched(1, Some(9)),
        fetched(2, None),
        fetched(3, Some(9)),
        fetched(4, Some(4)),
    ]);
    assert_eq!(found, vec![visible(1, 9), visible(4, 4)]);
}

#[test]
fn results_are_ranked_by_score_then_visible_location() {
    let at = |score: f32, indexed: u32, member: u32| SearchRow {
        score: score.to_bits(),
        row: visible(indexed, member),
    };
    let sorted = rank_rows(&vec![at(1.0, 1, 8), at(2.0, 2, 2), at(1.0, 7, 3)]);
    assert_eq!(shown(&sorted), vec![(2.0, 2), (1.0, 3), (1.0, 8)]);
    assert_eq!(sorted[1].row.indexed_tid, tid(7));
}

#[test]
fn all_matches_are_scored_where_they_are_visible() {
    let scored = vec![row(1.0, 1), row(3.0, 2), row(2.0, 3)];
    let rows = exhaustive_rows(&vec![visible(1, 1), visible(2, 8), visible(3, 3)], &scored, 2);
    assert_eq!(shown(&rows), vec![(3.0, 8), (2.0, 3)]);
    let rows = exhaustive_rows(&vec![visible(3, 3)], &scored, 9);
    assert_eq!(shown(&rows), vec![(2.0, 3)]);
    assert!(exhaustive_rows(&vec![visible(1, 1)], &scored, 0).is_empty());
}

#[test]
fn pruned_rows_are_accepted_when_they_are_all() {
    let top = |complete: bool| TopK { rows: vec![row(3.0, 2), row(1.0, 1)], scored: 2, complete };
    let all = vec![visible(1, 1), visible(2, 8)];
    let rows = accepted_pruned_rows(&top(true), &all, 5).unwrap();
    assert_eq!(shown(&rows), vec![(3.0, 8), (1.0, 1)]);
    assert_eq!(rows.len(), exhaustive_rows(&all, &top(true).rows, 5).len());
    assert!(accepted_pruned_rows(&top(false), &all, 5).is_none());
    assert!(accepted_pruned_rows(&top(true), &vec![visible(1, 1)], 5).is_none());
}

#[test]
fn a_search_is_checked_in_order() {
    let check = |null: bool, segmented: bool, limit: i32, snippet: &str, columns: i16, key: i16, text: bool| {
        check_search(null, segmented, limit, snippet, columns, key, text)
    };
    assert_eq!(check(true, false, -1, "x", 2, 0, false), Err(SearchError::NullQuery));
    assert_eq!(check(false, false, -1, "x", 2, 0, false), Err(SearchError::NotSegmented));
    assert_eq!(check(false, true, -1, "x", 2, 0, false), Err(SearchError::NegativeLimit));
    assert_eq!(check(false, true, 0, "x", 2, 0, false), Err(SearchError::UnknownSnippet));
    assert_eq!(check(false, true, 0, "html", 2, 0, false), Err(SearchError::SeveralColumns));
    assert_eq!(check(false, true, 0, "html", 1, 0, false), Err(SearchError::ExpressionKey));
    assert_eq!(check(false, true, 0, "html", 1, 3, false), Err(SearchError::NotText));
    assert_eq!(
        check(false, true, 7, "ansi", 1, 3, true),
        Ok(SearchRequest { limit: 7, mode: SnippetMode::Ansi, column: 3 })
    );
    assert!(check(false, true, 7, "none", 1, 0, false).is_ok());
    assert_eq!(validate_snippet("none"), Ok(SnippetMode::Nothing));
    assert_eq!(validate_shape(1, 3, false, true), Err(SearchError::NotText));
}

#[test]
fn refusals_are_told_in_words() {
    let words = [
        (SearchError::NullQuery, "stannum.search() query must not be NULL"),
        (SearchError::NotSegmented, "stannum.search() requires a segmented stannum index"),
        (SearchError::NegativeLimit, "stannum.search() limit must be non-negative"),
        (SearchError::UnknownSnippet, "stannum.search() snippet must be one of: none, html, ansi"),
        (SearchError::SeveralColumns, "stannum.search() supports a single text column until LSG4"),
    ];
    for (error, text) in words {
        assert_eq!(error.message(), text);
    }
    assert!(SearchError::ExpressionKey.message().contains("use snippet => 'none' for an expression index"));
    assert!(SearchError::NotText.message().contains("use snippet => 'none' for degraded mode"));
}

#[test]
fn a_count_is_checked_in_order() {
    assert_eq!(check_search_count(true, false, 2), Err(CountError::NullQuery));
    assert_eq!(check_search_count(false, false, 2), Err(CountError::NotSegmented));
    assert_eq!(check_search_count(false, true, 2), Err(CountError::SeveralColumns));
    assert_eq!(check_search_count(false, true, 1), Ok(()));
    assert_eq!(CountError::NullQuery.message(), "stannum.search_count() query must not be NULL");
    assert_eq!(
        CountError::NotSegmented.message(),
        "stannum.search_count() requires a segmented stannum index"
    );
    assert_eq!(CountError::SeveralColumns.message(), SearchError::SeveralColumns.message());
}

#[test]
fn large_limits_are_searched_exhaustively() {
    assert_eq!(search_path(0), SearchPath::Nothing);
    assert_eq!(search_path(1), SearchPath::Pruned);
    assert_eq!(search_path(PRUNE_MAX_K), SearchPath::Pruned);
    assert_eq!(search_path(PRUNE_MAX_K + 1), SearchPath::Exhaustive);
    assert!(still_shown(visible(1, 9), Some(tid(9))));
    assert!(!still_shown(visible(1, 9), Some(tid(1))) && !still_shown(visible(1, 9), None));
}

#[test]
fn locations_survive_as_halves() {
    let at = Tid { block: 0x0001_8002, offset: 7 };
    assert_eq!(pointer_of(at), (1, 0x8002, 7));
    assert_eq!(tid_of((1, 0x8002, 7), 291), Some(at));
    assert_eq!(tid_of((1, 2, 0), 291), None);
    assert_eq!(tid_of((1, 2, 292), 291), None);
}

fn term(text: &str) -> Query {
    Query::Term(text.to_owned())
}

fn scan_key(parsed: Result<Query, String>) -> ScanKey {
    ScanKey { null: false, other_flags: false, bound: None, parsed }
}

#[test]
fn scan_keys_are_queries() {
    let two = || vec![scan_key(Ok(term("a"))), ScanKey { bound: Some(7), ..scan_key(Ok(term("b"))) }];
    match amrescan(two(), Some(7)) {
        Ok(ScanPlan::Queries(queries)) => {
            assert!(matches!(&queries[0], Query::Term(text) if text == "a"));
            assert!(matches!(&queries[1], Query::Term(text) if text == "b"));
            assert_eq!(queries.len(), 2);
        }
        other => panic!("{other:?}"),
    }
    assert!(matches!(amrescan(two(), Some(8)), Ok(ScanPlan::Fallback)));
    assert!(matches!(amrescan(two(), None), Ok(ScanPlan::Fallback)));
    assert!(matches!(amrescan(vec![], Some(7)), Ok(ScanPlan::Inactive)));
}

#[test]
fn null_keys_match_nothing_and_bad_queries_are_errors() {
    let bad = || scan_key(Err("no term".to_owned()));
    let null = ScanKey { null: true, ..bad() };
    assert!(matches!(amrescan(vec![bad(), null], Some(7)), Ok(ScanPlan::Inactive)));
    assert!(matches!(amrescan(vec![bad()], None), Err(message) if message == "no term"));
    let flagged = || ScanKey { other_flags: true, ..scan_key(Ok(term("a"))) };
    assert!(matches!(amrescan(vec![flagged(), bad()], Some(7)), Ok(ScanPlan::Fallback)));
    assert!(matches!(amrescan(vec![bad(), flagged()], Some(7)), Err(_)));
    assert_eq!(fallback_rows(u32::MAX), i64::from(u32::MAX) * 10);
}
