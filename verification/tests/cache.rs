use stannum::cache::{mode_is_full, mode_is_max, CacheKey, ScanScorers};
use stannum::plan::{Candidate, Match};
use stannum::ranking::Row;
use stannum::score_call::{
    check_scored_index, combine_constant_queries, find_where_quals, inspected_terms,
    route_score_call, score_arguments, score_context_error, score_function, score_mode,
    score_support, BoundArgument, JoinTree, ScoreClause, ScoreFunction, ScoreRoute, ScorerError,
    SiblingCalls,
};
use stannum::tid::Tid;

fn tid(n: u32) -> Tid {
    Tid { block: n, offset: 1 }
}

fn key(statement: u64, query: &str) -> CacheKey {
    CacheKey {
        statement,
        heap_oid: 1,
        index_oid: 2,
        query: query.to_owned(),
        full: false,
        dense: 0.1f32.to_bits(),
        k1: None,
        b: Some(3),
        add: Some(vec!["x".to_owned()]),
        replace: None,
    }
}

fn rows(score: u32) -> Vec<Row> {
    vec![Row { score, tid: tid(4) }, Row { score: score - 1, tid: tid(5) }]
}

#[test]
fn a_scorer_answers_calls_of_its_statement_and_query() {
    let kept = key(7, "beer");
    assert!(kept.answers(&key(7, "beer")));
    assert!(!kept.answers(&key(8, "beer")));
    assert!(kept.is_same_query(&key(8, "beer")));
    for other in [
        key(7, "ale"),
        CacheKey { heap_oid: 9, ..key(7, "beer") },
        CacheKey { index_oid: 9, ..key(7, "beer") },
        CacheKey { full: true, ..key(7, "beer") },
        CacheKey { dense: 0, ..key(7, "beer") },
        CacheKey { k1: Some(1), ..key(7, "beer") },
        CacheKey { b: None, ..key(7, "beer") },
        CacheKey { add: None, ..key(7, "beer") },
        CacheKey { add: Some(vec![]), ..key(7, "beer") },
        CacheKey { replace: Some(vec![]), ..key(7, "beer") },
    ] {
        assert!(!kept.is_same_query(&other) && !kept.answers(&other));
    }
}

#[test]
fn a_row_carries_the_score_of_the_scan_that_emitted_it() {
    let mut scans = ScanScorers::new();
    scans.note_executor_start();
    let statement = scans.current_statement();
    let (first, second) = (scans.scan_id(), scans.scan_id());
    scans.publish_scan_scorer(first, key(statement, "beer"), "first", &rows(100));
    scans.publish_scan_scorer(second, key(statement, "beer"), "second", &rows(200));
    let call = key(statement, "beer");
    assert_eq!(scans.score_from_scan(&call, tid(4)), None);
    scans.note_scan_emitted(second, tid(4), tid(4));
    assert_eq!(scans.score_from_scan(&call, tid(4)), Some(200));
    // The newest emission wins, also at the root of another chain.
    scans.note_scan_emitted(first, tid(4), tid(5));
    assert_eq!(scans.score_from_scan(&call, tid(4)), Some(99));
    assert_eq!(scans.score_from_scan(&key(statement, "ale"), tid(4)), None);
    assert_eq!(scans.score_from_scan(&call, tid(5)), None);
    // A row whose root was not ranked has no score to carry.
    scans.note_scan_emitted(first, tid(4), tid(9));
    assert_eq!(scans.score_from_scan(&call, tid(4)), None);
    // A later statement's calls are for other rows.
    scans.note_executor_start();
    assert_eq!(scans.score_from_scan(&key(scans.current_statement(), "beer"), tid(4)), None);
    scans.note_scan_emitted(9_999, tid(4), tid(4));
}

#[test]
fn a_scan_takes_its_scorer_back() {
    let mut scans = ScanScorers::new();
    let scan = scans.scan_id();
    assert_eq!(scans.take_scan_scorer(scan), None);
    scans.publish_scan_scorer(scan, key(0, "beer"), "old", &rows(100));
    scans.publish_scan_scorer(scan, key(0, "beer"), "new", &rows(100));
    assert_eq!(scans.scans.len(), 1);
    assert_eq!(scans.take_scan_scorer(scan), Some("new"));
    assert!(scans.scans.is_empty());
    scans.publish_scan_scorer(scan, key(0, "beer"), "last", &rows(100));
    scans.note_scan_emitted(scan, tid(4), tid(4));
    scans.forget_scan_scorer(scan + 1);
    assert_eq!(scans.score_from_scan(&key(0, "beer"), tid(4)), Some(100));
    scans.forget_scan_scorer(scan);
    assert_eq!(scans.score_from_scan(&key(0, "beer"), tid(4)), None);
}

#[test]
fn stamps_and_statements_wrap_around() {
    let mut scans: ScanScorers<()> = ScanScorers::new();
    scans.last_stamp = u64::MAX;
    assert_eq!(scans.next_stamp(), 0);
    assert_eq!(scans.scan_id(), 1);
    scans.statement = u64::MAX;
    scans.note_executor_start();
    assert_eq!(scans.current_statement(), 0);
}

#[test]
fn a_score_call_is_routed() {
    let mut scans = ScanScorers::new();
    let scan = scans.scan_id();
    scans.publish_scan_scorer(scan, key(0, "beer"), (), &rows(100));
    scans.note_scan_emitted(scan, tid(4), tid(4));
    let call = key(0, "beer");
    let other = key(0, "ale");
    let route = |cached: Option<&CacheKey>, mode: i32, tid: Option<Tid>| {
        route_score_call(&scans, cached, &call, mode, tid)
    };
    assert_eq!(route(None, 0, Some(tid(4))), ScoreRoute::Ranked(100));
    assert_eq!(route(Some(&call), 1, Some(tid(5))), ScoreRoute::Cached);
    assert_eq!(route(Some(&other), 1, Some(tid(5))), ScoreRoute::Build);
    assert_eq!(route(None, 0, None), ScoreRoute::InvalidLocation);
    assert_eq!(route(None, 2, None), ScoreRoute::Build);
    assert_eq!(route(Some(&call), 3, Some(tid(4))), ScoreRoute::Cached);
}

#[test]
fn an_index_must_be_the_tables_and_readable() {
    assert_eq!(check_scored_index(true, true), Ok(()));
    assert_eq!(check_scored_index(false, false), Err(ScorerError::WrongTable));
    assert_eq!(check_scored_index(true, false), Err(ScorerError::Unreadable));
    assert_eq!(
        ScorerError::WrongTable.message(),
        "score index does not belong to the supplied table"
    );
    assert_eq!(
        ScorerError::Unreadable.message(),
        "indexed scoring is unavailable for this index during recovery; use stannum.score or stannum.full_score"
    );
    assert_eq!(
        score_context_error("stannum.score()"),
        "stannum.score() requires a stannum index scan and cannot be used in this query context"
    );
}

#[test]
fn the_mode_follows_the_function_and_its_siblings() {
    let siblings = |dense: bool, full: bool| SiblingCalls { dense, full };
    assert_eq!(score_mode(score_function("score"), siblings(false, true)), 0);
    assert_eq!(score_mode(score_function("full_score"), siblings(true, false)), 1);
    let max = score_function("max_score");
    assert_eq!(score_mode(max, siblings(true, false)), 2);
    assert_eq!(score_mode(max, siblings(true, true)), 3);
    assert_eq!(score_mode(max, siblings(false, false)), 3);
    assert_eq!((mode_is_full(1), mode_is_full(3), mode_is_full(2)), (true, true, false));
    assert_eq!((mode_is_max(1), mode_is_max(2), mode_is_max(3)), (false, true, true));
    let mut found = siblings(false, false);
    found.note_bound(3);
    assert_eq!(found, siblings(false, false));
    found.note_bound(0);
    found.note_unbound(ScoreFunction::FullScore);
    assert_eq!(found, siblings(true, true));
    let mut found = siblings(false, false);
    found.note_bound(1);
    found.note_unbound(ScoreFunction::Score);
    assert_eq!(found, siblings(true, true));
}

#[test]
fn bound_calls_have_ten_arguments() {
    for (mode, given, segmented) in [(0, 6, true), (1, 1, true), (1, 3, false), (2, 1, true), (3, 1, false)] {
        let arguments = score_arguments(mode, given, segmented);
        assert_eq!(arguments.len(), 10);
        let first = if segmented { BoundArgument::Location } else { BoundArgument::Document };
        assert_eq!(arguments[0], first);
        assert_eq!(arguments[4], BoundArgument::Mode);
    }
    let given = |place: i32| BoundArgument::Given(place);
    assert_eq!(
        score_arguments(0, 6, true)[5..],
        [given(1), given(2), given(3), given(4), given(5)]
    );
    let (float, array) = (BoundArgument::NullFloat, BoundArgument::NullArray);
    assert_eq!(score_arguments(1, 3, true)[5..], [float, given(1), given(2), array, array]);
    assert_eq!(score_arguments(1, 1, true)[5..], [float, float, float, array, array]);
}

#[test]
fn constant_queries_on_one_document_are_joined() {
    let text = |query: &str| Some(query.to_owned());
    assert_eq!(
        combine_constant_queries(&vec![text("a"), text("b OR c"), text("d")]),
        text("(a) OR (b OR c) OR (d)")
    );
    assert_eq!(combine_constant_queries(&vec![text("a")]), None);
    assert_eq!(combine_constant_queries(&vec![text("a"), None]), None);
    assert_eq!(combine_constant_queries(&vec![]), None);
}

#[test]
fn where_clauses_are_found_through_joins() {
    let from = |quals: Vec<u32>, items: Vec<JoinTree<u32>>| JoinTree::From { quals, items };
    let tree = from(
        vec![1],
        vec![
            JoinTree::Join {
                left: Box::new(from(vec![2, 3], vec![JoinTree::Leaf])),
                right: Box::new(JoinTree::Leaf),
            },
            from(vec![4], vec![from(vec![5], vec![])]),
        ],
    );
    let mut found = vec![0];
    find_where_quals(&tree, &mut found);
    assert_eq!(found, vec![0, 1, 2, 3, 4, 5]);
}

#[test]
fn a_score_call_is_bound_to_the_index_of_its_clause() {
    let candidate = |index: u32, spec: u64| Candidate { index, field: 0, spec };
    let clause = |document: usize, query: Option<&str>, bound, candidates| ScoreClause {
        document,
        query: query.map(str::to_owned),
        bound,
        candidates,
    };
    let clauses = vec![
        clause(0, Some("a"), Some((9, 9)), vec![candidate(1, 1)]),
        clause(1, Some("b"), Some((5, 2)), vec![candidate(1, 1), candidate(2, 2)]),
        clause(0, Some("c"), None, vec![candidate(1, 1)]),
        clause(1, Some("d"), None, vec![]),
    ];
    let bound = score_support(true, true, &clauses).unwrap();
    assert_eq!(bound.found, Match { place: 1, index: candidate(2, 2) });
    assert_eq!(bound.query.as_deref(), Some("(b) OR (d)"));
    assert!(score_support(false, true, &clauses).is_none());
    assert!(score_support(true, false, &clauses).is_none());
    assert!(score_support(true, true, &vec![]).is_none());
    let parameter = vec![
        clause(1, None, None, vec![candidate(1, 1)]),
        clause(1, Some("d"), None, vec![]),
    ];
    assert_eq!(score_support(true, true, &parameter).unwrap().query, None);
}

#[test]
fn array_arguments_hold_no_null() {
    let text = |value: &str| Some(value.to_owned());
    assert_eq!(inspected_terms("term_add", None), Ok(None));
    assert_eq!(
        inspected_terms("term_add", Some(vec![text("a"), text("b")])),
        Ok(Some(vec!["a".to_owned(), "b".to_owned()]))
    );
    assert_eq!(
        inspected_terms("term_replace", Some(vec![text("a"), None])),
        Err("stannum.score_inspect() term_replace array elements must not be NULL".to_owned())
    );
}
