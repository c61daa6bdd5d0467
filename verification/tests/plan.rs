use stannum::clause::{
    bind_to_index, bound_index, bound_operand, has_unbound_clause, predicate_binding, query_text,
    search_clause, single_varno, supports, warn_about_search_predicate, BoundClause, BoundOperand,
    ClauseQuery, Expression, Reentry, RelationKind, ResultType,
};
use stannum::operator::indexed_query;
use stannum::plan::{
    binds_limits, find_match, find_ordering, matching_stannum_indexes, oid_of, path_match,
    path_parallel_safe, pick_index, predicate_proven, searchable, Argument, BoundExpression,
    Candidate, CountShape, DocumentOperand, IndexPredicate, IndexShape, Match, QueryOperand,
    QueryShape, Restriction, ScoreCall, ScoreOrder, SortExpression,
};
use stannum::plan_data::{Item, Private};
use stannum::selectivity::{
    estimate_query, has_foreign_clause, index_path_clauses, note_executor_start, EstimateMemo,
    Estimator,
};
use std::cell::Cell;

fn candidate(index: u32, spec: u64) -> Candidate {
    Candidate { index, field: 0, spec }
}

#[test]
fn a_clause_is_answered_with_its_own_settings() {
    let candidates = vec![candidate(10, 1), candidate(20, 2), candidate(30, 2)];
    assert_eq!(pick_index(&candidates, Some((30, 2))), Some(candidate(30, 2)));
    assert_eq!(pick_index(&candidates, Some((99, 2))), Some(candidate(20, 2)));
    assert_eq!(pick_index(&candidates, Some((99, 7))), None);
    assert_eq!(pick_index(&candidates, None), Some(candidate(10, 1)));
    assert_eq!(pick_index(&vec![], None), None);
}

#[test]
fn an_index_matches_a_clause_on_any_key_column() {
    let shape = |index: u32, suitable: bool, keys: Vec<i16>, expression_matches: bool| IndexShape {
        index,
        spec: 5,
        suitable,
        keys,
        expression_matches,
    };
    let indexes = vec![
        shape(1, true, vec![2, 4], false),
        shape(2, false, vec![4], false),
        shape(3, true, vec![4], false),
        shape(4, true, vec![0], true),
        shape(5, true, vec![0], false),
    ];
    let column = DocumentOperand::Variable { varno: 1, level: 0, attribute: 4 };
    let found = matching_stannum_indexes(&indexes, column);
    assert_eq!(
        found,
        vec![
            Candidate { index: 1, field: 1, spec: 5 },
            Candidate { index: 3, field: 0, spec: 5 },
            Candidate { index: 4, field: 0, spec: 5 },
        ]
    );
    let expression = matching_stannum_indexes(&indexes, DocumentOperand::Expression);
    assert_eq!(expression, vec![Candidate { index: 4, field: 0, spec: 5 }]);
    for operand in [
        DocumentOperand::Variable { varno: 2, level: 0, attribute: 4 },
        DocumentOperand::Variable { varno: 1, level: 1, attribute: 4 },
        DocumentOperand::Variable { varno: 1, level: 0, attribute: -1 },
        DocumentOperand::Variable { varno: 1, level: 0, attribute: 9 },
    ] {
        assert_eq!(indexes[0].matched_field(operand), None);
    }
    let wide: Vec<i16> = (1..=300).collect();
    let at = |attribute: i16| DocumentOperand::Variable { varno: 1, level: 0, attribute };
    assert_eq!(shape(6, true, wide.clone(), false).matched_field(at(256)), Some(255));
    assert_eq!(shape(6, true, wide, false).matched_field(at(257)), None);
}

#[test]
fn a_partial_index_needs_its_predicate() {
    let predicate = |index: u32, partial: bool, implied: bool| IndexPredicate { index, partial, implied };
    let predicates = vec![predicate(1, false, false), predicate(2, true, false), predicate(3, true, true)];
    assert!(predicate_proven(&predicates, 1));
    assert!(!predicate_proven(&predicates, 2));
    assert!(predicate_proven(&predicates, 3));
    assert!(!predicate_proven(&predicates, 4));
}

fn search(query: QueryOperand, candidates: Vec<Candidate>) -> Restriction {
    Restriction::Search { query, bound: None, candidates }
}

#[test]
fn the_first_answerable_restriction_is_found() {
    let restrictions = vec![
        Restriction::Other,
        search(QueryOperand::Other, vec![candidate(1, 1)]),
        search(QueryOperand::Constant("a".to_owned()), vec![]),
        search(QueryOperand::Parameter, vec![candidate(2, 1)]),
        search(QueryOperand::Constant("b".to_owned()), vec![candidate(3, 1)]),
    ];
    let parameter = Match { place: 3, index: candidate(2, 1) };
    let constant = Match { place: 4, index: candidate(3, 1) };
    assert_eq!(find_match(&restrictions, true), Some(parameter));
    assert_eq!(find_match(&restrictions, false), Some(constant));
    assert_eq!(find_match(&vec![], true), None);
    assert_eq!(path_match(parameter, false, true, Some(constant)), Some(parameter));
    assert_eq!(path_match(parameter, false, false, Some(constant)), Some(constant));
    assert_eq!(path_match(parameter, false, false, None), None);
    assert_eq!(path_match(constant, true, false, None), Some(constant));
}

fn call() -> ScoreCall {
    ScoreCall {
        same_query: true,
        index: Argument::Value(7),
        mode: Argument::Value(1),
        dense_ratio: Argument::Null,
        k1: Argument::Value(3),
        b: Argument::Null,
        term_add: Argument::Value(vec!["hops".to_owned()]),
        term_replace: Argument::Null,
    }
}

fn ordering(call: ScoreCall) -> Option<ScoreOrder> {
    find_ordering(1, true, vec![SortExpression::Other, SortExpression::ScoreCall(call)], 7, Some(10))
}

#[test]
fn a_descending_score_orders_a_scan() {
    let order = ordering(call()).unwrap();
    assert!(order.full);
    assert_eq!((order.dense_ratio, order.k1, order.b), (None, Some(3), None));
    assert_eq!(order.term_add, Some(vec!["hops".to_owned()]));
    assert_eq!((order.term_replace, order.top_k), (None, Some(10)));
    assert!(!ordering(ScoreCall { mode: Argument::Value(0), ..call() }).unwrap().full);
    let members = || vec![SortExpression::ScoreCall(call())];
    assert!(find_ordering(2, true, members(), 7, None).is_none());
    assert!(find_ordering(1, false, members(), 7, None).is_none());
    assert!(find_ordering(1, true, members(), 8, None).is_none());
}

#[test]
fn a_score_call_orders_only_with_constants_on_the_same_query() {
    assert!(ordering(ScoreCall { same_query: false, ..call() }).is_none());
    assert!(ordering(ScoreCall { index: Argument::Null, ..call() }).is_none());
    assert!(ordering(ScoreCall { mode: Argument::Null, ..call() }).is_none());
    assert!(ordering(ScoreCall { k1: Argument::NotConstant, ..call() }).is_none());
    assert!(ordering(ScoreCall { b: Argument::NotConstant, ..call() }).is_none());
    assert!(ordering(ScoreCall { dense_ratio: Argument::NotConstant, ..call() }).is_none());
    assert!(ordering(ScoreCall { term_add: Argument::NotConstant, ..call() }).is_none());
    assert!(ordering(ScoreCall { term_replace: Argument::NotConstant, ..call() }).is_none());
    assert_eq!(oid_of(-1), u32::MAX);
    assert_eq!(oid_of(7), 7);
}

#[test]
fn plan_parameters_survive_in_a_list() {
    let plain = Private { index_oid: 3, heap_oid: 4, query: "beer".to_owned(), order: None };
    let list = plain.to_list();
    assert_eq!(list.len(), 5);
    assert!(matches!(list[4], Item::Integer(-1)));
    let back = Private::from_list(&list);
    assert_eq!((back.index_oid, back.heap_oid, back.query.as_str()), (3, 4, "beer"));
    assert!(back.order.is_none());

    let order = ScoreOrder {
        full: true,
        dense_ratio: Some(0.1f32.to_bits()),
        k1: None,
        b: Some(0),
        term_add: Some(vec!["hops".to_owned(), String::new()]),
        term_replace: Some(vec![]),
        top_k: Some(12),
    };
    let list = Private { order: Some(order), ..plain }.to_list();
    assert_eq!(list.len(), 11);
    assert!(matches!(&list[5], Item::Text(text) if *text == 0.1f32.to_bits().to_string()));
    assert!(matches!(&list[6], Item::Text(text) if text.is_empty()));
    let order = Private::from_list(&list).order.unwrap();
    assert!(order.full);
    assert_eq!((order.dense_ratio, order.k1, order.b), (Some(0.1f32.to_bits()), None, Some(0)));
    assert_eq!(order.term_add, Some(vec!["hops".to_owned(), String::new()]));
    // A list that is empty is no list.
    assert_eq!(order.term_replace, None);
    assert_eq!(order.top_k, Some(12));
}

fn plain_select() -> QueryShape {
    QueryShape {
        aggregates: false,
        window_functions: false,
        target_srfs: false,
        group_clause: false,
        grouping_sets: false,
        distinct_clause: false,
        having: false,
        set_operations: false,
        from_items: Some(1),
        from_is_relation: true,
    }
}

#[test]
fn limits_are_bound_below_a_plain_ranked_select_only() {
    let parameter = BoundExpression::Parameter { external: true, bigint: true };
    let constant = BoundExpression::Constant { bigint: true };
    let absent = BoundExpression::Absent;
    let shape = plain_select();
    assert!(binds_limits(true, false, shape, parameter, absent));
    assert!(binds_limits(true, false, shape, constant, parameter));
    assert!(!binds_limits(true, false, shape, constant, absent));
    assert!(!binds_limits(true, false, shape, absent, parameter));
    assert!(!binds_limits(false, false, shape, parameter, absent));
    assert!(!binds_limits(true, true, shape, parameter, absent));
    assert!(!binds_limits(true, false, shape, parameter, BoundExpression::Other));
    let inner = BoundExpression::Parameter { external: false, bigint: true };
    assert!(!binds_limits(true, false, shape, inner, absent));
    assert!(!BoundExpression::Constant { bigint: false }.safe_bound_expr());
    for shape in [
        QueryShape { aggregates: true, ..shape },
        QueryShape { window_functions: true, ..shape },
        QueryShape { target_srfs: true, ..shape },
        QueryShape { group_clause: true, ..shape },
        QueryShape { grouping_sets: true, ..shape },
        QueryShape { distinct_clause: true, ..shape },
        QueryShape { having: true, ..shape },
        QueryShape { set_operations: true, ..shape },
        QueryShape { from_items: None, ..shape },
        QueryShape { from_items: Some(2), ..shape },
        QueryShape { from_is_relation: false, ..shape },
    ] {
        assert!(!shape.runtime_bound_shape());
        assert!(!binds_limits(true, false, shape, parameter, absent));
    }
}

#[test]
fn a_count_scan_answers_a_bare_count() {
    let shape = CountShape {
        enabled: true,
        grouping_stage: true,
        aggregates: true,
        group_clause: false,
        having: false,
        window_functions: false,
        distinct_on: false,
        grouping_sets: false,
        targets: 1,
        target_is_aggregate: true,
        star: true,
        filter: false,
        distinct: false,
        order: false,
        base_relation: true,
        restrictions: 1,
        table: true,
    };
    assert!(shape.countable());
    for other in [
        CountShape { enabled: false, ..shape },
        CountShape { grouping_stage: false, ..shape },
        CountShape { aggregates: false, ..shape },
        CountShape { group_clause: true, ..shape },
        CountShape { having: true, ..shape },
        CountShape { window_functions: true, ..shape },
        CountShape { distinct_on: true, ..shape },
        CountShape { grouping_sets: true, ..shape },
        CountShape { targets: 2, ..shape },
        CountShape { target_is_aggregate: false, ..shape },
        CountShape { star: false, ..shape },
        CountShape { filter: true, ..shape },
        CountShape { distinct: true, ..shape },
        CountShape { order: true, ..shape },
        CountShape { base_relation: false, ..shape },
        CountShape { restrictions: 2, ..shape },
        CountShape { table: false, ..shape },
    ] {
        assert!(!other.countable());
    }
}

#[test]
fn ordered_paths_stay_out_of_workers() {
    assert!(path_parallel_safe(true, false, true));
    assert!(!path_parallel_safe(true, true, true));
    assert!(!path_parallel_safe(true, false, false));
    assert!(!path_parallel_safe(false, false, true));
    assert!(searchable(true, true, false));
    assert!(!searchable(true, true, true));
    assert!(!searchable(false, true, false) && !searchable(true, false, false));
}

fn text(value: &str) -> Expression {
    Expression::TextConstant(Some(value.to_owned()))
}

fn bound(index: u32, query: &str) -> Expression {
    Expression::BoundConstant(Some(indexed_query { index, query: query.to_owned() }))
}

fn column(varno: i32) -> Expression {
    Expression::Variable { varno, level: 0, result: ResultType::Text }
}

fn operator(name: &str, arguments: Vec<Expression>) -> Expression {
    Expression::Operator { name: name.to_owned(), arguments, result: ResultType::Other }
}

fn other(arguments: Vec<Expression>) -> Expression {
    Expression::Other { arguments, result: ResultType::Other }
}

#[test]
fn clauses_are_recognized_in_both_forms() {
    let clause = operator("==>", vec![column(1), text("beer")]);
    let found = search_clause(&clause).unwrap();
    assert!(matches!(found.query, ClauseQuery::Expression(Expression::TextConstant(Some(_)))));
    assert_eq!(found.index, None);
    let clause = operator("==>", vec![column(1), bound(9, "beer")]);
    let found = search_clause(&clause).unwrap();
    assert!(matches!(found.query, ClauseQuery::Text(text) if text == "beer"));
    assert_eq!(found.index, Some(9));
    let call = Expression::BindQuery(vec![column(1), Expression::OidConstant(Some(4))]);
    let clause = operator("==>", vec![column(1), call]);
    assert_eq!(search_clause(&clause).unwrap().index, Some(4));
    for no_clause in [
        operator("=", vec![column(1), text("beer")]),
        operator("==>", vec![column(1)]),
        operator("==>", vec![column(1), Expression::OtherConstant]),
        operator("==>", vec![column(1), Expression::BoundConstant(None)]),
        operator("==>", vec![column(1), Expression::BindQuery(vec![])]),
        text("beer"),
    ] {
        assert!(search_clause(&no_clause).is_none());
    }
    assert_eq!(query_text(&bound(9, "beer")), Some("beer".to_owned()));
    assert_eq!(query_text(&text("ale")), Some("ale".to_owned()));
    assert_eq!(query_text(&column(1)), None);
    assert_eq!(bound_index(&bound(9, "beer")), Some(9));
    assert_eq!(bound_index(&text("ale")), None);
}

#[test]
fn the_variables_of_a_document_are_of_one_relation() {
    assert_eq!(single_varno(&other(vec![column(2), text("x"), column(2)])), Some(2));
    assert_eq!(single_varno(&other(vec![column(2), column(3)])), None);
    assert_eq!(single_varno(&text("x")), None);
    let outer = Expression::Variable { varno: 1, level: 1, result: ResultType::Text };
    assert_eq!(single_varno(&outer), None);
}

#[test]
fn a_document_binds_to_the_first_index_whose_predicate_holds() {
    let candidates = vec![candidate(1, 1), candidate(2, 1), candidate(3, 1)];
    let holds = vec![false, true, true];
    let kinds = vec![RelationKind::Other, RelationKind::Indexable];
    assert_eq!(bind_to_index(&column(2), &kinds, &candidates, &holds), Some(candidates[1]));
    assert_eq!(bind_to_index(&column(1), &kinds, &candidates, &holds), None);
    assert_eq!(bind_to_index(&column(3), &kinds, &candidates, &holds), None);
    assert_eq!(bind_to_index(&text("x"), &kinds, &candidates, &holds), None);
    let none = vec![false, false, false];
    assert_eq!(bind_to_index(&column(2), &kinds, &candidates, &none), None);
}

#[test]
fn queries_are_bound_as_constants_or_calls() {
    assert!(matches!(
        bound_operand(&text("beer"), 6),
        Some(BoundOperand::Constant(indexed_query { index: 6, query })) if query == "beer"
    ));
    assert!(matches!(bound_operand(&column(1), 6), Some(BoundOperand::Call)));
    assert!(bound_operand(&Expression::TextConstant(None), 6).is_none());
    assert!(bound_operand(&bound(1, "beer"), 6).is_none());
}

#[test]
fn a_predicate_with_a_clause_is_warned_about() {
    let predicate = other(vec![operator("==>", vec![column(1), text("beer")])]);
    assert!(has_unbound_clause(&predicate));
    assert!(!has_unbound_clause(&other(vec![operator("==>", vec![column(1), bound(1, "x")])])));
    let warning = warn_about_search_predicate(&predicate, false, "docs_idx").unwrap();
    assert_eq!(
        warning,
        "==> in the predicate of index \"docs_idx\" uses the default tokenizer settings, not the index's: the index holds the rows the defaults match, and a query bound to the index cannot prove its predicate"
    );
    assert!(warn_about_search_predicate(&predicate, true, "docs_idx").is_none());
    assert!(warn_about_search_predicate(&column(1), false, "docs_idx").is_none());
}

#[test]
fn a_predicate_is_proved_by_a_clause_with_default_settings() {
    let clause = |document: usize, query: &str, index: u32, default_settings: bool| BoundClause {
        document,
        query: query.to_owned(),
        index,
        default_settings,
    };
    let bindings = vec![
        clause(0, "ale", 1, true),
        clause(1, "beer", 2, false),
        clause(0, "beer", 3, true),
        clause(1, "beer", 4, true),
    ];
    assert_eq!(predicate_binding(&bindings, 0, "beer"), Some(3));
    assert_eq!(predicate_binding(&bindings, 1, "beer"), None);
    assert_eq!(predicate_binding(&bindings, 0, "stout"), None);
    let mut reentry = Reentry { inside: false };
    assert!(supports(true, reentry, 2));
    assert!(!supports(false, reentry, 2) && !supports(true, reentry, 3));
    reentry.enter();
    assert!(!supports(true, reentry, 2));
    reentry.leave();
    assert!(supports(true, reentry, 2));
}

#[test]
fn estimates_last_for_a_statement() {
    let mut memo = EstimateMemo::new();
    memo.remember(1, "beer", 10, 0.25f64.to_bits());
    memo.remember(1, "ale", 10, 0.5f64.to_bits());
    memo.remember(1, "beer", 11, 0.75f64.to_bits());
    assert_eq!(memo.recall(1, "beer", 10), None);
    assert_eq!(memo.recall(1, "beer", 11), Some(0.75f64.to_bits()));
    assert_eq!(memo.recall(1, "ale", 10), Some(0.5f64.to_bits()));
    assert_eq!(memo.recall(2, "ale", 10), None);
    note_executor_start(&mut memo);
    assert_eq!(memo.recall(1, "ale", 10), None);
}

#[test]
fn a_query_is_estimated_once_for_a_content() {
    let asked = Cell::new(0);
    let estimator = Estimator {
        estimate: |query: &str| {
            asked.set(asked.get() + 1);
            (query != "bad").then_some(query.len() as u64)
        },
    };
    let mut memo = EstimateMemo::new();
    let mut ask = |query: &str, segmented: bool, stamp: Option<u64>| {
        estimate_query(&mut memo, 1, query, segmented, stamp, &estimator)
    };
    assert_eq!(ask("beer", false, Some(1)), None);
    assert_eq!(ask("beer", true, None), None);
    assert_eq!(asked.get(), 0);
    assert_eq!(ask("beer", true, Some(1)), Some(4));
    assert_eq!(ask("beer", true, Some(1)), Some(4));
    assert_eq!(asked.get(), 1);
    assert_eq!(ask("beer", true, Some(2)), Some(4));
    assert_eq!(ask("bad", true, Some(2)), None);
    assert_eq!(ask("bad", true, Some(2)), None);
    assert_eq!(asked.get(), 4);
}

#[test]
fn path_clauses_are_collected() {
    let nodes = vec![
        operator("==>", vec![column(1), text("beer")]),
        column(1),
        operator("==>", vec![column(1), bound(5, "ale")]),
        operator("==>", vec![column(1), column(2)]),
    ];
    let found: Vec<(Option<String>, Option<u32>)> = index_path_clauses(&nodes)
        .into_iter()
        .map(|clause| (clause.query, clause.bound))
        .collect();
    assert_eq!(
        found,
        vec![(Some("beer".to_owned()), None), (Some("ale".to_owned()), Some(5)), (None, None)]
    );
    assert!(has_foreign_clause(&vec![None, Some(3)], 4));
    assert!(!has_foreign_clause(&vec![None, Some(4)], 4));
}
