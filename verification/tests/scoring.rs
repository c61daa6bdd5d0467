use stannum::corpus::{
    corpus_documents, corpus_length, corpus_terms, document_frequency, score_corpus, term_frequency,
};
use stannum::options::Bm25Params;
use stannum::query::{
    check_query_fields, parse_query, prunable_shape, reject_foreign_fields, scan_query_text,
    FieldError, FieldMeta, Query, QueryError, RangeBound, SpanTermSlot,
};
use stannum::scoring::{Block, Scoring};
use stannum::setup::{
    check_inspect, collect_in_fields, index_statistics, inspect_arguments, inspect_corpus, inspect_index,
    prepare_corpus, prepare_scorer, BuildError, InspectError, LengthTotals, Prepared, ScoreRequest,
    ScoringTerm, UNBOOSTED,
};
use stannum::source::Combine;
use stannum::statistics::{
    corpus_universe, document_totals, field_total, retained_terms, total_length, Retention,
    SourceCounts, TermCounts,
};
use stannum::terms::{
    all_fields_mask, collect_score_terms, expand_in, Boosting, Collected, Expansion, Standing, Window,
};

fn term(text: &str) -> Query {
    Query::Term(text.to_owned())
}

fn field(name: &str, inner: Query) -> Query {
    Query::Field { name: name.to_owned(), inner: Box::new(inner) }
}

fn boost(factor: f32, inner: Query) -> Query {
    Query::Boost { factor: factor.to_bits(), inner: Box::new(inner) }
}

fn owned(texts: &[&str]) -> Vec<String> {
    texts.iter().map(|text| (*text).to_owned()).collect()
}

fn plan() -> FieldMeta {
    FieldMeta {
        names: owned(&["title", "body"]),
        weights: vec![2.0f32.to_bits(), 1.0f32.to_bits()],
    }
}

fn times(a: u32, b: u32) -> u32 {
    (f32::from_bits(a) * f32::from_bits(b)).to_bits()
}

#[test]
fn field_names_must_resolve() {
    let query = Query::And(Box::new(term("a")), Box::new(field("body", term("b"))));
    assert!(check_query_fields(&query, &Some(plan())).is_ok());
    let error = check_query_fields(&query, &None).unwrap_err();
    assert_eq!(error.message(), "stannum: field syntax requires a multi-column index");
    let query = Query::Not(Box::new(Query::Conjunction(vec![field("author", term("b"))])));
    let error = check_query_fields(&query, &Some(plan())).unwrap_err();
    assert_eq!(error.message(), "stannum: unknown field 'author'");
    assert!(check_query_fields(&term("a"), &None).is_ok());
}

#[test]
fn a_clause_answers_one_field() {
    let scoped = scan_query_text(Ok(term("a")), &Some(plan()), 1).unwrap();
    assert!(matches!(scoped, Query::Field { name, .. } if name == "body"));
    assert!(matches!(scan_query_text(Ok(term("a")), &None, 3), Ok(Query::Term(_))));
    let foreign = Query::Disjunction { min: 1, children: vec![term("a"), field("title", term("b"))] };
    match scan_query_text(Ok(foreign), &Some(plan()), 1) {
        Err(QueryError::Field(error)) => assert_eq!(
            error.message(),
            "stannum: this ==> clause answers 'body'; use stannum.search() for 'title'"
        ),
        other => panic!("{other:?}"),
    }
    match scan_query_text(Ok(term("a")), &Some(plan()), 2) {
        Err(QueryError::Field(error)) => assert_eq!(
            error.message(),
            "stannum: this ==> clause's column is not a field of its index"
        ),
        other => panic!("{other:?}"),
    }
    match scan_query_text(Err("no term".to_owned()), &None, 0) {
        Err(error) => assert_eq!(error.message("invalid ==> query: "), "invalid ==> query: no term"),
        other => panic!("{other:?}"),
    }
    assert!(reject_foreign_fields(&field("body", field("body", term("x"))), &"body".to_owned()).is_ok());
    assert!(matches!(
        reject_foreign_fields(&boost(2.0, field("x", term("x"))), &"body".to_owned()),
        Err(FieldError::Foreign(_, other)) if other == "x"
    ));
}

#[test]
fn flat_queries_are_prunable() {
    let (combine, leaves) =
        prunable_shape(&Query::Conjunction(vec![term("b"), term("a"), term("b")])).unwrap();
    assert_eq!(combine, Combine::All);
    assert!(leaves.contains(&"a".to_owned()) && leaves.contains(&"b".to_owned()));
    let (combine, leaves) = prunable_shape(&term("a")).unwrap();
    assert_eq!((combine, leaves), (Combine::Any, owned(&["a"])));
    assert!(prunable_shape(&Query::MatchAll).is_none());
    assert!(prunable_shape(&Query::Not(Box::new(term("a")))).is_none());
    assert!(prunable_shape(&field("body", term("a"))).is_none());
}

fn collected(query: &Query, fields: &FieldMeta, mask: u16) -> Result<Collected, FieldError> {
    let mut out = Collected::new();
    let standing = Standing { mask, boost: 1.0f32.to_bits(), explicitly_boosted: false };
    collect_score_terms(query, standing, fields, &Boosting { times }, &mut out)?;
    Ok(out)
}

#[test]
fn terms_are_collected_with_scope_and_boost() {
    let query = Query::And(
        Box::new(boost(2.0, Query::Or(
            Box::new(term("a")),
            Box::new(boost(0.25, field("body", term("b")))),
        ))),
        Box::new(Query::Conjunction(vec![
            Query::Not(Box::new(term("unscored"))),
            Query::MatchAll,
            Query::Span {
                term_slots: vec![
                    SpanTermSlot::Term("c".to_owned()),
                    SpanTermSlot::Fuzzy { term: "d".to_owned(), prefix: 1, distance: 2 },
                ],
            },
            Query::Range { lower: RangeBound::Open, upper: RangeBound::Term("m".to_owned()) },
        ])),
    );
    let found = collected(&query, &plan(), 3).unwrap();
    let terms: Vec<(&str, u16, f32, bool)> = found
        .terms
        .iter()
        .map(|t| (t.text.as_str(), t.mask, f32::from_bits(t.boost), t.explicitly_boosted))
        .collect();
    assert_eq!(terms, vec![("a", 3, 2.0, true), ("b", 2, 0.5, true), ("c", 3, 1.0, false)]);
    assert_eq!(found.expansions.len(), 2);
    assert!(matches!(&found.expansions[0].expansion, Expansion::Fuzzy { prefix: 1, distance: 2, .. }));
    assert!(matches!(&found.expansions[1].expansion, Expansion::Range(RangeBound::Open, _)));
    let inputs = found.resolve(vec![owned(&["dx", "dy"]), owned(&["e"])]);
    let texts: Vec<&str> = inputs.iter().map(|input| input.text.as_str()).collect();
    assert_eq!(texts, vec!["a", "b", "c", "dx", "dy", "e"]);
    assert!(matches!(collected(&field("x", term("a")), &plan(), 3), Err(FieldError::Unknown(_))));
}

#[test]
fn masks_cover_every_field() {
    let of = |n: usize| {
        Some(FieldMeta { names: vec![String::new(); n], weights: vec![0; n] })
    };
    assert_eq!(all_fields_mask(&None), 1);
    assert_eq!(all_fields_mask(&of(0)), 0);
    assert_eq!(all_fields_mask(&of(3)), 0b111);
    assert_eq!(all_fields_mask(&of(15)), 0x7fff);
    assert_eq!(all_fields_mask(&of(16)), u16::MAX);
}

#[test]
fn expansions_look_at_a_window_of_the_dictionary() {
    let fuzzy = Expansion::Fuzzy { term: "jalapeño".to_owned(), prefix: 2, distance: 1 };
    assert!(matches!(fuzzy.window(None), (Window::Prefix(text), true) if text == "ja"));
    let long = Expansion::Fuzzy { term: "ñu".to_owned(), prefix: 9, distance: 1 };
    assert!(matches!(long.window(None), (Window::Prefix(text), true) if text == "ñu"));
    let regex = Expansion::Regex("brew.*".to_owned());
    assert!(matches!(regex.window(Some("brew".to_owned())), (Window::Prefix(p), false) if p == "brew"));
    assert!(matches!(regex.window(None), (Window::All, true)));
    let range = Expansion::Range(RangeBound::Term("b".to_owned()), RangeBound::Open);
    assert!(matches!(
        range.window(None),
        (Window::Range(Some(lower), None), false) if lower == "b"
    ));
    let found = vec![owned(&["brew", "ale"]), owned(&["brew", "brewer"])];
    assert_eq!(expand_in(&found), owned(&["ale", "brew", "brewer"]));
}

fn counts(documents: u32, total_length: u64, field_totals: Vec<u64>, frequencies: Vec<u32>) -> SourceCounts {
    SourceCounts { documents, total_length, field_totals, frequencies }
}

#[test]
fn statistics_count_all_sources_and_elide_by_the_immutable_ones() {
    let sources = vec![
        counts(10, 100, vec![30, 70], vec![4, 1]),
        counts(5, 40, vec![10, 30], vec![0, 5]),
        counts(1, 2, vec![1, 1], vec![1, 0]),
    ];
    assert_eq!(document_totals(&sources, 2), (16, 15));
    assert_eq!(document_totals(&sources, 9), (16, 16));
    assert_eq!(total_length(&sources), 142);
    assert_eq!((field_total(&sources, 0), field_total(&sources, 1)), (41, 101));
    let retention = Retention {
        keeps: |_: usize, total: u64, immutable: u64, documents: u64| {
            total > 0 && immutable * 3 <= documents
        },
    };
    let first = TermCounts { term: 0, total: 5, immutable: 4 };
    assert_eq!(retained_terms(&sources, 2, 2, &retention), vec![first]);
    let statistics = index_statistics(&sources, 2, None::<usize>, 2, &retention);
    assert_eq!((statistics.documents, statistics.terms), (16, vec![first]));
    assert!(matches!(statistics.lengths, LengthTotals::Whole(142)));
    let statistics = index_statistics(&sources, 3, Some(2), 2, &retention);
    assert!(matches!(statistics.lengths, LengthTotals::Fields(totals) if totals == [41, 101]));
    let terms = vec![
        ScoringTerm { text: "ale".to_owned(), boost: UNBOOSTED },
        ScoringTerm { text: "beer".to_owned(), boost: 2.0f32.to_bits() },
    ];
    let rows = inspect_index(&sources, 2, &terms, &retention);
    assert_eq!(rows.len(), 1);
    assert_eq!((rows[0].text.as_str(), f32::from_bits(rows[0].boost)), ("ale", 1.0));
    let tokenized = vec![owned(&["beer"]), owned(&["beer", "ale"]), vec![], owned(&["x"])];
    let rows = inspect_corpus(&tokenized, &terms, &retention);
    assert_eq!(rows.len(), 1);
    assert_eq!(rows[0].text, "ale");
}

#[test]
fn a_corpus_is_scored_document_by_document() {
    let tokenized = vec![owned(&["beer", "ale", "beer"]), vec![], owned(&["ale"]), owned(&["stout"])];
    assert_eq!(term_frequency(&tokenized[0], "beer"), 2);
    assert_eq!(document_frequency(&tokenized, "ale"), 2);
    assert_eq!(corpus_documents(&tokenized), 3);
    assert_eq!(corpus_length(&tokenized), 5);
    assert_eq!(corpus_universe(&tokenized), owned(&["ale", "beer", "stout"]));
    let retention = Retention { keeps: |_: usize, held: u64, _: u64, n: u64| held < n };
    let kept = corpus_terms(&tokenized, &owned(&["ale", "beer", "none"]), &retention);
    let at = |term: usize, held: u64| TermCounts { term, total: held, immutable: held };
    assert_eq!(kept, vec![at(0, 2), at(1, 1), at(2, 0)]);
    let scoring = Scoring {
        plus: |a: u32, b: u32| (f32::from_bits(a) + f32::from_bits(b)).to_bits(),
        exact: |slot: usize, count: u32, length: u32| {
            ([1.0f32, 10.0][slot] * count as f32 / length as f32).to_bits()
        },
        bound: |_: usize, _: Block| 0,
        at_length: |_: usize, _: Block, _: u32| 0,
        from_length: |_: usize, _: Block, _: u32| 0,
    };
    let documents = owned(&["beer ale beer", "", "ale", "stout"]);
    let matched = vec![false, true, true, true];
    let corpus = score_corpus(&scoring, &owned(&["ale", "beer"]), &documents, &tokenized, &matched);
    let score = |document: &str| f32::from_bits(corpus.score(document));
    assert_eq!(score("beer ale beer"), 1.0f32 / 3.0 + 20.0 / 3.0);
    assert_eq!(score("ale"), 1.0);
    assert_eq!((score("stout"), score(""), score("unknown")), (0.0, 0.0, 0.0));
    assert_eq!(f32::from_bits(corpus.max), 1.0);
    assert_eq!(f32::from_bits(corpus.bound_score(2, "beer ale beer")), 1.0);
    assert_eq!(corpus.bound_score(0, "ale"), corpus.score("ale"));
    // Of documents that read alike, the last gives the score.
    let documents = owned(&["ale", "stout", "stout", "ale"]);
    let corpus = score_corpus(&scoring, &owned(&["ale", "beer"]), &documents, &tokenized, &matched);
    let score = |document: &str| f32::from_bits(corpus.score(document));
    assert_eq!((score("ale"), score("stout"), score("Ale")), (0.0, 1.0, 0.0));
}

fn request() -> ScoreRequest {
    ScoreRequest {
        belongs: true,
        parameters: Ok(Bm25Params::default()),
        full: false,
        dense_valid: true,
        parsed: Ok(Query::And(Box::new(term("a")), Box::new(field("body", term("b"))))),
        edit: Ok(()),
    }
}

fn prepared(request: ScoreRequest) -> Result<Prepared, String> {
    prepare_scorer(request, &Some(plan()), &Boosting { times }).map_err(|error| error.message())
}

#[test]
fn a_scorer_is_prepared_from_a_checked_request() {
    let found = prepared(request()).unwrap();
    assert_eq!(found.mask, 3);
    assert_eq!(found.parameters, Bm25Params::default());
    let masks: Vec<u16> = found.collected.terms.iter().map(|term| term.mask).collect();
    assert_eq!(masks, vec![3, 2]);
    assert!(found.collected.terms.iter().all(|term| term.boost == UNBOOSTED));
    assert_eq!(f32::from_bits(UNBOOSTED), 1.0);
    let full = ScoreRequest { full: true, dense_valid: false, ..request() };
    assert!(prepared(full).is_ok());
}

#[test]
fn a_scorer_is_refused_for_the_first_reason() {
    let all = ScoreRequest {
        belongs: false,
        parameters: Err("k1 is negative".to_owned()),
        full: false,
        dense_valid: false,
        parsed: Err("no term".to_owned()),
        edit: Err("both arrays".to_owned()),
    };
    let refused = |request: ScoreRequest| prepared(request).unwrap_err();
    assert_eq!(refused(all), "stannum score index no longer belongs to the scored relation");
    let request_but = |broken: usize| {
        let mut all = request();
        if broken <= 1 {
            all.parameters = Err("k1 is negative".to_owned());
        }
        if broken <= 2 {
            all.dense_valid = false;
        }
        if broken <= 3 {
            all.parsed = Err("no term".to_owned());
        }
        if broken == 4 {
            all.parsed = Ok(field("author", term("x")));
        }
        all.edit = Err("both arrays".to_owned());
        all
    };
    assert_eq!(refused(request_but(1)), "stannum score parameters: k1 is negative");
    assert_eq!(refused(request_but(2)), "dense_ratio must be finite and non-negative");
    assert_eq!(refused(request_but(3)), "Stannum score query error: no term");
    assert_eq!(refused(request_but(4)), "stannum: unknown field 'author'");
    assert_eq!(refused(request_but(5)), "stannum.score(): both arrays");
}

#[test]
fn a_corpus_scores_by_one_column() {
    let plain = ScoreRequest { parsed: Ok(term("a")), ..request() };
    let found = prepare_corpus(plain, &Some(plan()), &Boosting { times }).unwrap();
    assert_eq!(found.mask, 1);
    assert_eq!(found.collected.terms[0].mask, 1);
    // A name that the index has is no name here.
    assert!(matches!(
        prepare_corpus(request(), &Some(plan()), &Boosting { times }),
        Err(BuildError::Query(QueryError::Field(FieldError::Unknown(name)))) if name == "body"
    ));
    assert!(parse_query(Ok(term("a")), &None).is_ok());
}

#[test]
fn terms_without_a_field_are_of_all_fields() {
    let query = Query::Or(Box::new(term("a")), Box::new(field("title", term("b"))));
    let (mask, found) = collect_in_fields(&query, &Some(plan()), &Boosting { times });
    assert_eq!(mask, 3);
    let masks: Vec<u16> = found.terms.iter().map(|term| term.mask).collect();
    assert_eq!(masks, vec![3, 1]);
    let (mask, found) = collect_in_fields(&term("a"), &None, &Boosting { times });
    assert_eq!((mask, found.terms[0].mask), (1, 1));
}

#[test]
fn inspections_are_checked_in_order() {
    let null = || Some(vec![Some("a".to_owned()), None]);
    let told = |result: Result<_, InspectError>| match result {
        Ok(_) => String::new(),
        Err(error) => error.message(),
    };
    let all = inspect_arguments(false, Err("no term".to_owned()), &None, null(), null());
    assert_eq!(told(all), "stannum.score_inspect() requires a stannum index");
    let all = inspect_arguments(true, Err("no term".to_owned()), &None, null(), null());
    assert_eq!(told(all), "stannum.score_inspect() query error: no term");
    let all = inspect_arguments(true, Ok(term("a")), &None, null(), null());
    assert_eq!(told(all), "stannum.score_inspect() term_add array elements must not be NULL");
    let all = inspect_arguments(true, Ok(term("a")), &None, None, null());
    assert_eq!(told(all), "stannum.score_inspect() term_replace array elements must not be NULL");
    let given = inspect_arguments(true, Ok(term("a")), &None, Some(vec![Some("x".to_owned())]), None);
    let given = given.unwrap();
    assert_eq!((given.add, given.replace), (Some(owned(&["x"])), None));
    assert!(check_inspect(Ok(()), true).is_ok());
    assert_eq!(
        check_inspect(Err("both arrays".to_owned()), false).unwrap_err().message(),
        "stannum.score_inspect(): both arrays"
    );
    assert_eq!(
        check_inspect(Ok(()), false).unwrap_err().message(),
        "dense_ratio must be finite and non-negative"
    );
}
