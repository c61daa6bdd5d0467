use std::cell::Cell;
use stannum::operator::{
    bind_query, default_spec, evaluate_text, evaluate_with, indexed_query, invalid_query,
    stannum_text_cmpfunc, stannum_text_cmpfunc_indexed, Engine, QueryMemo, QUERY_MEMO_LIMIT,
};

/// A small query engine: conjunctions, phrases, wildcards and fuzzy terms over
/// folded words.
#[derive(Clone)]
enum Parsed {
    Everything,
    And(Vec<Parsed>),
    Phrase(Vec<String>),
    Prefix(String),
    Fuzzy(String, usize),
}

fn fold(text: &str) -> String {
    text.to_lowercase().replace('ñ', "n")
}

fn words(text: &str) -> Vec<String> {
    fold(text)
        .split(|c: char| !c.is_alphanumeric())
        .filter(|word| !word.is_empty())
        .map(str::to_owned)
        .collect()
}

fn distance(a: &str, b: &str) -> usize {
    let a: Vec<char> = a.chars().collect();
    let b: Vec<char> = b.chars().collect();
    let mut row: Vec<usize> = (0..=b.len()).collect();
    for i in 1..=a.len() {
        let mut corner = row[0];
        row[0] = i;
        for j in 1..=b.len() {
            let kept = corner + usize::from(a[i - 1] != b[j - 1]);
            corner = row[j];
            row[j] = kept.min(row[j] + 1).min(row[j - 1] + 1);
        }
    }
    row[b.len()]
}

fn leaf(text: &str) -> Result<Parsed, String> {
    if text.is_empty() {
        return Err("expected a term".to_owned());
    }
    if text == "*" {
        return Ok(Parsed::Everything);
    }
    if let Some(quoted) = text.strip_prefix('"') {
        return Ok(Parsed::Phrase(words(quoted)));
    }
    if let Some(prefix) = text.strip_suffix('*') {
        return Ok(Parsed::Prefix(fold(prefix)));
    }
    if let Some((term, edits)) = text.split_once('~') {
        return Ok(Parsed::Fuzzy(fold(term), edits.parse().unwrap()));
    }
    Ok(Parsed::Phrase(words(text)))
}

fn parse(text: &str) -> Result<Parsed, String> {
    if text.ends_with(" OR") || text.ends_with(" AND") {
        return Err("expected a term".to_owned());
    }
    if text.contains(" AND ") {
        let parts = text.split(" AND ").map(leaf).collect::<Result<Vec<_>, _>>()?;
        return Ok(Parsed::And(parts));
    }
    leaf(text)
}

fn matches_document(query: &Parsed, document: &str) -> bool {
    let tokens = words(document);
    match query {
        Parsed::Everything => !tokens.is_empty(),
        Parsed::And(parts) => parts.iter().all(|part| matches_document(part, document)),
        Parsed::Phrase(phrase) => tokens.windows(phrase.len()).any(|window| window == phrase),
        Parsed::Prefix(prefix) => tokens.iter().any(|token| token.starts_with(prefix)),
        Parsed::Fuzzy(term, edits) => tokens.iter().any(|token| distance(token, term) <= *edits),
    }
}

fn evaluated(document: &str, query: &str) -> Result<bool, String> {
    let engine = Engine {
        parse: |text: &str| parse(text),
        evaluate: |query: &Parsed, document: &str| Ok(matches_document(query, document)),
    };
    let mut memo = QueryMemo::new();
    let first = evaluate_text(&mut memo, document, query, &engine);
    let again = evaluate_text(&mut memo, document, query, &engine);
    assert_eq!(first, again);
    first
}

#[test]
fn boolean_and_positional_queries_are_exact() {
    assert!(evaluated("A craft beer bar", "craft AND beer").unwrap());
    assert!(evaluated("A craft beer bar", "\"craft beer\"").unwrap());
    assert!(!evaluated("Beer for craft fans", "\"craft beer\"").unwrap());
}

#[test]
fn expansions_use_the_document_term_universe() {
    assert!(evaluated("brewhouse", "brew*").unwrap());
    assert!(evaluated("jalapeno", "jalapeño~1").unwrap());
    assert!(!evaluated("winery", "brew*").unwrap());
}

#[test]
fn empty_documents_do_not_match_match_all() {
    assert!(!evaluated("...", "*").unwrap());
}

#[test]
fn invalid_queries_are_reported() {
    assert!(evaluated("beer", "beer OR").is_err());
}

#[test]
fn a_query_is_parsed_once_per_settings() {
    let parsed = Cell::new(0);
    let engine = Engine {
        parse: |text: &str| {
            parsed.set(parsed.get() + 1);
            Ok::<String, String>(text.to_owned())
        },
        evaluate: |query: &String, document: &str| Ok(document.contains(query.as_str())),
    };
    let mut memo = QueryMemo::new();
    for document in ["craft beer", "wine", "beer"] {
        let found = evaluate_with(&mut memo, document, "beer", [0; 8], &engine);
        assert_eq!(found, Ok(document.contains("beer")));
    }
    assert_eq!(parsed.get(), 1);
    assert_eq!(evaluate_with(&mut memo, "wine", "beer", [1; 8], &engine), Ok(false));
    assert_eq!(parsed.get(), 2);
}

#[test]
fn a_full_memo_starts_over_for_its_settings_only() {
    let parsed = Cell::new(0);
    let engine = Engine {
        parse: |text: &str| {
            parsed.set(parsed.get() + 1);
            Ok::<String, String>(text.to_owned())
        },
        evaluate: |query: &String, document: &str| Ok(document == query),
    };
    let mut memo = QueryMemo::new();
    evaluate_with(&mut memo, "x", "kept", [9; 8], &engine).unwrap();
    for n in 0..QUERY_MEMO_LIMIT {
        evaluate_with(&mut memo, "x", &n.to_string(), [0; 8], &engine).unwrap();
    }
    assert_eq!(parsed.get(), QUERY_MEMO_LIMIT + 1);
    evaluate_with(&mut memo, "x", "0", [0; 8], &engine).unwrap();
    assert_eq!(parsed.get(), QUERY_MEMO_LIMIT + 1);
    evaluate_with(&mut memo, "x", "one more", [0; 8], &engine).unwrap();
    evaluate_with(&mut memo, "x", "0", [0; 8], &engine).unwrap();
    assert_eq!(parsed.get(), QUERY_MEMO_LIMIT + 3);
    evaluate_with(&mut memo, "x", "kept", [9; 8], &engine).unwrap();
    assert_eq!(parsed.get(), QUERY_MEMO_LIMIT + 3);
}

#[test]
fn parse_and_evaluation_errors_are_passed_on_and_not_kept() {
    let parsed = Cell::new(0);
    let engine = Engine {
        parse: |text: &str| {
            parsed.set(parsed.get() + 1);
            if text == "bad" {
                Err("no term".to_owned())
            } else {
                Ok(text.to_owned())
            }
        },
        evaluate: |_: &String, _: &str| Err::<bool, String>("too deep".to_owned()),
    };
    let mut memo = QueryMemo::new();
    for _ in 0..2 {
        assert_eq!(
            evaluate_with(&mut memo, "x", "bad", [0; 8], &engine),
            Err("no term".to_owned())
        );
    }
    assert_eq!(parsed.get(), 2);
    assert_eq!(
        evaluate_with(&mut memo, "x", "good", [0; 8], &engine),
        Err("too deep".to_owned())
    );
}

#[test]
fn the_operator_tells_of_invalid_queries() {
    let engine = Engine {
        parse: |text: &str| parse(text),
        evaluate: |query: &Parsed, document: &str| Ok(matches_document(query, document)),
    };
    let mut memo = QueryMemo::new();
    assert_eq!(stannum_text_cmpfunc(&mut memo, "craft beer", "beer", &engine), Ok(true));
    assert_eq!(
        stannum_text_cmpfunc(&mut memo, "craft beer", "beer OR", &engine),
        Err("invalid ==> query: expected a term".to_owned())
    );
    let bound = bind_query("wine", 7);
    let indexed = |memo: &mut QueryMemo<Parsed>, bound: &indexed_query| {
        stannum_text_cmpfunc_indexed(memo, "craft beer", bound, [1; 8], &engine)
    };
    assert_eq!(indexed(&mut memo, &bound), Ok(false));
    assert_eq!(
        indexed(&mut memo, &bind_query("wine OR", 7)),
        Err("invalid ==> query: expected a term".to_owned())
    );
}

#[test]
fn binding_carries_the_query_and_the_index() {
    assert_eq!(
        bind_query("craft AND beer", 4711),
        indexed_query { index: 4711, query: "craft AND beer".to_owned() }
    );
    assert_eq!(default_spec(), [0, 1, 1, 2, 0, 1, 1, 1]);
    assert_eq!(invalid_query("expected a term"), "invalid ==> query: expected a term");
}
