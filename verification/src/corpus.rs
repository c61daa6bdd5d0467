//! Scoring from the documents themselves, without an index to read
//! statistics from.

use crate::fx::{fx_entries, fx_text_map, fx_text_map_get, fx_text_map_insert};
use crate::ranking::{larger, larger_score};
use crate::scoring::{Block, Scoring};
use crate::statistics::{Retention, TermCounts};
use crate::text::{holds_text, same, texts};
use rustc_hash::FxBuildHasher;
use std::collections::HashMap;
use vstd::prelude::*;

verus! {

/// How often `term` occurs among `tokens`.
pub open spec fn occurrences(tokens: Seq<Seq<char>>, term: Seq<char>) -> nat
    decreases tokens.len(),
{
    if tokens.len() == 0 {
        0
    } else {
        occurrences(tokens.drop_last(), term) + if tokens.last() == term {
            1nat
        } else {
            0nat
        }
    }
}

/// The documents among the first `upto` that hold `term`.
pub open spec fn holders(tokenized: Seq<Vec<String>>, term: Seq<char>, upto: int) -> nat
    decreases upto,
{
    if upto <= 0 || upto > tokenized.len() {
        0
    } else {
        holders(tokenized, term, upto - 1) + if texts(tokenized[upto - 1]@).contains(term) {
            1nat
        } else {
            0nat
        }
    }
}

/// The documents among the first `upto` that have a token.
pub open spec fn documents_with_tokens(tokenized: Seq<Vec<String>>, upto: int) -> nat
    decreases upto,
{
    if upto <= 0 || upto > tokenized.len() {
        0
    } else {
        documents_with_tokens(tokenized, upto - 1) + if tokenized[upto - 1].len() > 0 {
            1nat
        } else {
            0nat
        }
    }
}

/// The tokens of the first `upto` documents.
pub open spec fn tokens_upto(tokenized: Seq<Vec<String>>, upto: int) -> nat
    decreases upto,
{
    if upto <= 0 || upto > tokenized.len() {
        0
    } else {
        tokens_upto(tokenized, upto - 1) + tokenized[upto - 1].len() as nat
    }
}

/// How often `term` occurs among `tokens`.
pub fn term_frequency(tokens: &Vec<String>, term: &str) -> (count: usize)
    ensures
        count == occurrences(texts(tokens@), term@),
        count <= tokens.len(),
{
    let mut count: usize = 0;
    let mut i: usize = 0;
    proof {
        assert(texts(tokens@).take(0) =~= Seq::empty());
    }
    while i < tokens.len()
        invariant
            i <= tokens.len(),
            count == occurrences(texts(tokens@).take(i as int), term@),
            count <= i,
        decreases tokens.len() - i,
    {
        proof {
            let longer = texts(tokens@).take(i + 1);
            assert(longer.drop_last() =~= texts(tokens@).take(i as int));
            assert(longer.last() == tokens[i as int]@);
        }
        if same(tokens[i].as_str(), term) {
            count = count + 1;
        }
        i = i + 1;
    }
    proof {
        assert(texts(tokens@).take(i as int) =~= texts(tokens@));
    }
    count
}

/// The documents that hold `term`.
pub fn document_frequency(tokenized: &Vec<Vec<String>>, term: &str) -> (count: u64)
    ensures
        count == holders(tokenized@, term@, tokenized.len() as int),
        count <= tokenized.len(),
{
    let mut count: u64 = 0;
    let mut i: usize = 0;
    while i < tokenized.len()
        invariant
            i <= tokenized.len(),
            count == holders(tokenized@, term@, i as int),
            count <= i,
        decreases tokenized.len() - i,
    {
        if holds_text(&tokenized[i], term) {
            count = count + 1;
        }
        i = i + 1;
    }
    count
}

/// The documents of a corpus: those without a token are none.
pub fn corpus_documents(tokenized: &Vec<Vec<String>>) -> (count: u64)
    ensures
        count == documents_with_tokens(tokenized@, tokenized.len() as int),
        count <= tokenized.len(),
{
    let mut count: u64 = 0;
    let mut i: usize = 0;
    while i < tokenized.len()
        invariant
            i <= tokenized.len(),
            count == documents_with_tokens(tokenized@, i as int),
            count <= i,
        decreases tokenized.len() - i,
    {
        if tokenized[i].len() > 0 {
            count = count + 1;
        }
        i = i + 1;
    }
    count
}

/// The tokens of a corpus.
pub fn corpus_length(tokenized: &Vec<Vec<String>>) -> (count: usize)
    requires
        tokens_upto(tokenized@, tokenized.len() as int) <= usize::MAX,
    ensures
        count == tokens_upto(tokenized@, tokenized.len() as int),
{
    let mut count: usize = 0;
    let mut i: usize = 0;
    while i < tokenized.len()
        invariant
            i <= tokenized.len(),
            tokens_upto(tokenized@, tokenized.len() as int) <= usize::MAX,
            count == tokens_upto(tokenized@, i as int),
        decreases tokenized.len() - i,
    {
        proof {
            lemma_tokens_grow(tokenized@, i + 1);
        }
        count = count + tokenized[i].len();
        i = i + 1;
    }
    count
}

proof fn lemma_tokens_grow(tokenized: Seq<Vec<String>>, upto: int)
    requires
        0 <= upto <= tokenized.len(),
    ensures
        tokens_upto(tokenized, upto) <= tokens_upto(tokenized, tokenized.len() as int),
    decreases tokenized.len() - upto,
{
    if upto < tokenized.len() {
        lemma_tokens_grow(tokenized, upto + 1);
    }
}

/// How often term `term` of `terms` occurs in a corpus.
pub open spec fn corpus_counts(tokenized: Seq<Vec<String>>, terms: Seq<String>, term: int) -> TermCounts {
    let held = holders(tokenized, terms[term]@, tokenized.len() as int) as u64;
    TermCounts { term: term as usize, total: held, immutable: held }
}

/// The first `upto` terms that are kept, in order.
pub open spec fn corpus_kept<R: Fn(usize, u64, u64, u64) -> bool>(
    tokenized: Seq<Vec<String>>,
    terms: Seq<String>,
    retention: Retention<R>,
    upto: int,
) -> Seq<TermCounts>
    decreases upto,
{
    if upto <= 0 {
        Seq::empty()
    } else {
        let before = corpus_kept(tokenized, terms, retention, upto - 1);
        let counts = corpus_counts(tokenized, terms, upto - 1);
        if retention.kept(
            counts,
            documents_with_tokens(tokenized, tokenized.len() as int) as u64,
        ) {
            before.push(counts)
        } else {
            before
        }
    }
}

/// The terms that scores of a corpus keep, in order, with how many documents
/// hold them.
pub fn corpus_terms<R: Fn(usize, u64, u64, u64) -> bool>(
    tokenized: &Vec<Vec<String>>,
    terms: &Vec<String>,
    retention: &Retention<R>,
) -> (kept: Vec<TermCounts>)
    requires
        retention.deterministic(),
    ensures
        kept@ == corpus_kept(tokenized@, terms@, *retention, terms.len() as int),
{
    let documents: u64 = corpus_documents(tokenized);
    let mut kept: Vec<TermCounts> = Vec::new();
    let mut i: usize = 0;
    while i < terms.len()
        invariant
            i <= terms.len(),
            retention.deterministic(),
            documents == documents_with_tokens(tokenized@, tokenized.len() as int),
            kept@ == corpus_kept(tokenized@, terms@, *retention, i as int),
        decreases terms.len() - i,
    {
        let held: u64 = document_frequency(tokenized, terms[i].as_str());
        let keeps = (retention.keeps)(i, held, held, documents);
        if keeps {
            kept.push(TermCounts { term: i, total: held, immutable: held });
        }
        i = i + 1;
    }
    kept
}

/// What each term contributes to a document: nothing where it does not occur.
pub open spec fn term_values<A, S, B, L, M>(
    scoring: Scoring<A, S, B, L, M>,
    terms: Seq<String>,
    tokens: Seq<Seq<char>>,
) -> Seq<Option<u32>> where
    A: Fn(u32, u32) -> u32,
    S: Fn(usize, u32, u32) -> u32,
    B: Fn(usize, Block) -> u32,
    L: Fn(usize, Block, u32) -> u32,
    M: Fn(usize, Block, u32) -> u32,
 {
    Seq::new(
        terms.len(),
        |i: int|
            Some(
                if occurrences(tokens, terms[i]@) == 0 {
                    0u32
                } else {
                    scoring.contribution(
                        i as usize,
                        occurrences(tokens, terms[i]@) as u32,
                        tokens.len() as u32,
                    )
                },
            ),
    )
}

/// The score of a document with these tokens.
pub open spec fn tokens_score<A, S, B, L, M>(
    scoring: Scoring<A, S, B, L, M>,
    terms: Seq<String>,
    tokens: Seq<Seq<char>>,
) -> u32 where
    A: Fn(u32, u32) -> u32,
    S: Fn(usize, u32, u32) -> u32,
    B: Fn(usize, Block) -> u32,
    L: Fn(usize, Block, u32) -> u32,
    M: Fn(usize, Block, u32) -> u32,
 {
    scoring.total(term_values(scoring, terms, tokens))
}

/// The scores of a corpus by the documents' texts, and the largest of a
/// matching document.
#[derive(Debug)]
pub struct Corpus {
    pub by_document: HashMap<String, u32, FxBuildHasher>,
    pub max: u32,
}

/// The scores of documents with these tokens.
pub open spec fn corpus_scores<A, S, B, L, M>(
    scoring: Scoring<A, S, B, L, M>,
    terms: Seq<String>,
    tokenized: Seq<Vec<String>>,
) -> Seq<u32> where
    A: Fn(u32, u32) -> u32,
    S: Fn(usize, u32, u32) -> u32,
    B: Fn(usize, Block) -> u32,
    L: Fn(usize, Block, u32) -> u32,
    M: Fn(usize, Block, u32) -> u32,
 {
    Seq::new(
        tokenized.len(),
        |i: int| tokens_score(scoring, terms, texts(tokenized[i]@)),
    )
}

/// The scores of the first `upto` documents by their texts: of documents that
/// read alike, that of the last.
pub open spec fn scores_by_text(
    documents: Seq<Seq<char>>,
    scores: Seq<u32>,
    upto: int,
) -> Map<Seq<char>, u32>
    decreases upto,
{
    if upto <= 0 || upto > documents.len() {
        Map::empty()
    } else {
        scores_by_text(documents, scores, upto - 1).insert(documents[upto - 1], scores[upto - 1])
    }
}

/// The largest score among the first `upto` documents that matched: zero
/// where none is larger.
pub open spec fn largest(scores: Seq<u32>, matched: Seq<bool>, upto: int) -> u32
    decreases upto,
{
    if upto <= 0 || upto > scores.len() {
        0
    } else {
        let before = largest(scores, matched, upto - 1);
        if matched[upto - 1] {
            larger_score(before, scores[upto - 1])
        } else {
            before
        }
    }
}

impl Corpus {
    /// The score of a document, by its text; zero when the corpus does not
    /// hold it.
    pub open spec fn score_of(self, document: Seq<char>) -> u32 {
        if fx_entries(self.by_document).contains_key(document) {
            fx_entries(self.by_document)[document]
        } else {
            0
        }
    }

    /// The score of a document, by its text; zero when the corpus does not
    /// hold it.
    pub fn score(&self, document: &str) -> (score: u32)
        ensures
            score == self.score_of(document@),
    {
        match fx_text_map_get(&self.by_document, document) {
            Some(score) => score,
            None => 0,
        }
    }
}

fn score_tokens<A, S, B, L, M>(
    scoring: &Scoring<A, S, B, L, M>,
    terms: &Vec<String>,
    tokens: &Vec<String>,
) -> (score: u32) where
    A: Fn(u32, u32) -> u32,
    S: Fn(usize, u32, u32) -> u32,
    B: Fn(usize, Block) -> u32,
    L: Fn(usize, Block, u32) -> u32,
    M: Fn(usize, Block, u32) -> u32,

    requires
        scoring.deterministic(),
        tokens.len() <= u32::MAX,
    ensures
        score == tokens_score(*scoring, terms@, texts(tokens@)),
{
    let ghost exact = term_values(*scoring, terms@, texts(tokens@));
    let mut values: Vec<Option<u32>> = Vec::new();
    let mut i: usize = 0;
    while i < terms.len()
        invariant
            i <= terms.len(),
            scoring.deterministic(),
            tokens.len() <= u32::MAX,
            exact == term_values(*scoring, terms@, texts(tokens@)),
            values.len() == i,
            forall|j: int| 0 <= j < i ==> values[j] == exact[j],
        decreases terms.len() - i,
    {
        let count: usize = term_frequency(tokens, terms[i].as_str());
        let value: u32 = if count == 0 {
            0
        } else {
            (scoring.exact)(i, count as u32, tokens.len() as u32)
        };
        values.push(Some(value));
        i = i + 1;
    }
    proof {
        assert(values@ =~= exact);
    }
    scoring.fold(&values)
}

/// Scores every document of a corpus by the terms kept. `matched` says which
/// documents match the query; the maximum is over those only.
pub fn score_corpus<A, S, B, L, M>(
    scoring: &Scoring<A, S, B, L, M>,
    terms: &Vec<String>,
    documents: &Vec<String>,
    tokenized: &Vec<Vec<String>>,
    matched: &Vec<bool>,
) -> (corpus: Corpus) where
    A: Fn(u32, u32) -> u32,
    S: Fn(usize, u32, u32) -> u32,
    B: Fn(usize, Block) -> u32,
    L: Fn(usize, Block, u32) -> u32,
    M: Fn(usize, Block, u32) -> u32,

    requires
        scoring.deterministic(),
        documents.len() == tokenized.len() == matched.len(),
        forall|i: int| 0 <= i < tokenized.len() ==> (#[trigger] tokenized[i]).len() <= u32::MAX,
    ensures
        fx_entries(corpus.by_document) == scores_by_text(
            texts(documents@),
            corpus_scores(*scoring, terms@, tokenized@),
            documents.len() as int,
        ),
        corpus.max == largest(
            corpus_scores(*scoring, terms@, tokenized@),
            matched@,
            matched.len() as int,
        ),
{
    let ghost scores = corpus_scores(*scoring, terms@, tokenized@);
    let mut by_document = fx_text_map();
    assert(fx_entries(by_document) =~= Map::<Seq<char>, u32>::empty());
    let mut max: u32 = 0;
    let mut i: usize = 0;
    while i < tokenized.len()
        invariant
            i <= tokenized.len(),
            scoring.deterministic(),
            documents.len() == tokenized.len() == matched.len(),
            forall|j: int| 0 <= j < tokenized.len() ==> (#[trigger] tokenized[j]).len() <= u32::MAX,
            scores == corpus_scores(*scoring, terms@, tokenized@),
            fx_entries(by_document) == scores_by_text(texts(documents@), scores, i as int),
            max == largest(scores, matched@, i as int),
        decreases tokenized.len() - i,
    {
        let score: u32 = score_tokens(scoring, terms, &tokenized[i]);
        assert(score == scores[i as int]);
        assert(texts(documents@)[i as int] == documents[i as int]@);
        fx_text_map_insert(&mut by_document, documents[i].clone(), score);
        if matched[i] {
            max = larger(max, score);
        }
        i = i + 1;
    }
    Corpus { by_document, max }
}

impl Corpus {
    /// What a score call in `mode` gives: the maximum over matching documents,
    /// or the score of the document.
    pub fn bound_score(&self, mode: i32, document: &str) -> (score: u32)
        ensures
            score == (if mode >= 2 {
                self.max
            } else {
                self.score_of(document@)
            }),
    {
        if mode >= 2 {
            self.max
        } else {
            self.score(document)
        }
    }
}

} // verus!
