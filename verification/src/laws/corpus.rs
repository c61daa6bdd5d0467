//! What scoring from the documents themselves comes to.

use crate::corpus::{
    corpus_counts, corpus_kept, documents_with_tokens, holders, largest, occurrences,
    scores_by_text, term_values, tokens_score, tokens_upto,
};
use crate::laws::ranking::{is_larger, is_negative};
use crate::laws::statistics::{added, lemma_added_push};
use crate::scoring::{Block, Scoring};
use crate::statistics::{Retention, TermCounts};
use crate::text::texts;
use vstd::prelude::*;

verus! {

/// Where a term stands among tokens.
pub open spec fn places(tokens: Seq<Seq<char>>, term: Seq<char>) -> Set<int> {
    Set::new(|i: int| 0 <= i < tokens.len() && tokens[i] == term)
}

/// A term occurs as often as there are places where it stands.
pub proof fn law_occurrences_are_places(tokens: Seq<Seq<char>>, term: Seq<char>)
    ensures
        occurrences(tokens, term) == places(tokens, term).len(),
        places(tokens, term).finite(),
        occurrences(tokens, term) > 0 <==> tokens.contains(term),
    decreases tokens.len(),
{
    let all = places(tokens, term);
    if tokens.len() == 0 {
        assert(all =~= Set::empty());
    } else {
        let rest = tokens.drop_last();
        let before = places(rest, term);
        law_occurrences_are_places(rest, term);
        if tokens.last() == term {
            assert(all =~= before.insert(tokens.len() - 1));
            assert(!before.contains(tokens.len() - 1));
            assert(tokens[tokens.len() - 1] == term);
        } else {
            assert(all =~= before);
            if rest.contains(term) {
                let i = choose|i: int| 0 <= i < rest.len() && rest[i] == term;
                assert(tokens[i] == term);
            }
            if tokens.contains(term) {
                let i = choose|i: int| 0 <= i < tokens.len() && tokens[i] == term;
                assert(rest[i] == term);
            }
        }
    }
}

/// The documents that hold a term are counted, each once; so are those that have
/// a token; and the tokens of all documents are added up.
pub proof fn law_documents_are_counted(tokenized: Seq<Vec<String>>, term: Seq<char>, upto: int)
    requires
        0 <= upto <= tokenized.len(),
    ensures
        Set::new(|i: int| 0 <= i < upto && texts(tokenized[i]@).contains(term)).finite(),
        holders(tokenized, term, upto) == Set::new(
            |i: int| 0 <= i < upto && texts(tokenized[i]@).contains(term),
        ).len(),
        Set::new(|i: int| 0 <= i < upto && tokenized[i]@.len() > 0).finite(),
        documents_with_tokens(tokenized, upto) == Set::new(
            |i: int| 0 <= i < upto && tokenized[i]@.len() > 0,
        ).len(),
        tokens_upto(tokenized, upto) == added(
            Seq::new(upto as nat, |i: int| tokenized[i]@.len()),
        ),
    decreases upto,
{
    let held = Set::new(|i: int| 0 <= i < upto && texts(tokenized[i]@).contains(term));
    let full = Set::new(|i: int| 0 <= i < upto && tokenized[i]@.len() > 0);
    let lengths = Seq::new(upto as nat, |i: int| tokenized[i]@.len());
    if upto == 0 {
        assert(held =~= Set::empty());
        assert(full =~= Set::empty());
    } else {
        let less = upto - 1;
        law_documents_are_counted(tokenized, term, less);
        let held_before = Set::new(|i: int| 0 <= i < less && texts(tokenized[i]@).contains(term));
        let full_before = Set::new(|i: int| 0 <= i < less && tokenized[i]@.len() > 0);
        let before = Seq::new(less as nat, |i: int| tokenized[i]@.len());
        if texts(tokenized[less]@).contains(term) {
            assert(held =~= held_before.insert(less));
        } else {
            assert(held =~= held_before);
        }
        if tokenized[less]@.len() > 0 {
            assert(full =~= full_before.insert(less));
        } else {
            assert(full =~= full_before);
        }
        assert(lengths =~= before.push(lengths[less]));
        lemma_added_push(before, lengths[less]);
    }
}

/// Of documents that read alike the last gives the score, and a text that no
/// document reads has none.
pub proof fn law_a_text_has_its_documents_score(
    documents: Seq<Seq<char>>,
    scores: Seq<u32>,
    upto: int,
    text: Seq<char>,
)
    requires
        0 <= upto <= documents.len() == scores.len(),
    ensures
        scores_by_text(documents, scores, upto).contains_key(text) <==> documents.take(
            upto,
        ).contains(text),
        forall|i: int|
            0 <= i < upto && (#[trigger] documents[i]) == text && (forall|j: int|
                i < j < upto ==> (#[trigger] documents[j]) != text) ==> scores_by_text(
                documents,
                scores,
                upto,
            )[text] == scores[i],
    decreases upto,
{
    if upto > 0 {
        law_a_text_has_its_documents_score(documents, scores, upto - 1, text);
        let head = documents.take(upto);
        let before = documents.take(upto - 1);
        if documents[upto - 1] == text {
            assert(head[upto - 1] == text);
        } else {
            if before.contains(text) {
                let i = choose|i: int| 0 <= i < before.len() && before[i] == text;
                assert(head[i] == text);
            }
            if head.contains(text) {
                let i = choose|i: int| 0 <= i < head.len() && head[i] == text;
                assert(before[i] == text);
            }
        }
        assert forall|i: int|
            0 <= i < upto && (#[trigger] documents[i]) == text && (forall|j: int|
                i < j < upto ==> (#[trigger] documents[j]) != text) implies scores_by_text(
            documents,
            scores,
            upto,
        )[text] == scores[i] by {
            if i < upto - 1 {
                assert(documents[upto - 1] != text);
            }
        }
    }
}

/// The maximum is of a document that matches, or zero, and no document that
/// matches has a larger score.
pub proof fn law_the_largest_matching_score(scores: Seq<u32>, matched: Seq<bool>, upto: int)
    requires
        0 <= upto <= scores.len() == matched.len(),
        forall|i: int|
            0 <= i < scores.len() ==> (#[trigger] scores[i]) <= 0x7f80_0000 || (is_negative(
                scores[i],
            ) && scores[i] <= 0xff80_0000),
    ensures
        ({
            let max = largest(scores, matched, upto);
            &&& max == 0 || exists|i: int|
                0 <= i < upto && #[trigger] matched[i] && scores[i] == max
            &&& !is_negative(max) && max <= 0x7f80_0000
            &&& forall|i: int|
                0 <= i < upto && #[trigger] matched[i] ==> !is_larger(scores[i], max)
        }),
    decreases upto,
{
    if upto > 0 {
        law_the_largest_matching_score(scores, matched, upto - 1);
        let before = largest(scores, matched, upto - 1);
        let score = scores[upto - 1];
        let max = largest(scores, matched, upto);
        if matched[upto - 1] && max == score {
            assert(matched[upto - 1] && scores[upto - 1] == max);
        } else if before != 0 {
            let i = choose|i: int| 0 <= i < upto - 1 && #[trigger] matched[i] && scores[i] == before;
            assert(matched[i] && scores[i] == max);
        }
        assert forall|i: int| 0 <= i < upto && #[trigger] matched[i] implies !is_larger(
            scores[i],
            max,
        ) by {
            if i < upto - 1 {
                assert(!is_larger(scores[i], before));
            }
        }
    }
}

/// A document's score adds up, in the order of the terms, what those that it
/// holds contribute by how often they occur in it and by its length.
pub proof fn law_a_document_scores_by_its_tokens<A, S, B, L, M>(
    scoring: Scoring<A, S, B, L, M>,
    terms: Seq<String>,
    tokens: Seq<Seq<char>>,
) -> (sums: Seq<u32>) where
    A: Fn(u32, u32) -> u32,
    S: Fn(usize, u32, u32) -> u32,
    B: Fn(usize, Block) -> u32,
    L: Fn(usize, Block, u32) -> u32,
    M: Fn(usize, Block, u32) -> u32,

    ensures
        sums.len() == terms.len() + 1,
        sums[0] == 0,
        sums.last() == tokens_score(scoring, terms, tokens),
        forall|i: int|
            #![trigger terms[i]]
            0 <= i < terms.len() ==> sums[i + 1] == scoring.sum(
                sums[i],
                if tokens.contains(terms[i]@) {
                    scoring.contribution(
                        i as usize,
                        places(tokens, terms[i]@).len() as u32,
                        tokens.len() as u32,
                    )
                } else {
                    0
                },
            ),
{
    let values = term_values(scoring, terms, tokens);
    let n = terms.len();
    let sums = Seq::new(n + 1, |i: int| scoring.total(values.take(i)));
    assert(values.take(n as int) =~= values);
    assert(sums[0] == scoring.total(values.take(0)));
    assert forall|i: int|
        #![trigger terms[i]]
        0 <= i < terms.len() implies sums[i + 1] == scoring.sum(
        sums[i],
        if tokens.contains(terms[i]@) {
            scoring.contribution(
                i as usize,
                places(tokens, terms[i]@).len() as u32,
                tokens.len() as u32,
            )
        } else {
            0
        },
    ) by {
        let head = values.take(i + 1);
        assert(head.drop_last() =~= values.take(i));
        assert(head.last() == values[i]);
        law_occurrences_are_places(tokens, terms[i]@);
    }
    sums
}

/// Scores of documents keep the terms that are to be kept, all of them and no
/// others, each once and in order, by how many of the documents hold them.
pub proof fn law_corpus_terms_to_keep_are_kept<R: Fn(usize, u64, u64, u64) -> bool>(
    tokenized: Seq<Vec<String>>,
    terms: Seq<String>,
    retention: Retention<R>,
    upto: int,
)
    requires
        0 <= upto <= terms.len() <= usize::MAX,
    ensures
        ({
            let kept = corpus_kept(tokenized, terms, retention, upto);
            let n = tokenized.len() as int;
            let documents = documents_with_tokens(tokenized, n) as u64;
            &&& forall|x: int|
                0 <= x < kept.len() ==> (#[trigger] kept[x]).term < upto && kept[x].total
                    == kept[x].immutable && kept[x].total == holders(
                    tokenized,
                    terms[kept[x].term as int]@,
                    n,
                ) as u64 && retention.kept(kept[x], documents)
            &&& forall|x: int, y: int|
                0 <= x < y < kept.len() ==> (#[trigger] kept[x]).term < (#[trigger] kept[y]).term
            &&& forall|counts: TermCounts|
                counts.term < upto && counts.total == counts.immutable && counts.total == holders(
                    tokenized,
                    terms[counts.term as int]@,
                    n,
                ) as u64 && #[trigger] retention.kept(counts, documents) ==> kept.contains(counts)
        }),
    decreases upto,
{
    if upto > 0 {
        law_corpus_terms_to_keep_are_kept(tokenized, terms, retention, upto - 1);
        let n = tokenized.len() as int;
        let before = corpus_kept(tokenized, terms, retention, upto - 1);
        let kept = corpus_kept(tokenized, terms, retention, upto);
        let documents = documents_with_tokens(tokenized, n) as u64;
        let last = corpus_counts(tokenized, terms, upto - 1);
        assert forall|counts: TermCounts|
            counts.term < upto && counts.total == counts.immutable && counts.total == holders(
                tokenized,
                terms[counts.term as int]@,
                n,
            ) as u64 && #[trigger] retention.kept(counts, documents) implies kept.contains(
            counts,
        ) by {
            if counts.term < upto - 1 {
                assert(before.contains(counts));
                let x = choose|x: int| 0 <= x < before.len() && before[x] == counts;
                assert(kept[x] == counts);
            } else {
                assert(counts == last);
                assert(kept[before.len() as int] == counts);
            }
        }
        assert forall|x: int| 0 <= x < kept.len() implies (#[trigger] kept[x]).term < upto
            && kept[x].total == kept[x].immutable && kept[x].total == holders(
            tokenized,
            terms[kept[x].term as int]@,
            n,
        ) as u64 && retention.kept(kept[x], documents) by {
            if x < before.len() {
                assert(kept[x] == before[x]);
            }
        }
        assert forall|x: int, y: int| 0 <= x < y < kept.len() implies (#[trigger] kept[x]).term < (
        #[trigger] kept[y]).term by {
            assert(kept[x] == before[x]);
            if y < before.len() {
                assert(kept[y] == before[y]);
            }
        }
    }
}

} // verus!
