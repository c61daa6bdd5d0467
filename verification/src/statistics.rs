//! The statistics that scores are computed from.

use crate::text::{ascending, sorted_unique, texts};
use vstd::prelude::*;

verus! {

/// What a source of an index counts. Deleted documents count until their
/// source is rewritten, and buffered documents count immediately.
#[derive(Debug)]
pub struct SourceCounts {
    pub documents: u32,
    /// The lengths of its documents, all together.
    pub total_length: u64,
    /// The lengths of each field, all together.
    pub field_totals: Vec<u64>,
    /// For each scoring term, the documents that hold it.
    pub frequencies: Vec<u32>,
}

/// The documents of the first `upto` sources.
pub open spec fn documents_upto(sources: Seq<SourceCounts>, upto: int) -> nat
    decreases upto,
{
    if upto <= 0 || upto > sources.len() {
        0
    } else {
        documents_upto(sources, upto - 1) + sources[upto - 1].documents as nat
    }
}

/// The lengths of the documents of the first `upto` sources.
pub open spec fn length_upto(sources: Seq<SourceCounts>, upto: int) -> nat
    decreases upto,
{
    if upto <= 0 || upto > sources.len() {
        0
    } else {
        length_upto(sources, upto - 1) + sources[upto - 1].total_length as nat
    }
}

/// The lengths of a field in the first `upto` sources.
pub open spec fn field_length_upto(sources: Seq<SourceCounts>, field: int, upto: int) -> nat
    decreases upto,
{
    if upto <= 0 || upto > sources.len() {
        0
    } else {
        field_length_upto(sources, field, upto - 1) + sources[upto - 1].field_totals[field] as nat
    }
}

/// The documents of the first `upto` sources that hold a term.
pub open spec fn frequency_upto(sources: Seq<SourceCounts>, term: int, upto: int) -> nat
    decreases upto,
{
    if upto <= 0 || upto > sources.len() {
        0
    } else {
        frequency_upto(sources, term, upto - 1) + sources[upto - 1].frequencies[term] as nat
    }
}

/// The sources that are immutable: the first ones, at most `immutable`.
pub open spec fn immutable_upto(sources: Seq<SourceCounts>, immutable: int) -> int {
    if immutable < sources.len() {
        immutable
    } else {
        sources.len() as int
    }
}

/// Every source counts `terms` terms and `fields` fields, and there are few
/// enough sources that their documents can be added up.
pub open spec fn counts_valid(sources: Seq<SourceCounts>, terms: nat, fields: nat) -> bool {
    &&& sources.len() <= u32::MAX
    &&& forall|i: int|
        0 <= i < sources.len() ==> (#[trigger] sources[i]).frequencies.len() == terms
            && sources[i].field_totals.len() == fields
}

/// The documents of an index, those of its immutable sources apart.
pub fn document_totals(sources: &Vec<SourceCounts>, immutable: usize) -> (totals: (u64, u64))
    requires
        sources.len() <= u32::MAX,
    ensures
        totals.0 == documents_upto(sources@, sources.len() as int),
        totals.1 == documents_upto(sources@, immutable_upto(sources@, immutable as int)),
{
    let mut total: u64 = 0;
    let mut fixed: u64 = 0;
    let mut i: usize = 0;
    while i < sources.len()
        invariant
            i <= sources.len() <= u32::MAX,
            total == documents_upto(sources@, i as int),
            total <= i * u32::MAX,
            i <= immutable ==> fixed == total,
            i > immutable ==> fixed == documents_upto(sources@, immutable as int),
            fixed <= total,
        decreases sources.len() - i,
    {
        let n: u64 = sources[i].documents as u64;
        proof {
            assert(i * u32::MAX + n <= (i + 1) * u32::MAX) by (nonlinear_arith)
                requires
                    n <= u32::MAX,
            ;
            assert((i + 1) * u32::MAX <= u32::MAX * u32::MAX) by (nonlinear_arith)
                requires
                    i + 1 <= u32::MAX,
            ;
        }
        total = total + n;
        if i < immutable {
            fixed = fixed + n;
        }
        i = i + 1;
    }
    (total, fixed)
}

/// The lengths of all documents of an index together.
pub fn total_length(sources: &Vec<SourceCounts>) -> (total: u64)
    requires
        length_upto(sources@, sources.len() as int) <= u64::MAX,
    ensures
        total == length_upto(sources@, sources.len() as int),
{
    let mut total: u64 = 0;
    let mut i: usize = 0;
    while i < sources.len()
        invariant
            i <= sources.len(),
            length_upto(sources@, sources.len() as int) <= u64::MAX,
            total == length_upto(sources@, i as int),
        decreases sources.len() - i,
    {
        proof {
            lemma_length_grows(sources@, i + 1);
        }
        total = total + sources[i].total_length;
        i = i + 1;
    }
    total
}

proof fn lemma_length_grows(sources: Seq<SourceCounts>, upto: int)
    requires
        0 <= upto <= sources.len(),
    ensures
        length_upto(sources, upto) <= length_upto(sources, sources.len() as int),
    decreases sources.len() - upto,
{
    if upto < sources.len() {
        lemma_length_grows(sources, upto + 1);
    }
}

/// The lengths of a field over an index.
pub fn field_total(sources: &Vec<SourceCounts>, field: usize) -> (total: u64)
    requires
        forall|i: int| 0 <= i < sources.len() ==> field < (#[trigger] sources[i]).field_totals.len(),
        field_length_upto(sources@, field as int, sources.len() as int) <= u64::MAX,
    ensures
        total == field_length_upto(sources@, field as int, sources.len() as int),
{
    let mut total: u64 = 0;
    let mut i: usize = 0;
    while i < sources.len()
        invariant
            i <= sources.len(),
            forall|j: int|
                0 <= j < sources.len() ==> field < (#[trigger] sources[j]).field_totals.len(),
            field_length_upto(sources@, field as int, sources.len() as int) <= u64::MAX,
            total == field_length_upto(sources@, field as int, i as int),
        decreases sources.len() - i,
    {
        proof {
            lemma_field_length_grows(sources@, field as int, i + 1);
        }
        total = total + sources[i].field_totals[field];
        i = i + 1;
    }
    total
}

proof fn lemma_field_length_grows(sources: Seq<SourceCounts>, field: int, upto: int)
    requires
        0 <= upto <= sources.len(),
    ensures
        field_length_upto(sources, field, upto) <= field_length_upto(
            sources,
            field,
            sources.len() as int,
        ),
    decreases sources.len() - upto,
{
    if upto < sources.len() {
        lemma_field_length_grows(sources, field, upto + 1);
    }
}

/// How often a scoring term occurs.
#[derive(Clone, Copy, Debug, PartialEq, Eq, Structural)]
pub struct TermCounts {
    /// The term's place among the scoring terms.
    pub term: usize,
    pub total: u64,
    /// In the immutable sources alone.
    pub immutable: u64,
}

/// How often term `term` occurs in an index.
pub open spec fn counts_of(sources: Seq<SourceCounts>, immutable: int, term: int) -> TermCounts {
    TermCounts {
        term: term as usize,
        total: frequency_upto(sources, term, sources.len() as int) as u64,
        immutable: frequency_upto(sources, term, immutable_upto(sources, immutable)) as u64,
    }
}

fn term_counts(sources: &Vec<SourceCounts>, immutable: usize, term: usize) -> (counts: TermCounts)
    requires
        sources.len() <= u32::MAX,
        forall|i: int| 0 <= i < sources.len() ==> term < (#[trigger] sources[i]).frequencies.len(),
    ensures
        counts == counts_of(sources@, immutable as int, term as int),
        counts.total == frequency_upto(sources@, term as int, sources.len() as int),
        counts.immutable == frequency_upto(
            sources@,
            term as int,
            immutable_upto(sources@, immutable as int),
        ),
{
    let mut total: u64 = 0;
    let mut fixed: u64 = 0;
    let mut i: usize = 0;
    while i < sources.len()
        invariant
            i <= sources.len() <= u32::MAX,
            forall|j: int|
                0 <= j < sources.len() ==> term < (#[trigger] sources[j]).frequencies.len(),
            total == frequency_upto(sources@, term as int, i as int),
            total <= i * u32::MAX,
            i <= immutable ==> fixed == total,
            i > immutable ==> fixed == frequency_upto(sources@, term as int, immutable as int),
            fixed <= total,
        decreases sources.len() - i,
    {
        let n: u64 = sources[i].frequencies[term] as u64;
        proof {
            assert(i * u32::MAX + n <= (i + 1) * u32::MAX) by (nonlinear_arith)
                requires
                    n <= u32::MAX,
            ;
            assert((i + 1) * u32::MAX <= u32::MAX * u32::MAX) by (nonlinear_arith)
                requires
                    i + 1 <= u32::MAX,
            ;
        }
        total = total + n;
        if i < immutable {
            fixed = fixed + n;
        }
        i = i + 1;
    }
    TermCounts { term, total, immutable: fixed }
}

/// Whether terms are kept in scores, from the term's place, how often it
/// occurs in all and in the immutable sources, and the documents of the
/// immutable sources.
pub struct Retention<R> {
    pub keeps: R,
}

impl<R: Fn(usize, u64, u64, u64) -> bool> Retention<R> {
    /// Whether a term is kept.
    pub open spec fn kept(self, counts: TermCounts, documents: u64) -> bool {
        choose|kept: bool|
            call_ensures(self.keeps, (counts.term, counts.total, counts.immutable, documents), kept)
    }

    /// Whether a term is kept can always be told, and is always the same.
    pub open spec fn deterministic(self) -> bool {
        &&& forall|t: usize, a: u64, b: u64, d: u64| #[trigger]
            call_requires(self.keeps, (t, a, b, d))
        &&& forall|t: usize, a: u64, b: u64, d: u64, kept: bool| #[trigger]
            call_ensures(self.keeps, (t, a, b, d), kept) ==> kept == self.kept(
                TermCounts { term: t, total: a, immutable: b },
                d,
            )
    }
}

/// The first `upto` scoring terms that are kept, in order, with how often
/// they occur.
pub open spec fn kept_upto<R: Fn(usize, u64, u64, u64) -> bool>(
    sources: Seq<SourceCounts>,
    immutable: int,
    retention: Retention<R>,
    upto: int,
) -> Seq<TermCounts>
    decreases upto,
{
    if upto <= 0 {
        Seq::empty()
    } else {
        let before = kept_upto(sources, immutable, retention, upto - 1);
        let counts = counts_of(sources, immutable, upto - 1);
        let documents = documents_upto(sources, immutable_upto(sources, immutable)) as u64;
        if retention.kept(counts, documents) {
            before.push(counts)
        } else {
            before
        }
    }
}

/// The scoring terms of an index that are kept, in order, with how often they
/// occur. Terms are left out by how common they are in the immutable sources.
pub fn retained_terms<R: Fn(usize, u64, u64, u64) -> bool>(
    sources: &Vec<SourceCounts>,
    immutable: usize,
    terms: usize,
    retention: &Retention<R>,
) -> (kept: Vec<TermCounts>)
    requires
        sources.len() <= u32::MAX,
        forall|i: int|
            0 <= i < sources.len() ==> (#[trigger] sources[i]).frequencies.len() == terms,
        retention.deterministic(),
    ensures
        kept@ == kept_upto(sources@, immutable as int, *retention, terms as int),
{
    let (_, documents) = document_totals(sources, immutable);
    let mut kept: Vec<TermCounts> = Vec::new();
    let mut term: usize = 0;
    while term < terms
        invariant
            term <= terms,
            sources.len() <= u32::MAX,
            forall|i: int|
                0 <= i < sources.len() ==> (#[trigger] sources[i]).frequencies.len() == terms,
            retention.deterministic(),
            documents == documents_upto(sources@, immutable_upto(sources@, immutable as int)),
            kept@ == kept_upto(sources@, immutable as int, *retention, term as int),
        decreases terms - term,
    {
        let counts: TermCounts = term_counts(sources, immutable, term);
        let keeps = (retention.keeps)(counts.term, counts.total, counts.immutable, documents);
        if keeps {
            kept.push(counts);
        }
        term = term + 1;
    }
    kept
}

/// Distinct tokens of a corpus, the expansion universe without a dictionary,
/// in order.
pub fn corpus_universe(tokenized: &Vec<Vec<String>>) -> (universe: Vec<String>)
    ensures
        ascending(texts(universe@)),
        forall|text: Seq<char>| #[trigger]
            texts(universe@).contains(text) <==> exists|i: int|
                0 <= i < tokenized.len() && texts((#[trigger] tokenized[i])@).contains(text),
{
    let mut all: Vec<String> = Vec::new();
    let mut i: usize = 0;
    while i < tokenized.len()
        invariant
            i <= tokenized.len(),
            forall|text: Seq<char>| #[trigger]
                texts(all@).contains(text) <==> exists|d: int|
                    0 <= d < i && texts((#[trigger] tokenized[d])@).contains(text),
        decreases tokenized.len() - i,
    {
        let tokens = &tokenized[i];
        let ghost before = texts(all@);
        let mut j: usize = 0;
        while j < tokens.len()
            invariant
                j <= tokens.len(),
                forall|text: Seq<char>| #[trigger]
                    texts(all@).contains(text) <==> before.contains(text) || texts(tokens@).take(
                        j as int,
                    ).contains(text),
            decreases tokens.len() - j,
        {
            let ghost had = texts(all@);
            all.push(tokens[j].clone());
            proof {
                let head = texts(tokens@).take(j as int);
                let longer = texts(tokens@).take(j + 1);
                assert(longer =~= head.push(tokens[j as int]@));
                assert(texts(all@) =~= had.push(tokens[j as int]@));
                assert forall|text: Seq<char>| #[trigger] texts(all@).contains(text)
                    <==> before.contains(text) || longer.contains(text) by {
                    crate::text::lemma_push_contains(had, tokens[j as int]@, text);
                    crate::text::lemma_push_contains(head, tokens[j as int]@, text);
                    assert(had.contains(text) <==> before.contains(text) || head.contains(text));
                }
            }
            j = j + 1;
        }
        proof {
            assert(texts(tokens@).take(j as int) =~= texts(tokens@));
            assert forall|text: Seq<char>| #[trigger] texts(all@).contains(text) <==> exists|
                d: int,
            |
                0 <= d < i + 1 && texts((#[trigger] tokenized[d])@).contains(text) by {
                assert(texts(all@).contains(text) <==> before.contains(text) || texts(
                    tokens@,
                ).contains(text));
                if texts(tokens@).contains(text) {
                    assert(texts(tokenized[i as int]@).contains(text));
                }
            }
        }
        i = i + 1;
    }
    sorted_unique(&all)
}

} // verus!
