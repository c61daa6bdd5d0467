//! Scores of single documents, and the exhaustive ranking that a pruned scan
//! stands for.

use crate::fx::{fx_map, fx_map_get, fx_map_insert};
use crate::ranking::{at_most, larger, larger_score, law_ranked_ignores_arrival, ranked, Row};
use crate::scoring::{Block, Scoring};
use crate::source::{Combine, Document, Source};
use crate::tid::Tid;
use crate::top_k::{all_rows, document_count, source_rows, Prunable, PrunedScan, TopK, WalkEvent, PRUNE_MAX_K};
use rustc_hash::FxBuildHasher;
use std::collections::HashMap;
use vstd::prelude::*;

verus! {

/// The source lists a document at `tid`, live.
pub open spec fn lists(source: Source, tid: Tid) -> bool {
    &&& !source.dead@.contains(tid)
    &&& exists|d: int|
        0 <= d < source.documents.len() && #[trigger] source.documents[d].tid == tid
}

/// The document a source lists at `tid`.
pub open spec fn document_at(source: Source, tid: Tid) -> Document {
    let d = choose|d: int|
        0 <= d < source.documents.len() && #[trigger] source.documents[d].tid == tid;
    source.documents[d]
}

/// The score of the document at `tid` in the first source, from the `i`-th
/// on, that lists it live.
pub open spec fn listed_from<A, S, B, L, M>(
    sources: Seq<Source>,
    scoring: Scoring<A, S, B, L, M>,
    tid: Tid,
    i: int,
) -> Option<u32> where
    A: Fn(u32, u32) -> u32,
    S: Fn(usize, u32, u32) -> u32,
    B: Fn(usize, Block) -> u32,
    L: Fn(usize, Block, u32) -> u32,
    M: Fn(usize, Block, u32) -> u32,

    decreases sources.len() - i,
{
    if i < 0 || i >= sources.len() {
        None
    } else if lists(sources[i], tid) {
        Some(sources[i].score_of(scoring, document_at(sources[i], tid)))
    } else {
        listed_from(sources, scoring, tid, i + 1)
    }
}

/// The scores a scan already computed for rows it emits.
pub struct KnownScores {
    pub scores: HashMap<u64, u32, FxBuildHasher>,
}

impl KnownScores {
    /// The score known for `tid`.
    pub open spec fn at(self, tid: Tid) -> Option<u32> {
        if self.scores@.contains_key(tid.key() as u64) {
            Some(self.scores@[tid.key() as u64])
        } else {
            None
        }
    }

    /// No score known.
    pub fn new() -> (known: Self)
        ensures
            forall|tid: Tid| #[trigger] known.at(tid) is None,
    {
        KnownScores { scores: fx_map() }
    }

    /// The scores of the rows a scan ranked; of two rows at one location, the
    /// later one's.
    pub fn of_rows(rows: &Vec<Row>) -> (known: Self)
        ensures
            forall|tid: Tid| #[trigger] known.at(tid) == last_score(rows@, tid),
    {
        let mut known = KnownScores::new();
        let mut i: usize = 0;
        proof {
            assert(rows@.take(0) =~= Seq::empty());
        }
        while i < rows.len()
            invariant
                i <= rows.len(),
                forall|tid: Tid| #[trigger] known.at(tid) == last_score(rows@.take(i as int), tid),
            decreases rows.len() - i,
        {
            let row: Row = rows[i];
            let ghost was = known;
            fx_map_insert(&mut known.scores, row.tid.number(), row.score);
            proof {
                let longer = rows@.take(i + 1);
                assert(longer.drop_last() =~= rows@.take(i as int));
                assert forall|tid: Tid| #[trigger] known.at(tid) == last_score(longer, tid) by {
                    crate::tid::lemma_key_injective(tid, row.tid);
                    assert(was.at(tid) == last_score(rows@.take(i as int), tid));
                }
            }
            i = i + 1;
        }
        proof {
            assert(rows@.take(i as int) =~= rows@);
        }
        known
    }

    /// The score known for `tid`.
    pub fn get(&self, tid: Tid) -> (score: Option<u32>)
        ensures
            score == self.at(tid),
    {
        fx_map_get(&self.scores, tid.number())
    }
}

/// The score of the last of `rows` that is at `tid`.
pub open spec fn last_score(rows: Seq<Row>, tid: Tid) -> Option<u32>
    decreases rows.len(),
{
    if rows.len() == 0 {
        None
    } else if rows.last().tid == tid {
        Some(rows.last().score)
    } else {
        last_score(rows.drop_last(), tid)
    }
}

proof fn lemma_document_at(source: Source, max_offset: u16, d: int)
    requires
        source.ordered(max_offset),
        0 <= d < source.documents.len(),
    ensures
        document_at(source, source.documents[d].tid) == source.documents[d],
{
    let tid = source.documents[d].tid;
    let e = choose|e: int|
        0 <= e < source.documents.len() && #[trigger] source.documents[e].tid == tid;
    assert(source.documents[d].tid == tid);
    if d < e {
        assert(source.documents@[d].tid.key() < source.documents@[e].tid.key());
    } else if e < d {
        assert(source.documents@[e].tid.key() < source.documents@[d].tid.key());
    }
}

impl PrunedScan {
    /// The sources are in heap order.
    pub open spec fn ordered(self) -> bool {
        forall|i: int|
            0 <= i < self.sources.len() ==> (#[trigger] self.sources[i]).ordered(self.max_offset)
    }

    /// The score of the document at `tid` in the first source listing it
    /// live.
    pub open spec fn listed_score<A, S, B, L, M>(
        self,
        scoring: Scoring<A, S, B, L, M>,
        tid: Tid,
    ) -> Option<u32> where
        A: Fn(u32, u32) -> u32,
        S: Fn(usize, u32, u32) -> u32,
        B: Fn(usize, Block) -> u32,
        L: Fn(usize, Block, u32) -> u32,
        M: Fn(usize, Block, u32) -> u32,
     {
        listed_from(self.sources@, scoring, tid, 0)
    }

    /// The score known for `tid`, or else the listed one.
    pub open spec fn score_here<A, S, B, L, M>(
        self,
        scoring: Scoring<A, S, B, L, M>,
        known: KnownScores,
        tid: Tid,
    ) -> Option<u32> where
        A: Fn(u32, u32) -> u32,
        S: Fn(usize, u32, u32) -> u32,
        B: Fn(usize, Block) -> u32,
        L: Fn(usize, Block, u32) -> u32,
        M: Fn(usize, Block, u32) -> u32,
     {
        match known.at(tid) {
            Some(score) => Some(score),
            None => self.listed_score(scoring, tid),
        }
    }

    /// Score of the document at `tid` in the first source listing it live:
    /// the sum, left to right in slot order, of what each term contributes.
    pub fn score_listed<A, S, B, L, M>(&self, scoring: &Scoring<A, S, B, L, M>, tid: Tid) -> (score:
        Option<u32>) where
        A: Fn(u32, u32) -> u32,
        S: Fn(usize, u32, u32) -> u32,
        B: Fn(usize, Block) -> u32,
        L: Fn(usize, Block, u32) -> u32,
        M: Fn(usize, Block, u32) -> u32,

        requires
            self.ordered(),
            scoring.deterministic(),
        ensures
            score == self.listed_score(*scoring, tid),
    {
        let mut i: usize = 0;
        while i < self.sources.len()
            invariant
                self.ordered(),
                scoring.deterministic(),
                i <= self.sources.len(),
                self.listed_score(*scoring, tid) == listed_from(
                    self.sources@,
                    *scoring,
                    tid,
                    i as int,
                ),
            decreases self.sources.len() - i,
        {
            let source = &self.sources[i];
            assert(source.ordered(self.max_offset));
            if !source.is_dead(tid) {
                if let Some(d) = source.ordinal(tid) {
                    proof {
                        assert(source.documents[d as int].tid == tid);
                        lemma_document_at(*source, self.max_offset, d as int);
                    }
                    return Some(score_document(scoring, source, source.documents[d], self.max_offset));
                }
            }
            i = i + 1;
        }
        None
    }

    /// Score of one visible document, or zero if the index does not hold it.
    ///
    /// A HOT-updated row keeps its posting at the root of its chain, `root`,
    /// while the executor hands over the visible member's location, so a
    /// location absent from every source is looked up at its root.
    pub fn score<A, S, B, L, M>(
        &self,
        scoring: &Scoring<A, S, B, L, M>,
        known: &KnownScores,
        tid: Tid,
        root: Tid,
    ) -> (score: u32) where
        A: Fn(u32, u32) -> u32,
        S: Fn(usize, u32, u32) -> u32,
        B: Fn(usize, Block) -> u32,
        L: Fn(usize, Block, u32) -> u32,
        M: Fn(usize, Block, u32) -> u32,

        requires
            self.ordered(),
            scoring.deterministic(),
        ensures
            score == (match self.score_here(*scoring, *known, tid) {
                Some(found) => found,
                None => match self.score_here(*scoring, *known, root) {
                    Some(found) => found,
                    None => 0,
                },
            }),
    {
        if let Some(found) = known.get(tid) {
            return found;
        }
        if let Some(found) = self.score_listed(scoring, tid) {
            return found;
        }
        if root != tid {
            if let Some(found) = known.get(root) {
                return found;
            }
            if let Some(found) = self.score_listed(scoring, root) {
                return found;
            }
        }
        0
    }

    /// Whether scoring `tid` needs the root of its chain.
    pub fn needs_root<A, S, B, L, M>(
        &self,
        scoring: &Scoring<A, S, B, L, M>,
        known: &KnownScores,
        tid: Tid,
    ) -> (needed: bool) where
        A: Fn(u32, u32) -> u32,
        S: Fn(usize, u32, u32) -> u32,
        B: Fn(usize, Block) -> u32,
        L: Fn(usize, Block, u32) -> u32,
        M: Fn(usize, Block, u32) -> u32,

        requires
            self.ordered(),
            scoring.deterministic(),
        ensures
            needed == self.score_here(*scoring, *known, tid) is None,
    {
        known.get(tid).is_none() && self.score_listed(scoring, tid).is_none()
    }
}

/// The score of a document of a source.
fn score_document<A, S, B, L, M>(
    scoring: &Scoring<A, S, B, L, M>,
    source: &Source,
    document: Document,
    max_offset: u16,
) -> (score: u32) where
    A: Fn(u32, u32) -> u32,
    S: Fn(usize, u32, u32) -> u32,
    B: Fn(usize, Block) -> u32,
    L: Fn(usize, Block, u32) -> u32,
    M: Fn(usize, Block, u32) -> u32,

    requires
        scoring.deterministic(),
        source.ordered(max_offset),
    ensures
        score == source.score_of(*scoring, document),
{
    let mut values: Vec<Option<u32>> = Vec::new();
    let mut i: usize = 0;
    let ghost exact = source.contributions(*scoring, document.tid, document.length);
    while i < source.terms.len()
        invariant
            scoring.deterministic(),
            source.ordered(max_offset),
            exact == source.contributions(*scoring, document.tid, document.length),
            i <= source.terms.len(),
            values.len() == i,
            forall|j: int| 0 <= j < i ==> values[j] == exact[j],
        decreases source.terms.len() - i,
    {
        let term = &source.terms[i];
        let mut value: Option<u32> = None;
        let mut q: usize = 0;
        while q < term.postings.len() && value.is_none()
            invariant
                scoring.deterministic(),
                *term == source.terms[i as int],
                term.ordered(max_offset),
                q <= term.postings.len(),
                value is None ==> forall|r: int|
                    0 <= r < q ==> (#[trigger] term.postings[r]).tid != document.tid,
                value is Some ==> term.posting_at(document.tid) is Some && value == Some(
                    scoring.contribution(
                        term.slot,
                        (term.posting_at(document.tid)->0).frequency,
                        document.length,
                    ),
                ),
            decreases term.postings.len() - q,
        {
            if term.postings[q].tid == document.tid {
                proof {
                    term.lemma_posting_at(max_offset, q as int);
                }
                let c: u32 = (scoring.exact)(term.slot, term.postings[q].frequency, document.length);
                value = Some(c);
            }
            q = q + 1;
        }
        values.push(value);
        i = i + 1;
    }
    proof {
        assert(values@ =~= exact);
    }
    scoring.fold(&values)
}

impl PrunedScan {
    /// What [`PrunedScan::score`] gives.
    pub open spec fn score_at<A, S, B, L, M>(
        self,
        scoring: Scoring<A, S, B, L, M>,
        known: KnownScores,
        tid: Tid,
        root: Tid,
    ) -> u32 where
        A: Fn(u32, u32) -> u32,
        S: Fn(usize, u32, u32) -> u32,
        B: Fn(usize, Block) -> u32,
        L: Fn(usize, Block, u32) -> u32,
        M: Fn(usize, Block, u32) -> u32,
     {
        match self.score_here(scoring, known, tid) {
            Some(found) => found,
            None => match self.score_here(scoring, known, root) {
                Some(found) => found,
                None => 0,
            },
        }
    }

    /// The locations `tids`, whose chains have the given roots, scored in the
    /// order they come in.
    pub fn score_matching_tids<A, S, B, L, M>(
        &self,
        scoring: &Scoring<A, S, B, L, M>,
        known: &KnownScores,
        tids: &Vec<Tid>,
        roots: &Vec<Tid>,
    ) -> (rows: Vec<Row>) where
        A: Fn(u32, u32) -> u32,
        S: Fn(usize, u32, u32) -> u32,
        B: Fn(usize, Block) -> u32,
        L: Fn(usize, Block, u32) -> u32,
        M: Fn(usize, Block, u32) -> u32,

        requires
            self.ordered(),
            scoring.deterministic(),
            roots.len() == tids.len(),
        ensures
            rows.len() == tids.len(),
            forall|i: int|
                0 <= i < tids.len() ==> #[trigger] rows[i] == (Row {
                    score: self.score_at(*scoring, *known, tids[i], roots[i]),
                    tid: tids[i],
                }),
    {
        let mut rows: Vec<Row> = Vec::new();
        let mut i: usize = 0;
        while i < tids.len()
            invariant
                self.ordered(),
                scoring.deterministic(),
                roots.len() == tids.len(),
                i <= tids.len(),
                rows.len() == i,
                forall|j: int|
                    0 <= j < i ==> #[trigger] rows[j] == (Row {
                        score: self.score_at(*scoring, *known, tids[j], roots[j]),
                        tid: tids[j],
                    }),
            decreases tids.len() - i,
        {
            let tid: Tid = tids[i];
            let score: u32 = self.score(scoring, known, tid, roots[i]);
            rows.push(Row { score, tid });
            i = i + 1;
        }
        rows
    }

    /// The largest score of the first `upto` locations: zero where none is
    /// larger.
    pub open spec fn largest_upto<A, S, B, L, M>(
        self,
        scoring: Scoring<A, S, B, L, M>,
        known: KnownScores,
        tids: Seq<Tid>,
        roots: Seq<Tid>,
        upto: int,
    ) -> u32 where
        A: Fn(u32, u32) -> u32,
        S: Fn(usize, u32, u32) -> u32,
        B: Fn(usize, Block) -> u32,
        L: Fn(usize, Block, u32) -> u32,
        M: Fn(usize, Block, u32) -> u32,

        decreases upto,
    {
        if upto <= 0 {
            0
        } else {
            larger_score(
                self.largest_upto(scoring, known, tids, roots, upto - 1),
                self.score_at(scoring, known, tids[upto - 1], roots[upto - 1]),
            )
        }
    }

    /// Maximum score over the visible documents matching the query, which
    /// `tids` lists with the roots of their chains; zero when there are none.
    /// It is computed once and then kept in `max`.
    pub fn max_score<A, S, B, L, M>(
        &self,
        scoring: &Scoring<A, S, B, L, M>,
        known: &KnownScores,
        tids: &Vec<Tid>,
        roots: &Vec<Tid>,
        max: &mut Option<u32>,
    ) -> (score: u32) where
        A: Fn(u32, u32) -> u32,
        S: Fn(usize, u32, u32) -> u32,
        B: Fn(usize, Block) -> u32,
        L: Fn(usize, Block, u32) -> u32,
        M: Fn(usize, Block, u32) -> u32,

        requires
            self.ordered(),
            scoring.deterministic(),
            roots.len() == tids.len(),
        ensures
            *final(max) == Some(score),
            *old(max) is Some ==> *old(max) == Some(score),
            *old(max) is None ==> score == self.largest_upto(
                *scoring,
                *known,
                tids@,
                roots@,
                tids.len() as int,
            ),
    {
        if let Some(score) = *max {
            return score;
        }
        let mut score: u32 = 0;
        let mut i: usize = 0;
        while i < tids.len()
            invariant
                self.ordered(),
                scoring.deterministic(),
                roots.len() == tids.len(),
                i <= tids.len(),
                score == self.largest_upto(*scoring, *known, tids@, roots@, i as int),
            decreases tids.len() - i,
        {
            let found: u32 = self.score(scoring, known, tids[i], roots[i]);
            assert(found == self.score_at(*scoring, *known, tids[i as int], roots[i as int]));
            score = larger(score, found);
            i = i + 1;
        }
        *max = Some(score);
        score
    }

    /// The pruned candidates exposed to standalone callers: `None` when there
    /// are too many to prune for, or the scan cannot be pruned.
    pub fn pruned_top_k<A, S, B, L, M>(&self, scoring: &Scoring<A, S, B, L, M>, k: usize) -> (top:
        Option<TopK>) where
        A: Fn(u32, u32) -> u32,
        S: Fn(usize, u32, u32) -> u32,
        B: Fn(usize, Block) -> u32,
        L: Fn(usize, Block, u32) -> u32,
        M: Fn(usize, Block, u32) -> u32,

        requires
            scoring.deterministic(),
            scoring.sound(),
            crate::top_k::sources_valid(
                self.sources@,
                *scoring,
                self.terms.len() as nat,
                self.max_offset,
            ),
            document_count(self.sources@) <= usize::MAX,
        ensures
            match self.best(*scoring, k as nat) {
                Some(rows) => if k > PRUNE_MAX_K {
                    top is None
                } else {
                    top is Some && top->0.rows@ == rows && top->0.complete == (rows.len() < k)
                        && top->0.scored == self.walk(*scoring, k as nat).scored
                },
                None => top is None,
            },
    {
        if k > PRUNE_MAX_K {
            return None;
        }
        let mut events: Vec<WalkEvent> = Vec::new();
        self.top_k(scoring, k, &mut events)
    }

    /// No location is listed live by two sources.
    pub open spec fn one_source_each(self) -> bool {
        forall|i: int, j: int, tid: Tid|
            0 <= i < j < self.sources.len() ==> !(#[trigger] lists(self.sources[i], tid)
                && #[trigger] lists(self.sources[j], tid))
    }

    /// The location matches the walked query in some source.
    pub open spec fn matches_at(self, combine: Combine, tid: Tid) -> bool {
        exists|i: int|
            0 <= i < self.sources.len() && #[trigger] matches_in(
                self.sources[i],
                combine,
                self.terms.len() as nat,
                tid,
            )
    }
}

/// The source lists a live document at `tid` that its terms select.
pub open spec fn matches_in(source: Source, combine: Combine, slots: nat, tid: Tid) -> bool {
    &&& source.terms.len() > 0
    &&& combine == Combine::All ==> source.terms.len() >= slots
    &&& lists(source, tid)
    &&& source.selects(combine, tid)
}

/// Candidates are scored as the index scores them one by one, each once.
pub(crate) proof fn lemma_candidates<A, S, B, L, M>(
    source: Source,
    scoring: Scoring<A, S, B, L, M>,
    combine: Combine,
    max_offset: u16,
    upto: nat,
) where
    A: Fn(u32, u32) -> u32,
    S: Fn(usize, u32, u32) -> u32,
    B: Fn(usize, Block) -> u32,
    L: Fn(usize, Block, u32) -> u32,
    M: Fn(usize, Block, u32) -> u32,

    requires
        source.ordered(max_offset),
        upto <= source.documents.len(),
    ensures
        source.candidates(scoring, combine, upto).no_duplicates(),
        forall|row: Row| #[trigger]
            source.candidates(scoring, combine, upto).contains(row) <==> exists|d: int|
                0 <= d < upto && source.is_candidate(combine, (#[trigger] source.documents[d]).tid)
                    && row == (Row {
                    score: source.score_of(scoring, source.documents[d]),
                    tid: source.documents[d].tid,
                }),
    decreases upto,
{
    if upto > 0 {
        let less = (upto - 1) as nat;
        lemma_candidates(source, scoring, combine, max_offset, less);
        let before = source.candidates(scoring, combine, less);
        let all = source.candidates(scoring, combine, upto);
        let document = source.documents[upto - 1];
        let last = Row { score: source.score_of(scoring, document), tid: document.tid };
        if source.is_candidate(combine, document.tid) {
            assert(all == before.push(last));
            assert(all[before.len() as int] == last);
            if before.contains(last) {
                let d = choose|d: int|
                    0 <= d < less && source.is_candidate(
                        combine,
                        (#[trigger] source.documents[d]).tid,
                    ) && last == (Row {
                        score: source.score_of(scoring, source.documents[d]),
                        tid: source.documents[d].tid,
                    });
                assert(source.documents@[d].tid.key() < source.documents@[upto - 1].tid.key());
            }
            assert forall|i: int, j: int| 0 <= i < all.len() && 0 <= j < all.len() && i != j implies all[i]
                != all[j] by {
                if i == before.len() {
                    assert(before.contains(all[j]));
                } else if j == before.len() {
                    assert(before.contains(all[i]));
                }
            }
            assert forall|row: Row| #[trigger] all.contains(row) <==> before.contains(row) || row
                == last by {
                if before.contains(row) {
                    let i = choose|i: int| 0 <= i < before.len() && before[i] == row;
                    assert(all[i] == row);
                }
                if all.contains(row) && row != last {
                    let i = choose|i: int| 0 <= i < all.len() && all[i] == row;
                    assert(before[i] == row);
                }
            }
        }
        assert forall|row: Row| #[trigger] all.contains(row) <==> exists|d: int|
            0 <= d < upto && source.is_candidate(combine, (#[trigger] source.documents[d]).tid)
                && row == (Row {
                score: source.score_of(scoring, source.documents[d]),
                tid: source.documents[d].tid,
            }) by {
            if before.contains(row) {
                let d = choose|d: int|
                    0 <= d < less && source.is_candidate(
                        combine,
                        (#[trigger] source.documents[d]).tid,
                    ) && row == (Row {
                        score: source.score_of(scoring, source.documents[d]),
                        tid: source.documents[d].tid,
                    });
                assert(source.documents[d].tid == row.tid);
            }
            if exists|d: int|
                0 <= d < upto && source.is_candidate(combine, (#[trigger] source.documents[d]).tid)
                    && row == (Row {
                    score: source.score_of(scoring, source.documents[d]),
                    tid: source.documents[d].tid,
                }) {
                let d = choose|d: int|
                    0 <= d < upto && source.is_candidate(
                        combine,
                        (#[trigger] source.documents[d]).tid,
                    ) && row == (Row {
                        score: source.score_of(scoring, source.documents[d]),
                        tid: source.documents[d].tid,
                    });
                if d == upto - 1 {
                    assert(row == last);
                } else {
                    assert(before.contains(row));
                }
            }
        }
    }
}

/// The rows of a source are its matching locations, each once, with their
/// scores.
proof fn lemma_source_rows<A, S, B, L, M>(
    source: Source,
    scoring: Scoring<A, S, B, L, M>,
    combine: Combine,
    slots: nat,
    max_offset: u16,
) where
    A: Fn(u32, u32) -> u32,
    S: Fn(usize, u32, u32) -> u32,
    B: Fn(usize, Block) -> u32,
    L: Fn(usize, Block, u32) -> u32,
    M: Fn(usize, Block, u32) -> u32,

    requires
        source.ordered(max_offset),
    ensures
        source_rows(source, scoring, combine, slots).no_duplicates(),
        forall|row: Row| #[trigger]
            source_rows(source, scoring, combine, slots).contains(row) <==> matches_in(
                source,
                combine,
                slots,
                row.tid,
            ) && row.score == source.score_of(scoring, document_at(source, row.tid)),
{
    let n = source.documents.len() as nat;
    lemma_candidates(source, scoring, combine, max_offset, n);
    assert forall|row: Row| #[trigger]
        source_rows(source, scoring, combine, slots).contains(row) <==> matches_in(
        source,
        combine,
        slots,
        row.tid,
    ) && row.score == source.score_of(scoring, document_at(source, row.tid)) by {
        if source.candidates(scoring, combine, n).contains(row) {
            let d = choose|d: int|
                0 <= d < n && source.is_candidate(combine, (#[trigger] source.documents[d]).tid)
                    && row == (Row {
                    score: source.score_of(scoring, source.documents[d]),
                    tid: source.documents[d].tid,
                });
            assert(source.documents[d].tid == row.tid);
            lemma_document_at(source, max_offset, d);
        }
        if lists(source, row.tid) {
            let d = choose|d: int|
                0 <= d < source.documents.len() && #[trigger] source.documents[d].tid == row.tid;
            lemma_document_at(source, max_offset, d);
            assert(source.is_candidate(combine, source.documents[d].tid) <==> source.selects(
                combine,
                row.tid,
            ));
        }
    }
}

/// The row is one of the source's.
spec fn row_of<A, S, B, L, M>(
    source: Source,
    scoring: Scoring<A, S, B, L, M>,
    combine: Combine,
    slots: nat,
    row: Row,
) -> bool where
    A: Fn(u32, u32) -> u32,
    S: Fn(usize, u32, u32) -> u32,
    B: Fn(usize, Block) -> u32,
    L: Fn(usize, Block, u32) -> u32,
    M: Fn(usize, Block, u32) -> u32,
 {
    matches_in(source, combine, slots, row.tid) && row.score == source.score_of(
        scoring,
        document_at(source, row.tid),
    )
}

proof fn lemma_all_rows<A, S, B, L, M>(
    scan: PrunedScan,
    scoring: Scoring<A, S, B, L, M>,
    combine: Combine,
    upto: int,
) where
    A: Fn(u32, u32) -> u32,
    S: Fn(usize, u32, u32) -> u32,
    B: Fn(usize, Block) -> u32,
    L: Fn(usize, Block, u32) -> u32,
    M: Fn(usize, Block, u32) -> u32,

    requires
        scan.ordered(),
        scan.one_source_each(),
        0 <= upto <= scan.sources.len(),
    ensures
        ({
            let rows = all_rows(scan.sources@.take(upto), scoring, combine, scan.terms.len() as nat);
            &&& rows.no_duplicates()
            &&& forall|row: Row| #[trigger]
                rows.contains(row) <==> exists|i: int|
                    0 <= i < upto && #[trigger] row_of(
                        scan.sources[i],
                        scoring,
                        combine,
                        scan.terms.len() as nat,
                        row,
                    )
        }),
    decreases upto,
{
    let slots = scan.terms.len() as nat;
    let taken = scan.sources@.take(upto);
    let rows = all_rows(taken, scoring, combine, slots);
    if upto > 0 {
        lemma_all_rows(scan, scoring, combine, upto - 1);
        assert(taken.drop_last() =~= scan.sources@.take(upto - 1));
        let source = scan.sources[upto - 1];
        assert(taken.last() == source);
        let before = all_rows(scan.sources@.take(upto - 1), scoring, combine, slots);
        let more = source_rows(source, scoring, combine, slots);
        assert(rows == before + more);
        lemma_source_rows(source, scoring, combine, slots, scan.max_offset);
        assert forall|row: Row| before.contains(row) implies !more.contains(row) by {
            let i = choose|i: int|
                0 <= i < upto - 1 && #[trigger] row_of(
                    scan.sources[i],
                    scoring,
                    combine,
                    slots,
                    row,
                );
            assert(lists(scan.sources[i], row.tid));
            assert(!lists(scan.sources[upto - 1], row.tid));
        }
        assert forall|i: int, j: int| 0 <= i < rows.len() && 0 <= j < rows.len() && i != j implies rows[i]
            != rows[j] by {
            let n = before.len() as int;
            if i < n && j >= n {
                assert(before.contains(before[i]));
                assert(more.contains(more[j - n]));
            } else if j < n && i >= n {
                assert(before.contains(before[j]));
                assert(more.contains(more[i - n]));
            } else if i >= n && j >= n {
                assert(more[i - n] != more[j - n]);
            }
        }
        assert forall|row: Row| #[trigger] rows.contains(row) <==> exists|i: int|
            0 <= i < upto && #[trigger] row_of(
                scan.sources[i],
                scoring,
                combine,
                slots,
                row,
            ) by {
            assert(rows.contains(row) <==> before.contains(row) || more.contains(row)) by {
                if rows.contains(row) {
                    let i = choose|i: int| 0 <= i < rows.len() && rows[i] == row;
                    if i < before.len() {
                        assert(before[i] == row);
                    } else {
                        assert(more[i - before.len()] == row);
                    }
                }
                if before.contains(row) {
                    let i = choose|i: int| 0 <= i < before.len() && before[i] == row;
                    assert(rows[i] == row);
                }
                if more.contains(row) {
                    let i = choose|i: int| 0 <= i < more.len() && more[i] == row;
                    assert(rows[before.len() + i] == row);
                }
            }
            if more.contains(row) {
                assert(row_of(scan.sources[upto - 1], scoring, combine, slots, row));
            }
        }
    }
}

/// The first source listing a location live is the one that does.
proof fn lemma_listed<A, S, B, L, M>(
    scan: PrunedScan,
    scoring: Scoring<A, S, B, L, M>,
    tid: Tid,
    i: int,
    from: int,
) where
    A: Fn(u32, u32) -> u32,
    S: Fn(usize, u32, u32) -> u32,
    B: Fn(usize, Block) -> u32,
    L: Fn(usize, Block, u32) -> u32,
    M: Fn(usize, Block, u32) -> u32,

    requires
        scan.one_source_each(),
        0 <= from <= i < scan.sources.len(),
        lists(scan.sources[i], tid),
    ensures
        listed_from(scan.sources@, scoring, tid, from) == Some(
            scan.sources[i].score_of(scoring, document_at(scan.sources[i], tid)),
        ),
    decreases i - from,
{
    if from < i {
        assert(!lists(scan.sources[from], tid));
        lemma_listed(scan, scoring, tid, i, from + 1);
    }
}

/// Each location with its listed score.
pub open spec fn scored<A, S, B, L, M>(
    scan: PrunedScan,
    scoring: Scoring<A, S, B, L, M>,
    tids: Seq<Tid>,
) -> Seq<Row> where
    A: Fn(u32, u32) -> u32,
    S: Fn(usize, u32, u32) -> u32,
    B: Fn(usize, Block) -> u32,
    L: Fn(usize, Block, u32) -> u32,
    M: Fn(usize, Block, u32) -> u32,
 {
    Seq::new(
        tids.len(),
        |i: int| Row { score: scan.listed_score(scoring, tids[i])->0, tid: tids[i] },
    )
}

/// Pruning changes nothing: the rows of a pruned scan are the first of all
/// matching locations, each scored on its own and put in output order, tie
/// order and all. `tids` are the matching locations, in any order.
pub proof fn law_pruning_is_exhaustive<A, S, B, L, M>(
    scan: PrunedScan,
    scoring: Scoring<A, S, B, L, M>,
    combine: Combine,
    k: nat,
    tids: Seq<Tid>,
) where
    A: Fn(u32, u32) -> u32,
    S: Fn(usize, u32, u32) -> u32,
    B: Fn(usize, Block) -> u32,
    L: Fn(usize, Block, u32) -> u32,
    M: Fn(usize, Block, u32) -> u32,

    requires
        scan.ordered(),
        scan.one_source_each(),
        scan.pruning() == Prunable::Walk(combine),
        tids.no_duplicates(),
        forall|tid: Tid| #[trigger] tids.contains(tid) <==> scan.matches_at(combine, tid),
        scan.best(scoring, k) is Some,
    ensures
        scan.best(scoring, k) == Some(at_most(k, ranked(scored(scan, scoring, tids)))),
        forall|tid: Tid| #[trigger]
            tids.contains(tid) ==> scan.listed_score(scoring, tid) is Some,
{
    let slots = scan.terms.len() as nat;
    let rows = scan.rows(scoring);
    let one_by_one = scored(scan, scoring, tids);
    lemma_all_rows(scan, scoring, combine, scan.sources.len() as int);
    assert(scan.sources@.take(scan.sources.len() as int) =~= scan.sources@);
    assert forall|tid: Tid| #[trigger] tids.contains(tid) implies scan.listed_score(
        scoring,
        tid,
    ) is Some by {
        let i = choose|i: int|
            0 <= i < scan.sources.len() && #[trigger] matches_in(
                scan.sources[i],
                combine,
                slots,
                tid,
            );
        lemma_listed(scan, scoring, tid, i, 0);
    }
    assert(one_by_one.no_duplicates()) by {
        assert forall|i: int, j: int|
            0 <= i < one_by_one.len() && 0 <= j < one_by_one.len() && i != j implies one_by_one[i]
            != one_by_one[j] by {
            assert(tids[i] != tids[j]);
        }
    }
    assert forall|row: Row| #[trigger] rows.contains(row) <==> one_by_one.contains(row) by {
        if rows.contains(row) {
            let i = choose|i: int|
                0 <= i < scan.sources.len() && #[trigger] row_of(
                    scan.sources[i],
                    scoring,
                    combine,
                    slots,
                    row,
                );
            assert(matches_in(scan.sources[i], combine, slots, row.tid));
            lemma_listed(scan, scoring, row.tid, i, 0);
            assert(tids.contains(row.tid));
            let j = choose|j: int| 0 <= j < tids.len() && tids[j] == row.tid;
            assert(one_by_one[j] == row);
        }
        if one_by_one.contains(row) {
            let j = choose|j: int| 0 <= j < one_by_one.len() && one_by_one[j] == row;
            assert(tids.contains(tids[j]));
            let i = choose|i: int|
                0 <= i < scan.sources.len() && #[trigger] matches_in(
                    scan.sources[i],
                    combine,
                    slots,
                    row.tid,
                );
            lemma_listed(scan, scoring, row.tid, i, 0);
            assert(row_of(scan.sources[i], scoring, combine, slots, row));
        }
    }
    lemma_same_multiset(rows, one_by_one);
    law_ranked_ignores_arrival(rows, one_by_one);
    if k == 0 {
        assert(at_most(k, ranked(one_by_one)) =~= Seq::<Row>::empty());
    }
}

proof fn lemma_same_multiset(a: Seq<Row>, b: Seq<Row>)
    requires
        a.no_duplicates(),
        b.no_duplicates(),
        forall|row: Row| #[trigger] a.contains(row) <==> b.contains(row),
    ensures
        a.to_multiset() == b.to_multiset(),
{
    broadcast use vstd::seq_lib::group_to_multiset_ensures;

    a.lemma_multiset_has_no_duplicates();
    b.lemma_multiset_has_no_duplicates();
    assert forall|row: Row| #[trigger] a.to_multiset().count(row) == b.to_multiset().count(row) by {
        assert(a.contains(row) <==> b.contains(row));
        assert(a.to_multiset().contains(row) <==> a.contains(row));
        assert(b.to_multiset().contains(row) <==> b.contains(row));
    }
    assert(a.to_multiset() =~= b.to_multiset());
}

} // verus!
