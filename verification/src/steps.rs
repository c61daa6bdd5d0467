//! The steps of a pruned walk: which candidates it scores, and which it only
//! passes by.

use crate::ranking::{enters, number_order, offered, Row};
use crate::scoring::{Block, Scoring};
use crate::source::{Combine, Document, Posting, Source, TermPostings};
use crate::tid::{after, lemma_key_injective, Tid};
use vstd::prelude::*;

verus! {

/// No location is here or beyond.
pub open spec fn beyond() -> int {
    0x1_0000_0000_0000
}

/// What a walk counts: the candidates it scored, and those it dropped because
/// they are deleted.
pub struct Tally {
    pub scored: nat,
    pub dead: nat,
}

impl Tally {
    /// Nothing counted.
    pub open spec fn nothing() -> Tally {
        Tally { scored: 0, dead: 0 }
    }

    /// Both together.
    pub open spec fn plus(self, other: Tally) -> Tally {
        Tally { scored: self.scored + other.scored, dead: self.dead + other.dead }
    }
}

/// A step of a walk: the best rows after it, where the walk goes on, the range
/// that is known not to score more than a bound, and what the step counts.
pub struct Step {
    pub best: Seq<Row>,
    pub frontier: int,
    pub range: Option<(Tid, u32)>,
    pub tally: Tally,
}

/// The first of the postings, from the `q`-th on, at `frontier` or later.
pub open spec fn first_from(postings: Seq<Posting>, frontier: int, q: int) -> Option<Tid>
    decreases postings.len() - q,
{
    if q < 0 || q >= postings.len() {
        None
    } else if frontier <= postings[q].tid.key() {
        Some(postings[q].tid)
    } else {
        first_from(postings, frontier, q + 1)
    }
}

/// The first of the blocks, from the `b`-th on, that ends at `key` or later.
pub open spec fn block_over(blocks: Seq<Block>, key: int, b: int) -> Option<Block>
    decreases blocks.len() - b,
{
    if b < 0 || b >= blocks.len() {
        None
    } else if key <= blocks[b].last.key() {
        Some(blocks[b])
    } else {
        block_over(blocks, key, b + 1)
    }
}

impl TermPostings {
    /// The term's first location at `frontier` or later.
    pub open spec fn next_at(self, frontier: int) -> Option<Tid> {
        first_from(self.postings@, frontier, 0)
    }

    /// The block that holds the term's first posting at `frontier` or later.
    pub open spec fn block_from(self, frontier: int) -> Option<Block> {
        match self.next_at(frontier) {
            Some(tid) => block_over(self.blocks@, tid.key(), 0),
            None => None,
        }
    }
}

pub proof fn lemma_first_from(postings: Seq<Posting>, frontier: int, q: int, at: int)
    requires
        0 <= q <= at <= postings.len(),
        forall|x: int| q <= x < at ==> (#[trigger] postings[x]).tid.key() < frontier,
        at < postings.len() ==> frontier <= postings[at].tid.key(),
    ensures
        first_from(postings, frontier, q) == (if at < postings.len() {
            Some(postings[at].tid)
        } else {
            None
        }),
    decreases at - q,
{
    if q < at {
        lemma_first_from(postings, frontier, q + 1, at);
    }
}

pub proof fn lemma_block_over(blocks: Seq<Block>, key: int, b: int, at: int)
    requires
        0 <= b <= at < blocks.len(),
        forall|x: int| b <= x < at ==> (#[trigger] blocks[x]).last.key() < key,
        key <= blocks[at].last.key(),
    ensures
        block_over(blocks, key, b) == Some(blocks[at]),
    decreases at - b,
{
    if b < at {
        lemma_block_over(blocks, key, b + 1, at);
    }
}

/// Whether the range, known from an earlier location, spans `pivot`.
pub open spec fn spanned(range: Option<(Tid, u32)>, pivot: Tid) -> bool {
    range matches Some((end, _)) && pivot.key() <= end.key()
}

proof fn lemma_within(tid: Tid)
    ensures
        tid.key() < beyond(),
{
}

impl Source {
    /// Whether term `i` has a location from `frontier` through `to`.
    pub open spec fn in_reach(self, i: int, frontier: int, to: int) -> bool {
        self.terms[i].next_at(frontier) matches Some(tid) && tid.key() <= to
    }

    /// The bounds of the terms that have a location from `frontier` through
    /// `to`, anywhere in the source.
    pub open spec fn reach_values<A, S, B, L, M>(
        self,
        scoring: Scoring<A, S, B, L, M>,
        frontier: int,
        to: int,
    ) -> Seq<Option<u32>> where
        A: Fn(u32, u32) -> u32,
        S: Fn(usize, u32, u32) -> u32,
        B: Fn(usize, Block) -> u32,
        L: Fn(usize, Block, u32) -> u32,
        M: Fn(usize, Block, u32) -> u32,
     {
        Seq::new(
            self.terms.len() as nat,
            |i: int|
                if self.in_reach(i, frontier, to) {
                    Some(scoring.block_bound(self.terms[i].slot, self.terms[i].whole))
                } else {
                    None
                },
        )
    }

    /// Whether the terms that have a location from `frontier` through `to`
    /// could together reach the last of the `k` best rows.
    pub open spec fn reaches<A, S, B, L, M>(
        self,
        scoring: Scoring<A, S, B, L, M>,
        k: nat,
        best: Seq<Row>,
        frontier: int,
        to: int,
    ) -> bool where
        A: Fn(u32, u32) -> u32,
        S: Fn(usize, u32, u32) -> u32,
        B: Fn(usize, Block) -> u32,
        L: Fn(usize, Block, u32) -> u32,
        M: Fn(usize, Block, u32) -> u32,
     {
        best.len() != k || number_order(scoring.total(self.reach_values(scoring, frontier, to)))
            >= number_order(best.last().score)
    }

    /// The first location, of those that the terms come to next, at which the
    /// terms up to it could together reach the last of the `k` best rows.
    pub open spec fn is_pivot<A, S, B, L, M>(
        self,
        scoring: Scoring<A, S, B, L, M>,
        k: nat,
        best: Seq<Row>,
        frontier: int,
        pivot: Tid,
    ) -> bool where
        A: Fn(u32, u32) -> u32,
        S: Fn(usize, u32, u32) -> u32,
        B: Fn(usize, Block) -> u32,
        L: Fn(usize, Block, u32) -> u32,
        M: Fn(usize, Block, u32) -> u32,
     {
        &&& exists|i: int|
            0 <= i < self.terms.len() && #[trigger] self.terms[i].next_at(frontier) == Some(pivot)
        &&& self.reaches(scoring, k, best, frontier, pivot.key())
        &&& forall|i: int|
            0 <= i < self.terms.len() ==> (#[trigger] self.terms[i].next_at(frontier) matches Some(
                tid,
            ) ==> tid.key() < pivot.key() ==> !self.reaches(scoring, k, best, frontier, tid.key()))
    }

    /// The pivot of a disjunction's walk, if there is one.
    pub open spec fn pivot_of<A, S, B, L, M>(
        self,
        scoring: Scoring<A, S, B, L, M>,
        k: nat,
        best: Seq<Row>,
        frontier: int,
    ) -> Option<Tid> where
        A: Fn(u32, u32) -> u32,
        S: Fn(usize, u32, u32) -> u32,
        B: Fn(usize, Block) -> u32,
        L: Fn(usize, Block, u32) -> u32,
        M: Fn(usize, Block, u32) -> u32,
     {
        if exists|pivot: Tid| self.is_pivot(scoring, k, best, frontier, pivot) {
            Some(choose|pivot: Tid| self.is_pivot(scoring, k, best, frontier, pivot))
        } else {
            None
        }
    }

    /// The bounds, within their blocks at `pivot`, of the terms that have a
    /// location from `frontier` through it.
    pub open spec fn range_values<A, S, B, L, M>(
        self,
        scoring: Scoring<A, S, B, L, M>,
        frontier: int,
        pivot: int,
    ) -> Seq<Option<u32>> where
        A: Fn(u32, u32) -> u32,
        S: Fn(usize, u32, u32) -> u32,
        B: Fn(usize, Block) -> u32,
        L: Fn(usize, Block, u32) -> u32,
        M: Fn(usize, Block, u32) -> u32,
     {
        Seq::new(
            self.terms.len() as nat,
            |i: int|
                if self.in_reach(i, frontier, pivot) {
                    match self.terms[i].block_from(pivot) {
                        Some(block) => Some(scoring.block_bound(self.terms[i].slot, block)),
                        None => None,
                    }
                } else {
                    None
                },
        )
    }

    /// The end of the nearest block at `pivot`, of the terms that have a
    /// location from `frontier` through it.
    pub open spec fn is_range_end(self, frontier: int, pivot: int, end: Tid) -> bool {
        &&& exists|i: int|
            0 <= i < self.terms.len() && self.in_reach(i, frontier, pivot) && (
            #[trigger] self.terms[i].block_from(pivot) matches Some(block) && block.last == end)
        &&& forall|i: int|
            0 <= i < self.terms.len() && self.in_reach(i, frontier, pivot) ==> (
            #[trigger] self.terms[i].block_from(pivot) matches Some(block) ==> end.key()
                <= block.last.key())
    }

    /// The end of the nearest block.
    pub open spec fn range_end(self, frontier: int, pivot: int) -> Tid {
        choose|end: Tid| self.is_range_end(frontier, pivot, end)
    }

    /// Where a disjunction's walk goes on behind a range that ends at `end`: no
    /// later than where a term beyond the pivot comes to next.
    pub open spec fn is_next(
        self,
        frontier: int,
        pivot: int,
        end: Tid,
        max_offset: u16,
        next: int,
    ) -> bool {
        &&& next <= after(end, max_offset).key()
        &&& forall|i: int|
            0 <= i < self.terms.len() ==> (#[trigger] self.terms[i].next_at(frontier) matches Some(
                tid,
            ) ==> pivot < tid.key() ==> next <= tid.key())
        &&& next == after(end, max_offset).key() || exists|i: int|
            0 <= i < self.terms.len() && (#[trigger] self.terms[i].next_at(frontier) matches Some(
                tid,
            ) && pivot < tid.key() && tid.key() == next)
    }

    /// Where a disjunction's walk goes on behind a range.
    pub open spec fn next_of(self, frontier: int, pivot: int, end: Tid, max_offset: u16) -> int {
        choose|next: int| self.is_next(frontier, pivot, end, max_offset, next)
    }

    /// Term `i` is decoded before term `x`: it is rarer, or as rare and first.
    pub open spec fn decoded_first(self, i: int, x: int) -> bool {
        self.terms[i].count < self.terms[x].count || (self.terms[i].count == self.terms[x].count
            && i < x)
    }

    /// What is known of a document's score when term `x` comes to be decoded:
    /// what each term before it contributes, and for the others the most that
    /// they can within their blocks, the document's length given.
    pub open spec fn partly_decoded<A, S, B, L, M>(
        self,
        scoring: Scoring<A, S, B, L, M>,
        document: Document,
        x: int,
    ) -> Seq<Option<u32>> where
        A: Fn(u32, u32) -> u32,
        S: Fn(usize, u32, u32) -> u32,
        B: Fn(usize, Block) -> u32,
        L: Fn(usize, Block, u32) -> u32,
        M: Fn(usize, Block, u32) -> u32,
     {
        Seq::new(
            self.terms.len() as nat,
            |i: int|
                match self.terms[i].posting_at(document.tid) {
                    Some(posting) => Some(
                        if self.decoded_first(i, x) {
                            scoring.contribution(
                                self.terms[i].slot,
                                posting.frequency,
                                document.length,
                            )
                        } else {
                            scoring.bound_for_length(
                                self.terms[i].slot,
                                self.terms[i].block_from(document.tid.key())->0,
                                document.length,
                            )
                        },
                    ),
                    None => None,
                },
        )
    }

    /// Whether a document is abandoned before all its terms are decoded: there
    /// are `k` best rows, and at some term the document can no longer enter.
    pub open spec fn abandoned<A, S, B, L, M>(
        self,
        scoring: Scoring<A, S, B, L, M>,
        k: nat,
        best: Seq<Row>,
        document: Document,
    ) -> bool where
        A: Fn(u32, u32) -> u32,
        S: Fn(usize, u32, u32) -> u32,
        B: Fn(usize, Block) -> u32,
        L: Fn(usize, Block, u32) -> u32,
        M: Fn(usize, Block, u32) -> u32,
     {
        best.len() == k && exists|x: int|
            0 <= x < self.terms.len() && self.terms[x].posting_at(document.tid) is Some && !enters(
                k,
                best,
                scoring.total(#[trigger] self.partly_decoded(scoring, document, x)),
                document.tid,
            )
    }

    /// The document at `tid`.
    pub open spec fn document_of(self, tid: Tid) -> Document {
        self.documents[choose|d: int|
            0 <= d < self.documents.len() && #[trigger] self.documents[d].tid == tid]
    }

    /// What comes of looking at the candidate at `tid`, and goes on behind it.
    pub open spec fn visited<A, S, B, L, M>(
        self,
        scoring: Scoring<A, S, B, L, M>,
        k: nat,
        best: Seq<Row>,
        tid: Tid,
        range: Option<(Tid, u32)>,
    ) -> Step where
        A: Fn(u32, u32) -> u32,
        S: Fn(usize, u32, u32) -> u32,
        B: Fn(usize, Block) -> u32,
        L: Fn(usize, Block, u32) -> u32,
        M: Fn(usize, Block, u32) -> u32,
     {
        let document = self.document_of(tid);
        if self.dead@.contains(tid) {
            Step { best, frontier: tid.key() + 1, range, tally: Tally { scored: 0, dead: 1 } }
        } else if self.abandoned(scoring, k, best, document) {
            Step { best, frontier: tid.key() + 1, range, tally: Tally::nothing() }
        } else {
            Step {
                best: offered(k, best, Row { score: self.score_of(scoring, document), tid }),
                frontier: tid.key() + 1,
                range,
                tally: Tally { scored: 1, dead: 0 },
            }
        }
    }

    /// A step of a disjunction's walk from `frontier`: none when no term could
    /// reach the best rows any more. A range that cannot enter is passed by;
    /// cursors behind the pivot are moved to it; and a pivot that all of them
    /// reached is looked at.
    #[verifier::opaque]
    pub open spec fn any_step<A, S, B, L, M>(
        self,
        scoring: Scoring<A, S, B, L, M>,
        k: nat,
        max_offset: u16,
        best: Seq<Row>,
        frontier: int,
    ) -> Option<Step> where
        A: Fn(u32, u32) -> u32,
        S: Fn(usize, u32, u32) -> u32,
        B: Fn(usize, Block) -> u32,
        L: Fn(usize, Block, u32) -> u32,
        M: Fn(usize, Block, u32) -> u32,
     {
        match self.pivot_of(scoring, k, best, frontier) {
            None => None,
            Some(pivot) => {
                let bound = scoring.total(self.range_values(scoring, frontier, pivot.key()));
                let end = self.range_end(frontier, pivot.key());
                if !enters(k, best, bound, pivot) {
                    Some(
                        Step {
                            best,
                            frontier: self.next_of(frontier, pivot.key(), end, max_offset),
                            range: None,
                            tally: Tally::nothing(),
                        },
                    )
                } else if exists|i: int|
                    0 <= i < self.terms.len() && #[trigger] self.in_reach(
                        i,
                        frontier,
                        pivot.key() - 1,
                    ) {
                    Some(
                        Step { best, frontier: pivot.key(), range: None, tally: Tally::nothing() },
                    )
                } else {
                    Some(self.visited(scoring, k, best, pivot, None))
                }
            },
        }
    }

    /// What a disjunction's walk counts from `frontier` on.
    pub open spec fn any_tally<A, S, B, L, M>(
        self,
        scoring: Scoring<A, S, B, L, M>,
        k: nat,
        max_offset: u16,
        best: Seq<Row>,
        frontier: int,
    ) -> Tally where
        A: Fn(u32, u32) -> u32,
        S: Fn(usize, u32, u32) -> u32,
        B: Fn(usize, Block) -> u32,
        L: Fn(usize, Block, u32) -> u32,
        M: Fn(usize, Block, u32) -> u32,

        decreases
            (if frontier < beyond() {
                beyond() - frontier
            } else {
                0
            }),
    {
        match self.any_step(scoring, k, max_offset, best, frontier) {
            Some(step) => if frontier < step.frontier && frontier < beyond() {
                step.tally.plus(
                    self.any_tally(scoring, k, max_offset, step.best, step.frontier),
                )
            } else {
                Tally::nothing()
            },
            None => Tally::nothing(),
        }
    }

    pub proof fn lemma_pivot_of<A, S, B, L, M>(
        self,
        scoring: Scoring<A, S, B, L, M>,
        k: nat,
        best: Seq<Row>,
        frontier: int,
        pivot: Tid,
    ) where
        A: Fn(u32, u32) -> u32,
        S: Fn(usize, u32, u32) -> u32,
        B: Fn(usize, Block) -> u32,
        L: Fn(usize, Block, u32) -> u32,
        M: Fn(usize, Block, u32) -> u32,

        requires
            self.is_pivot(scoring, k, best, frontier, pivot),
        ensures
            self.pivot_of(scoring, k, best, frontier) == Some(pivot),
    {
        let other = choose|other: Tid| self.is_pivot(scoring, k, best, frontier, other);
        let i = choose|i: int|
            0 <= i < self.terms.len() && #[trigger] self.terms[i].next_at(frontier) == Some(pivot);
        let j = choose|j: int|
            0 <= j < self.terms.len() && #[trigger] self.terms[j].next_at(frontier) == Some(other);
        assert(self.terms[i].next_at(frontier) == Some(pivot));
        assert(self.terms[j].next_at(frontier) == Some(other));
        lemma_key_injective(pivot, other);
    }

    pub proof fn lemma_range_end(self, frontier: int, pivot: int, end: Tid)
        requires
            self.is_range_end(frontier, pivot, end),
        ensures
            self.range_end(frontier, pivot) == end,
    {
        let other = self.range_end(frontier, pivot);
        let i = choose|i: int|
            0 <= i < self.terms.len() && self.in_reach(i, frontier, pivot) && (
            #[trigger] self.terms[i].block_from(pivot) matches Some(block) && block.last == end);
        let j = choose|j: int|
            0 <= j < self.terms.len() && self.in_reach(j, frontier, pivot) && (
            #[trigger] self.terms[j].block_from(pivot) matches Some(block) && block.last == other);
        assert(self.terms[i].block_from(pivot) is Some);
        assert(self.terms[j].block_from(pivot) is Some);
        lemma_key_injective(end, other);
    }

    /// A step of a disjunction's walk passes a range by.
    pub proof fn lemma_any_pass<A, S, B, L, M>(
        self,
        scoring: Scoring<A, S, B, L, M>,
        k: nat,
        max_offset: u16,
        best: Seq<Row>,
        frontier: int,
        pivot: Tid,
        next: int,
    ) where
        A: Fn(u32, u32) -> u32,
        S: Fn(usize, u32, u32) -> u32,
        B: Fn(usize, Block) -> u32,
        L: Fn(usize, Block, u32) -> u32,
        M: Fn(usize, Block, u32) -> u32,

        requires
            self.pivot_of(scoring, k, best, frontier) == Some(pivot),
            !enters(
                k,
                best,
                scoring.total(self.range_values(scoring, frontier, pivot.key())),
                pivot,
            ),
            self.is_next(
                frontier,
                pivot.key(),
                self.range_end(frontier, pivot.key()),
                max_offset,
                next,
            ),
            frontier < next,
            frontier <= pivot.key(),
        ensures
            self.any_tally(scoring, k, max_offset, best, frontier) == self.any_tally(
                scoring,
                k,
                max_offset,
                best,
                next,
            ),
    {
        reveal(Source::any_step);
        let end = self.range_end(frontier, pivot.key());
        let other = self.next_of(frontier, pivot.key(), end, max_offset);
        assert(self.is_next(frontier, pivot.key(), end, max_offset, other));
        assert(next == other);
        lemma_within(pivot);
    }

    /// A step of a disjunction's walk moves the cursors behind the pivot to it.
    pub proof fn lemma_any_align<A, S, B, L, M>(
        self,
        scoring: Scoring<A, S, B, L, M>,
        k: nat,
        max_offset: u16,
        best: Seq<Row>,
        frontier: int,
        pivot: Tid,
        i: int,
    ) where
        A: Fn(u32, u32) -> u32,
        S: Fn(usize, u32, u32) -> u32,
        B: Fn(usize, Block) -> u32,
        L: Fn(usize, Block, u32) -> u32,
        M: Fn(usize, Block, u32) -> u32,

        requires
            self.pivot_of(scoring, k, best, frontier) == Some(pivot),
            enters(
                k,
                best,
                scoring.total(self.range_values(scoring, frontier, pivot.key())),
                pivot,
            ),
            0 <= i < self.terms.len(),
            self.in_reach(i, frontier, pivot.key() - 1),
            frontier < pivot.key(),
        ensures
            self.any_tally(scoring, k, max_offset, best, frontier) == self.any_tally(
                scoring,
                k,
                max_offset,
                best,
                pivot.key(),
            ),
    {
        reveal(Source::any_step);
        lemma_within(pivot);
    }

    /// A step of a disjunction's walk looks at the pivot.
    pub proof fn lemma_any_visit<A, S, B, L, M>(
        self,
        scoring: Scoring<A, S, B, L, M>,
        k: nat,
        max_offset: u16,
        best: Seq<Row>,
        frontier: int,
        pivot: Tid,
    ) where
        A: Fn(u32, u32) -> u32,
        S: Fn(usize, u32, u32) -> u32,
        B: Fn(usize, Block) -> u32,
        L: Fn(usize, Block, u32) -> u32,
        M: Fn(usize, Block, u32) -> u32,

        requires
            self.pivot_of(scoring, k, best, frontier) == Some(pivot),
            enters(
                k,
                best,
                scoring.total(self.range_values(scoring, frontier, pivot.key())),
                pivot,
            ),
            forall|i: int|
                0 <= i < self.terms.len() ==> !(#[trigger] self.in_reach(
                    i,
                    frontier,
                    pivot.key() - 1,
                )),
            frontier <= pivot.key(),
        ensures
            self.any_tally(scoring, k, max_offset, best, frontier) == self.visited(
                scoring,
                k,
                best,
                pivot,
                None,
            ).tally.plus(
                self.any_tally(
                    scoring,
                    k,
                    max_offset,
                    self.visited(scoring, k, best, pivot, None).best,
                    pivot.key() + 1,
                ),
            ),
    {
        reveal(Source::any_step);
        lemma_within(pivot);
    }

    /// A disjunction's walk ends where there is no pivot.
    pub proof fn lemma_any_end<A, S, B, L, M>(
        self,
        scoring: Scoring<A, S, B, L, M>,
        k: nat,
        max_offset: u16,
        best: Seq<Row>,
        frontier: int,
    ) where
        A: Fn(u32, u32) -> u32,
        S: Fn(usize, u32, u32) -> u32,
        B: Fn(usize, Block) -> u32,
        L: Fn(usize, Block, u32) -> u32,
        M: Fn(usize, Block, u32) -> u32,

        requires
            self.pivot_of(scoring, k, best, frontier) is None,
        ensures
            self.any_tally(scoring, k, max_offset, best, frontier) == Tally::nothing(),
    {
        reveal(Source::any_step);
    }

    /// The rarest term; the first of those that are equally rare.
    pub open spec fn is_lead(self, lead: int) -> bool {
        &&& 0 <= lead < self.terms.len()
        &&& forall|i: int|
            0 <= i < self.terms.len() && i != lead ==> self.decoded_first(lead, i)
    }

    /// The rarest term.
    pub open spec fn lead(self) -> int {
        choose|lead: int| self.is_lead(lead)
    }

    /// The first term, from the `i`-th on and other than `lead`, that is not at
    /// `pivot`.
    pub open spec fn absent_from(self, lead: int, pivot: Tid, i: int) -> Option<int>
        decreases self.terms.len() - i,
    {
        if i < 0 || i >= self.terms.len() {
            None
        } else if i != lead && self.terms[i].next_at(pivot.key()) != Some(pivot) {
            Some(i)
        } else {
            self.absent_from(lead, pivot, i + 1)
        }
    }

    /// The largest of the shortest lengths in the terms' blocks at `pivot`.
    pub open spec fn is_common_length(self, pivot: int, length: u32) -> bool {
        &&& length == 0 || exists|i: int|
            0 <= i < self.terms.len() && (#[trigger] self.terms[i].block_from(pivot) matches Some(
                block,
            ) && block.shortest == length)
        &&& forall|i: int|
            0 <= i < self.terms.len() ==> (#[trigger] self.terms[i].block_from(pivot) matches Some(
                block,
            ) ==> block.shortest <= length)
    }

    /// A length that no document with all terms, in their blocks at `pivot`, is
    /// shorter than.
    pub open spec fn common_length(self, pivot: int) -> u32 {
        choose|length: u32| self.is_common_length(pivot, length)
    }

    /// The most that each term contributes in its block at `pivot` to a
    /// document with all terms.
    pub open spec fn shared_values<A, S, B, L, M>(
        self,
        scoring: Scoring<A, S, B, L, M>,
        pivot: int,
    ) -> Seq<Option<u32>> where
        A: Fn(u32, u32) -> u32,
        S: Fn(usize, u32, u32) -> u32,
        B: Fn(usize, Block) -> u32,
        L: Fn(usize, Block, u32) -> u32,
        M: Fn(usize, Block, u32) -> u32,
     {
        Seq::new(
            self.terms.len() as nat,
            |i: int|
                Some(
                    scoring.bound_with_min_length(
                        self.terms[i].slot,
                        self.terms[i].block_from(pivot)->0,
                        self.common_length(pivot),
                    ),
                ),
        )
    }

    /// The range at `pivot`, through the end of the nearest block, with the
    /// most that a document with all terms scores there.
    pub open spec fn loaded<A, S, B, L, M>(
        self,
        scoring: Scoring<A, S, B, L, M>,
        pivot: int,
    ) -> (Tid, u32) where
        A: Fn(u32, u32) -> u32,
        S: Fn(usize, u32, u32) -> u32,
        B: Fn(usize, Block) -> u32,
        L: Fn(usize, Block, u32) -> u32,
        M: Fn(usize, Block, u32) -> u32,
     {
        (self.range_end(pivot, pivot), scoring.total(self.shared_values(scoring, pivot)))
    }

    /// The range that `pivot` lies in: the one known, if it spans the pivot.
    pub open spec fn range_at<A, S, B, L, M>(
        self,
        scoring: Scoring<A, S, B, L, M>,
        range: Option<(Tid, u32)>,
        pivot: Tid,
    ) -> (Tid, u32) where
        A: Fn(u32, u32) -> u32,
        S: Fn(usize, u32, u32) -> u32,
        B: Fn(usize, Block) -> u32,
        L: Fn(usize, Block, u32) -> u32,
        M: Fn(usize, Block, u32) -> u32,
     {
        if spanned(range, pivot) {
            range->0
        } else {
            self.loaded(scoring, pivot.key())
        }
    }

    /// A step of a conjunction's walk from `frontier`: none when a term has
    /// nothing left. A range that cannot enter is passed by; where a term is
    /// missing the walk goes on at the next location that it has; and a
    /// location with all terms is looked at.
    #[verifier::opaque]
    pub open spec fn all_step<A, S, B, L, M>(
        self,
        scoring: Scoring<A, S, B, L, M>,
        k: nat,
        max_offset: u16,
        best: Seq<Row>,
        frontier: int,
        range: Option<(Tid, u32)>,
    ) -> Option<Step> where
        A: Fn(u32, u32) -> u32,
        S: Fn(usize, u32, u32) -> u32,
        B: Fn(usize, Block) -> u32,
        L: Fn(usize, Block, u32) -> u32,
        M: Fn(usize, Block, u32) -> u32,
     {
        match self.terms[self.lead()].next_at(frontier) {
            None => None,
            Some(pivot) => if spanned(range, pivot) && !enters(k, best, (range->0).1, pivot) {
                Some(
                    Step {
                        best,
                        frontier: after((range->0).0, max_offset).key(),
                        range,
                        tally: Tally::nothing(),
                    },
                )
            } else {
                match self.absent_from(self.lead(), pivot, 0) {
                    Some(i) => match self.terms[i].next_at(pivot.key()) {
                        Some(found) => Some(
                            Step { best, frontier: found.key(), range, tally: Tally::nothing() },
                        ),
                        None => None,
                    },
                    None => {
                        let (end, bound) = self.range_at(scoring, range, pivot);
                        if !enters(k, best, bound, pivot) {
                            Some(
                                Step {
                                    best,
                                    frontier: after(end, max_offset).key(),
                                    range: Some((end, bound)),
                                    tally: Tally::nothing(),
                                },
                            )
                        } else {
                            Some(self.visited(scoring, k, best, pivot, Some((end, bound))))
                        }
                    },
                }
            },
        }
    }

    /// What a conjunction's walk counts from `frontier` on.
    pub open spec fn all_tally<A, S, B, L, M>(
        self,
        scoring: Scoring<A, S, B, L, M>,
        k: nat,
        max_offset: u16,
        best: Seq<Row>,
        frontier: int,
        range: Option<(Tid, u32)>,
    ) -> Tally where
        A: Fn(u32, u32) -> u32,
        S: Fn(usize, u32, u32) -> u32,
        B: Fn(usize, Block) -> u32,
        L: Fn(usize, Block, u32) -> u32,
        M: Fn(usize, Block, u32) -> u32,

        decreases
            (if frontier < beyond() {
                beyond() - frontier
            } else {
                0
            }),
    {
        match self.all_step(scoring, k, max_offset, best, frontier, range) {
            Some(step) => if frontier < step.frontier && frontier < beyond() {
                step.tally.plus(
                    self.all_tally(
                        scoring,
                        k,
                        max_offset,
                        step.best,
                        step.frontier,
                        step.range,
                    ),
                )
            } else {
                Tally::nothing()
            },
            None => Tally::nothing(),
        }
    }

    /// A conjunction's walk ends where the lead has nothing left.
    pub proof fn lemma_all_end<A, S, B, L, M>(
        self,
        scoring: Scoring<A, S, B, L, M>,
        k: nat,
        max_offset: u16,
        best: Seq<Row>,
        frontier: int,
        range: Option<(Tid, u32)>,
    ) where
        A: Fn(u32, u32) -> u32,
        S: Fn(usize, u32, u32) -> u32,
        B: Fn(usize, Block) -> u32,
        L: Fn(usize, Block, u32) -> u32,
        M: Fn(usize, Block, u32) -> u32,

        requires
            self.terms[self.lead()].next_at(frontier) is None,
        ensures
            self.all_tally(scoring, k, max_offset, best, frontier, range) == Tally::nothing(),
    {
        reveal(Source::all_step);
    }

    /// A step of a conjunction's walk passes a known range by.
    pub proof fn lemma_all_pass<A, S, B, L, M>(
        self,
        scoring: Scoring<A, S, B, L, M>,
        k: nat,
        max_offset: u16,
        best: Seq<Row>,
        frontier: int,
        range: Option<(Tid, u32)>,
        pivot: Tid,
    ) where
        A: Fn(u32, u32) -> u32,
        S: Fn(usize, u32, u32) -> u32,
        B: Fn(usize, Block) -> u32,
        L: Fn(usize, Block, u32) -> u32,
        M: Fn(usize, Block, u32) -> u32,

        requires
            self.terms[self.lead()].next_at(frontier) == Some(pivot),
            spanned(range, pivot),
            !enters(k, best, (range->0).1, pivot),
            frontier < after((range->0).0, max_offset).key(),
            frontier <= pivot.key(),
        ensures
            self.all_tally(scoring, k, max_offset, best, frontier, range) == self.all_tally(
                scoring,
                k,
                max_offset,
                best,
                after((range->0).0, max_offset).key(),
                range,
            ),
    {
        reveal(Source::all_step);
        lemma_within(pivot);
    }

    /// A step of a conjunction's walk finds a term missing: the walk ends, or
    /// goes on at the next location of that term.
    pub proof fn lemma_all_absent<A, S, B, L, M>(
        self,
        scoring: Scoring<A, S, B, L, M>,
        k: nat,
        max_offset: u16,
        best: Seq<Row>,
        frontier: int,
        range: Option<(Tid, u32)>,
        pivot: Tid,
        i: int,
    ) where
        A: Fn(u32, u32) -> u32,
        S: Fn(usize, u32, u32) -> u32,
        B: Fn(usize, Block) -> u32,
        L: Fn(usize, Block, u32) -> u32,
        M: Fn(usize, Block, u32) -> u32,

        requires
            self.terms[self.lead()].next_at(frontier) == Some(pivot),
            !(spanned(range, pivot) && !enters(k, best, (range->0).1, pivot)),
            self.absent_from(self.lead(), pivot, 0) == Some(i),
            frontier <= pivot.key(),
        ensures
            self.terms[i].next_at(pivot.key()) is None ==> self.all_tally(
                scoring,
                k,
                max_offset,
                best,
                frontier,
                range,
            ) == Tally::nothing(),
            self.terms[i].next_at(pivot.key()) matches Some(found) ==> frontier < found.key()
                ==> self.all_tally(scoring, k, max_offset, best, frontier, range)
                == self.all_tally(scoring, k, max_offset, best, found.key(), range),
    {
        reveal(Source::all_step);
        lemma_within(pivot);
    }

    /// A step of a conjunction's walk at a location with all terms.
    pub proof fn lemma_all_present<A, S, B, L, M>(
        self,
        scoring: Scoring<A, S, B, L, M>,
        k: nat,
        max_offset: u16,
        best: Seq<Row>,
        frontier: int,
        range: Option<(Tid, u32)>,
        pivot: Tid,
    ) where
        A: Fn(u32, u32) -> u32,
        S: Fn(usize, u32, u32) -> u32,
        B: Fn(usize, Block) -> u32,
        L: Fn(usize, Block, u32) -> u32,
        M: Fn(usize, Block, u32) -> u32,

        requires
            self.terms[self.lead()].next_at(frontier) == Some(pivot),
            !(spanned(range, pivot) && !enters(k, best, (range->0).1, pivot)),
            self.absent_from(self.lead(), pivot, 0) is None,
            frontier <= pivot.key(),
        ensures
            ({
                let (end, bound) = self.range_at(scoring, range, pivot);
                let next = after(end, max_offset).key();
                let step = self.visited(scoring, k, best, pivot, Some((end, bound)));
                &&& !enters(k, best, bound, pivot) && frontier < next ==> self.all_tally(
                    scoring,
                    k,
                    max_offset,
                    best,
                    frontier,
                    range,
                ) == self.all_tally(scoring, k, max_offset, best, next, Some((end, bound)))
                &&& enters(k, best, bound, pivot) ==> self.all_tally(
                    scoring,
                    k,
                    max_offset,
                    best,
                    frontier,
                    range,
                ) == step.tally.plus(
                    self.all_tally(
                        scoring,
                        k,
                        max_offset,
                        step.best,
                        pivot.key() + 1,
                        Some((end, bound)),
                    ),
                )
            }),
    {
        reveal(Source::all_step);
        lemma_within(pivot);
    }

    pub proof fn lemma_lead(self, lead: int)
        requires
            self.is_lead(lead),
        ensures
            self.lead() == lead,
    {
        let other = self.lead();
        assert(self.is_lead(other));
        if other != lead {
            assert(self.decoded_first(lead, other));
            assert(self.decoded_first(other, lead));
        }
    }

    /// `end` is the nearest end, and `length` the largest shortest length, of
    /// the blocks at `pivot` of the first `upto` terms.
    #[verifier::opaque]
    pub open spec fn spans(self, pivot: int, upto: int, end: Tid, length: u32) -> bool {
        &&& forall|i: int|
            0 <= i < upto ==> (#[trigger] self.terms[i].block_from(pivot) matches Some(block)
                && end.key() <= block.last.key() && block.shortest <= length)
        &&& upto > 0 ==> exists|i: int|
            0 <= i < upto && (#[trigger] self.terms[i].block_from(pivot)->0).last == end
        &&& length == 0 || exists|i: int|
            0 <= i < upto && (#[trigger] self.terms[i].block_from(pivot)->0).shortest == length
    }

    pub proof fn lemma_spans_start(self, pivot: int, end: Tid)
        ensures
            self.spans(pivot, 0, end, 0),
    {
        reveal(Source::spans);
    }

    pub proof fn lemma_spans_push(
        self,
        pivot: int,
        upto: int,
        end: Tid,
        length: u32,
        block: Block,
    )
        requires
            0 <= upto < self.terms.len(),
            self.spans(pivot, upto, end, length),
            self.terms[upto].block_from(pivot) == Some(block),
        ensures
            self.spans(
                pivot,
                upto + 1,
                if upto == 0 || block.last.key() < end.key() {
                    block.last
                } else {
                    end
                },
                if block.shortest > length {
                    block.shortest
                } else {
                    length
                },
            ),
    {
        reveal(Source::spans);
        assert(self.terms[upto].block_from(pivot) is Some);
        if upto > 0 {
            let i = choose|i: int|
                0 <= i < upto && (#[trigger] self.terms[i].block_from(pivot)->0).last == end;
            assert(self.terms[i].block_from(pivot) is Some);
        }
        if length != 0 {
            let i = choose|i: int|
                0 <= i < upto && (#[trigger] self.terms[i].block_from(pivot)->0).shortest == length;
            assert(self.terms[i].block_from(pivot) is Some);
        }
    }

    pub proof fn lemma_loaded<A, S, B, L, M>(
        self,
        scoring: Scoring<A, S, B, L, M>,
        pivot: Tid,
        end: Tid,
        length: u32,
        values: Seq<Option<u32>>,
    ) where
        A: Fn(u32, u32) -> u32,
        S: Fn(usize, u32, u32) -> u32,
        B: Fn(usize, Block) -> u32,
        L: Fn(usize, Block, u32) -> u32,
        M: Fn(usize, Block, u32) -> u32,

        requires
            self.terms.len() > 0,
            self.spans(pivot.key(), self.terms.len() as int, end, length),
            forall|i: int|
                0 <= i < self.terms.len() ==> #[trigger] self.terms[i].next_at(pivot.key()) == Some(
                    pivot,
                ),
            values.len() == self.terms.len(),
            forall|i: int|
                0 <= i < values.len() ==> #[trigger] values[i] == Some(
                    scoring.bound_with_min_length(
                        self.terms[i].slot,
                        self.terms[i].block_from(pivot.key())->0,
                        length,
                    ),
                ),
        ensures
            (end, scoring.total(values)) == self.loaded(scoring, pivot.key()),
    {
        reveal(Source::spans);
        let key = pivot.key();
        let n = self.terms.len() as int;
        let near = choose|i: int|
            0 <= i < n && (#[trigger] self.terms[i].block_from(key)->0).last == end;
        assert(self.terms[near].block_from(key) is Some);
        assert(self.terms[near].next_at(key) == Some(pivot));
        assert forall|i: int| 0 <= i < n && self.in_reach(i, key, key) implies (
        #[trigger] self.terms[i].block_from(key) matches Some(block) ==> end.key()
            <= block.last.key()) by {}
        self.lemma_range_end(key, key, end);
        if length != 0 {
            let i = choose|i: int|
                0 <= i < n && (#[trigger] self.terms[i].block_from(key)->0).shortest == length;
            assert(self.terms[i].block_from(key) is Some);
        }
        assert(self.is_common_length(key, length));
        let other = self.common_length(key);
        assert(self.is_common_length(key, other));
        if other != 0 {
            let i = choose|i: int|
                0 <= i < n && (#[trigger] self.terms[i].block_from(key) matches Some(block)
                    && block.shortest == other);
            assert(self.terms[i].block_from(key) is Some);
        }
        assert(other <= length);
        if length != 0 {
            let i = choose|i: int|
                0 <= i < n && (#[trigger] self.terms[i].block_from(key)->0).shortest == length;
            assert(self.terms[i].block_from(key) is Some);
        }
        assert(length <= other);
        assert(values =~= self.shared_values(scoring, key));
    }

    /// What the walk of the source counts.
    pub open spec fn tally<A, S, B, L, M>(
        self,
        scoring: Scoring<A, S, B, L, M>,
        combine: Combine,
        k: nat,
        max_offset: u16,
        best: Seq<Row>,
    ) -> Tally where
        A: Fn(u32, u32) -> u32,
        S: Fn(usize, u32, u32) -> u32,
        B: Fn(usize, Block) -> u32,
        L: Fn(usize, Block, u32) -> u32,
        M: Fn(usize, Block, u32) -> u32,
     {
        match combine {
            Combine::Any => self.any_tally(scoring, k, max_offset, best, 0),
            Combine::All => self.all_tally(scoring, k, max_offset, best, 0, None),
        }
    }
}

} // verus!
