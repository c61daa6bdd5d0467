//! One source of an index, as a ranked scan reads it: the documents it
//! lists, and the postings of each scoring term.

use crate::ranking::{enters, offered, offered_all, Row};
use crate::scoring::{Block, Scoring};
use crate::tid::Tid;
use vstd::prelude::*;

verus! {

/// A document of a source.
#[derive(Clone, Copy, Debug, PartialEq, Eq, Structural)]
pub struct Document {
    pub tid: Tid,
    /// The document's length; on a field-aware source, the bit pattern of its
    /// weighted length.
    pub length: u32,
}

/// One occurrence of a term in a document.
#[derive(Clone, Copy, Debug, PartialEq, Eq, Structural)]
pub struct Posting {
    pub tid: Tid,
    /// The bucket of the term's frequency in the document; on a field-aware
    /// source, the place of its entry for each field.
    pub frequency: u32,
}

/// A scoring term's postings in one source.
#[derive(Debug)]
pub struct TermPostings {
    /// Index into the scoring terms.
    pub slot: usize,
    /// In heap order.
    pub postings: Vec<Posting>,
    /// Runs of postings, in heap order; empty when the source carries no
    /// block bounds.
    pub blocks: Vec<Block>,
    /// All blocks merged into one.
    pub whole: Block,
    /// Postings in this source; the rarest term drives a conjunction.
    pub count: u32,
}

/// One source of an index.
#[derive(Debug)]
pub struct Source {
    /// In heap order.
    pub documents: Vec<Document>,
    /// The scoring terms the source holds, in slot order.
    pub terms: Vec<TermPostings>,
    /// Locations the source lists that are deleted.
    pub dead: Vec<Tid>,
}

/// How a query's leaf terms combine into its candidate set.
#[derive(Clone, Copy, Debug, PartialEq, Eq, Structural)]
pub enum Combine {
    /// Every term must be present: a conjunction.
    All,
    /// Any term suffices: a disjunction or a single term.
    Any,
}

/// Documents in heap order, each location once.
pub open spec fn documents_ordered(documents: Seq<Document>) -> bool {
    forall|i: int, j: int|
        0 <= i < j < documents.len() ==> (#[trigger] documents[i]).tid.key() < (
        #[trigger] documents[j]).tid.key()
}

/// The number of documents located before `frontier`.
pub open spec fn split(documents: Seq<Document>, frontier: int) -> nat
    decreases documents.len(),
{
    if documents.len() == 0 {
        0
    } else if documents.last().tid.key() < frontier {
        documents.len()
    } else {
        split(documents.drop_last(), frontier)
    }
}

pub proof fn lemma_split(documents: Seq<Document>, frontier: int)
    requires
        documents_ordered(documents),
    ensures
        split(documents, frontier) <= documents.len(),
        forall|j: int|
            0 <= j < documents.len() ==> (#[trigger] documents[j].tid.key() < frontier <==> j
                < split(documents, frontier)),
    decreases documents.len(),
{
    if documents.len() > 0 {
        if documents.last().tid.key() < frontier {
            assert forall|j: int| 0 <= j < documents.len() implies #[trigger] documents[j].tid.key()
                < frontier by {
                if j < documents.len() - 1 {
                    assert(documents[j].tid.key() < documents[documents.len() - 1].tid.key());
                }
            }
        } else {
            let rest = documents.drop_last();
            lemma_split(rest, frontier);
            assert forall|j: int| 0 <= j < documents.len() implies (#[trigger] documents[j].tid.key()
                < frontier <==> j < split(documents, frontier)) by {
                if j < documents.len() - 1 {
                    assert(rest[j] == documents[j]);
                }
            }
        }
    }
}

/// `block` is the run holding the posting at `key`: the first that ends
/// there or later.
pub open spec fn holds(blocks: Seq<Block>, block: int, key: int) -> bool {
    &&& 0 <= block < blocks.len()
    &&& key <= blocks[block].last.key()
    &&& block > 0 ==> blocks[block - 1].last.key() < key
}

impl TermPostings {
    /// Postings and blocks are in heap order, and the blocks reach the end.
    #[verifier::opaque]
    pub open spec fn ordered(self, max_offset: u16) -> bool {
        &&& forall|i: int, j: int|
            0 <= i < j < self.postings.len() ==> (#[trigger] self.postings[i]).tid.key() < (
            #[trigger] self.postings[j]).tid.key()
        &&& forall|i: int, j: int|
            0 <= i < j < self.blocks.len() ==> (#[trigger] self.blocks[i]).last.key() < (
            #[trigger] self.blocks[j]).last.key()
        &&& forall|i: int|
            0 <= i < self.postings.len() ==> (#[trigger] self.postings[i]).tid.valid(max_offset)
        &&& forall|i: int|
            0 <= i < self.blocks.len() ==> (#[trigger] self.blocks[i]).last.valid(max_offset)
        &&& self.postings.len() > 0 && self.blocks.len() > 0 ==> self.postings@.last().tid.key()
            <= self.blocks@.last().last.key()
    }

    /// The posting at `tid`, if there is one.
    pub open spec fn posting_at(self, tid: Tid) -> Option<Posting> {
        if exists|q: int| 0 <= q < self.postings.len() && #[trigger] self.postings[q].tid == tid {
            let q = choose|q: int|
                0 <= q < self.postings.len() && #[trigger] self.postings[q].tid == tid;
            Some(self.postings[q])
        } else {
            None
        }
    }

    pub proof fn lemma_posting_at(self, max_offset: u16, q: int)
        requires
            self.ordered(max_offset),
            0 <= q < self.postings.len(),
        ensures
            self.posting_at(self.postings[q].tid) == Some(self.postings[q]),
    {
        reveal(TermPostings::ordered);
        let tid = self.postings[q].tid;
        assert(self.postings[q].tid == tid);
        let r = choose|r: int|
            0 <= r < self.postings.len() && #[trigger] self.postings[r].tid == tid;
        if r < q {
            assert(self.postings[r].tid.key() < self.postings[q].tid.key());
        } else if q < r {
            assert(self.postings[q].tid.key() < self.postings[r].tid.key());
        }
    }
}

impl Source {
    /// What each term contributes to the document at `tid`, of `length`.
    pub open spec fn contributions<A, S, B, L, M>(
        self,
        scoring: Scoring<A, S, B, L, M>,
        tid: Tid,
        length: u32,
    ) -> Seq<Option<u32>> where
        A: Fn(u32, u32) -> u32,
        S: Fn(usize, u32, u32) -> u32,
        B: Fn(usize, Block) -> u32,
        L: Fn(usize, Block, u32) -> u32,
        M: Fn(usize, Block, u32) -> u32,
     {
        Seq::new(
            self.terms.len() as nat,
            |i: int|
                match self.terms[i].posting_at(tid) {
                    Some(posting) => Some(
                        scoring.contribution(self.terms[i].slot, posting.frequency, length),
                    ),
                    None => None,
                },
        )
    }

    /// The score of `document`: the sum, in term order, of what the terms
    /// present in it contribute.
    pub open spec fn score_of<A, S, B, L, M>(
        self,
        scoring: Scoring<A, S, B, L, M>,
        document: Document,
    ) -> u32 where
        A: Fn(u32, u32) -> u32,
        S: Fn(usize, u32, u32) -> u32,
        B: Fn(usize, Block) -> u32,
        L: Fn(usize, Block, u32) -> u32,
        M: Fn(usize, Block, u32) -> u32,
     {
        scoring.total(self.contributions(scoring, document.tid, document.length))
    }

    /// Whether the terms of the source select the document at `tid`.
    pub open spec fn selects(self, combine: Combine, tid: Tid) -> bool {
        match combine {
            Combine::All => forall|i: int|
                0 <= i < self.terms.len() ==> #[trigger] self.terms[i].posting_at(tid) is Some,
            Combine::Any => exists|i: int|
                0 <= i < self.terms.len() && #[trigger] self.terms[i].posting_at(tid) is Some,
        }
    }

    /// Whether the document at `tid` is live and selected.
    pub open spec fn is_candidate(self, combine: Combine, tid: Tid) -> bool {
        !self.dead@.contains(tid) && self.selects(combine, tid)
    }

    /// The scored candidates among the first `upto` documents, in heap order.
    pub open spec fn candidates<A, S, B, L, M>(
        self,
        scoring: Scoring<A, S, B, L, M>,
        combine: Combine,
        upto: nat,
    ) -> Seq<Row> where
        A: Fn(u32, u32) -> u32,
        S: Fn(usize, u32, u32) -> u32,
        B: Fn(usize, Block) -> u32,
        L: Fn(usize, Block, u32) -> u32,
        M: Fn(usize, Block, u32) -> u32,

        decreases upto,
    {
        if upto == 0 || upto > self.documents.len() {
            Seq::empty()
        } else {
            let before = self.candidates(scoring, combine, (upto - 1) as nat);
            let document = self.documents[upto - 1];
            if self.is_candidate(combine, document.tid) {
                before.push(Row { score: self.score_of(scoring, document), tid: document.tid })
            } else {
                before
            }
        }
    }

    /// What the block bounds say of the posting `q` of term `i`, which block
    /// `b` holds and whose document has `length`.
    pub open spec fn bounded<A, S, B, L, M>(
        self,
        scoring: Scoring<A, S, B, L, M>,
        i: int,
        q: int,
        b: int,
        length: u32,
    ) -> bool where
        A: Fn(u32, u32) -> u32,
        S: Fn(usize, u32, u32) -> u32,
        B: Fn(usize, Block) -> u32,
        L: Fn(usize, Block, u32) -> u32,
        M: Fn(usize, Block, u32) -> u32,
     {
        let term = self.terms[i];
        let value = scoring.contribution(term.slot, term.postings[q].frequency, length);
        &&& value <= scoring.block_bound(term.slot, term.blocks[b])
        &&& value <= scoring.block_bound(term.slot, term.whole)
        &&& value <= scoring.bound_for_length(term.slot, term.blocks[b], length)
        &&& term.blocks[b].shortest <= length
        &&& forall|m: u32|
            m <= length ==> value <= #[trigger] scoring.bound_with_min_length(
                term.slot,
                term.blocks[b],
                m,
            )
    }

    /// Documents and postings are in heap order, and every posting is of a
    /// listed document.
    pub open spec fn ordered(self, max_offset: u16) -> bool {
        &&& documents_ordered(self.documents@)
        &&& forall|d: int|
            0 <= d < self.documents.len() ==> (#[trigger] self.documents[d]).tid.valid(max_offset)
        &&& forall|i: int| 0 <= i < self.terms.len() ==> (#[trigger] self.terms[i]).ordered(max_offset)
        &&& self.postings_listed()
    }

    /// Every posting is of a listed document.
    #[verifier::opaque]
    pub open spec fn postings_listed(self) -> bool {
        forall|i: int, q: int|
            0 <= i < self.terms.len() && 0 <= q < self.terms[i].postings.len() ==> exists|d: int|
                0 <= d < self.documents.len() && #[trigger] self.documents[d].tid == (
                #[trigger] self.terms[i].postings[q]).tid
    }

    /// The block bounds of the source hold, and every term has some.
    #[verifier::opaque]
    pub open spec fn bounds_hold<A, S, B, L, M>(self, scoring: Scoring<A, S, B, L, M>) -> bool where
        A: Fn(u32, u32) -> u32,
        S: Fn(usize, u32, u32) -> u32,
        B: Fn(usize, Block) -> u32,
        L: Fn(usize, Block, u32) -> u32,
        M: Fn(usize, Block, u32) -> u32,
     {
        forall|i: int, q: int, b: int, d: int|
            #![trigger self.terms[i].postings[q], self.terms[i].blocks[b], self.documents[d]]
            0 <= i < self.terms.len() && 0 <= q < self.terms[i].postings.len() && 0 <= d
                < self.documents.len() && self.documents[d].tid == self.terms[i].postings[q].tid
                && holds(self.terms[i].blocks@, b, self.documents[d].tid.key()) ==> self.bounded(
                scoring,
                i,
                q,
                b,
                self.documents[d].length,
            )
    }

    /// Candidates that cannot enter leave the best rows as they are.
    pub proof fn lemma_skip<A, S, B, L, M>(
        self,
        scoring: Scoring<A, S, B, L, M>,
        combine: Combine,
        k: nat,
        first: Seq<Row>,
        best: Seq<Row>,
        from: nat,
        upto: nat,
    ) where
        A: Fn(u32, u32) -> u32,
        S: Fn(usize, u32, u32) -> u32,
        B: Fn(usize, Block) -> u32,
        L: Fn(usize, Block, u32) -> u32,
        M: Fn(usize, Block, u32) -> u32,

        requires
            from <= upto <= self.documents.len(),
            best == offered_all(k, first, self.candidates(scoring, combine, from)),
            forall|d: int|
                from <= d < upto && self.is_candidate(combine, (#[trigger] self.documents[d]).tid)
                    ==> !enters(
                    k,
                    best,
                    self.score_of(scoring, self.documents[d]),
                    self.documents[d].tid,
                ),
        ensures
            best == offered_all(k, first, self.candidates(scoring, combine, upto)),
        decreases upto - from,
    {
        if from < upto {
            self.lemma_skip(scoring, combine, k, first, best, from, (upto - 1) as nat);
            let before = self.candidates(scoring, combine, (upto - 1) as nat);
            let document = self.documents[upto - 1];
            if self.is_candidate(combine, document.tid) {
                let row = Row { score: self.score_of(scoring, document), tid: document.tid };
                assert(before.push(row).drop_last() =~= before);
                assert(offered(k, best, row) == best);
            }
        }
    }

    /// Whether `tid` is among the deleted locations.
    pub fn is_dead(&self, tid: Tid) -> (dead: bool)
        ensures
            dead == self.dead@.contains(tid),
    {
        let mut i: usize = 0;
        while i < self.dead.len()
            invariant
                i <= self.dead.len(),
                forall|j: int| 0 <= j < i ==> self.dead[j] != tid,
            decreases self.dead.len() - i,
        {
            if self.dead[i] == tid {
                return true;
            }
            i = i + 1;
        }
        false
    }

    /// The place of the document at `tid` in the source.
    pub fn ordinal(&self, tid: Tid) -> (ordinal: Option<usize>)
        ensures
            match ordinal {
                Some(d) => d < self.documents.len() && self.documents[d as int].tid == tid,
                None => forall|d: int|
                    0 <= d < self.documents.len() ==> self.documents[d].tid != tid,
            },
    {
        let mut i: usize = 0;
        while i < self.documents.len()
            invariant
                i <= self.documents.len(),
                forall|j: int| 0 <= j < i ==> self.documents[j].tid != tid,
            decreases self.documents.len() - i,
        {
            if self.documents[i].tid == tid {
                return Some(i);
            }
            i = i + 1;
        }
        None
    }
}

} // verus!
