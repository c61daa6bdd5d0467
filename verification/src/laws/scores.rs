//! Which score a row has.

use crate::laws::setup::{is_live, law_the_first_live_source_scores};
use crate::scorer::{document_at, KnownScores};
use crate::scoring::{Block, Scoring};
use crate::tid::Tid;
use crate::top_k::PrunedScan;
use vstd::prelude::*;

verus! {

/// The score at a location: the one that is known, else that of the document which
/// the first live source has there.
pub open spec fn has_score<A, S, B, L, M>(
    scan: PrunedScan,
    scoring: Scoring<A, S, B, L, M>,
    known: KnownScores,
    tid: Tid,
    score: u32,
) -> bool where
    A: Fn(u32, u32) -> u32,
    S: Fn(usize, u32, u32) -> u32,
    B: Fn(usize, Block) -> u32,
    L: Fn(usize, Block, u32) -> u32,
    M: Fn(usize, Block, u32) -> u32,
 {
    ||| known.at(tid) == Some(score)
    ||| known.at(tid) is None && exists|x: int|
        #![trigger scan.sources@[x]]
        0 <= x < scan.sources@.len() && is_live(scan.sources@[x], tid) && score
            == scan.sources@[x].score_of(scoring, document_at(scan.sources@[x], tid)) && forall|
            y: int,
        |
            0 <= y < x ==> !is_live(#[trigger] scan.sources@[y], tid)
}

/// There is no score at a location that is not known and that no source has live.
pub open spec fn has_no_score(scan: PrunedScan, known: KnownScores, tid: Tid) -> bool {
    known.at(tid) is None && forall|x: int|
        0 <= x < scan.sources@.len() ==> !is_live(#[trigger] scan.sources@[x], tid)
}

proof fn lemma_first_live(scan: PrunedScan, tid: Tid, i: int) -> (x: int)
    requires
        0 <= i <= scan.sources@.len(),
    ensures
        i <= x <= scan.sources@.len(),
        forall|y: int| i <= y < x ==> !is_live(#[trigger] scan.sources@[y], tid),
        x < scan.sources@.len() ==> is_live(scan.sources@[x], tid),
    decreases scan.sources@.len() - i,
{
    if i < scan.sources@.len() && !is_live(scan.sources@[i], tid) {
        lemma_first_live(scan, tid, i + 1)
    } else {
        i
    }
}

proof fn lemma_score_here<A, S, B, L, M>(
    scan: PrunedScan,
    scoring: Scoring<A, S, B, L, M>,
    known: KnownScores,
    tid: Tid,
) where
    A: Fn(u32, u32) -> u32,
    S: Fn(usize, u32, u32) -> u32,
    B: Fn(usize, Block) -> u32,
    L: Fn(usize, Block, u32) -> u32,
    M: Fn(usize, Block, u32) -> u32,

    ensures
        match scan.score_here(scoring, known, tid) {
            Some(score) => has_score(scan, scoring, known, tid, score),
            None => has_no_score(scan, known, tid),
        },
{
    let x = lemma_first_live(scan, tid, 0);
    law_the_first_live_source_scores(scan.sources@, scoring, tid, 0, x);
    if x < scan.sources@.len() {
        assert(is_live(scan.sources@[x], tid));
    }
}

/// A row has the score at its own location; where there is none, the one at the
/// root of its chain; and where there is none either, zero.
pub proof fn law_a_row_has_its_own_score_or_its_roots<A, S, B, L, M>(
    scan: PrunedScan,
    scoring: Scoring<A, S, B, L, M>,
    known: KnownScores,
    tid: Tid,
    root: Tid,
) where
    A: Fn(u32, u32) -> u32,
    S: Fn(usize, u32, u32) -> u32,
    B: Fn(usize, Block) -> u32,
    L: Fn(usize, Block, u32) -> u32,
    M: Fn(usize, Block, u32) -> u32,

    ensures
        ({
            let score = scan.score_at(scoring, known, tid, root);
            ||| has_score(scan, scoring, known, tid, score)
            ||| has_no_score(scan, known, tid) && has_score(scan, scoring, known, root, score)
            ||| has_no_score(scan, known, tid) && has_no_score(scan, known, root) && score == 0
        }),
        scan.score_here(scoring, known, tid) is None <==> has_no_score(scan, known, tid),
{
    lemma_score_here(scan, scoring, known, tid);
    lemma_score_here(scan, scoring, known, root);
    let x = lemma_first_live(scan, tid, 0);
    law_the_first_live_source_scores(scan.sources@, scoring, tid, 0, x);
}

/// The largest score of the rows that match is the score of one of them, or zero,
/// and none of them has a larger one.
pub proof fn law_the_largest_score_of_the_matches<A, S, B, L, M>(
    scan: PrunedScan,
    scoring: Scoring<A, S, B, L, M>,
    known: KnownScores,
    tids: Seq<Tid>,
    roots: Seq<Tid>,
    upto: int,
) where
    A: Fn(u32, u32) -> u32,
    S: Fn(usize, u32, u32) -> u32,
    B: Fn(usize, Block) -> u32,
    L: Fn(usize, Block, u32) -> u32,
    M: Fn(usize, Block, u32) -> u32,

    requires
        0 <= upto <= tids.len() == roots.len(),
        forall|i: int|
            #![trigger tids[i]]
            0 <= i < tids.len() ==> {
                let score = scan.score_at(scoring, known, tids[i], roots[i]);
                score <= 0x7f80_0000
            },
    ensures
        ({
            let max = scan.largest_upto(scoring, known, tids, roots, upto);
            &&& max == 0 || exists|i: int|
                #![trigger tids[i]]
                0 <= i < upto && scan.score_at(scoring, known, tids[i], roots[i]) == max
            &&& forall|i: int|
                #![trigger tids[i]]
                0 <= i < upto ==> scan.score_at(scoring, known, tids[i], roots[i]) <= max
        }),
    decreases upto,
{
    if upto > 0 {
        law_the_largest_score_of_the_matches(scan, scoring, known, tids, roots, upto - 1);
        assert(tids[upto - 1] == tids[upto - 1]);
    }
}

} // verus!
