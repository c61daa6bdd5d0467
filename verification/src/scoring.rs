//! The score arithmetic that ranked scans run on.
//!
//! Scores are floating-point numbers, and what a term contributes to one is
//! computed outside this library. It is reached through the functions that a
//! [`Scoring`] carries, over bit patterns; see [`crate::ranking`].

use crate::ranking::is_score;
use crate::tid::Tid;
use vstd::prelude::*;

verus! {

/// What is known of a run of postings without decoding them.
#[derive(Clone, Copy, Debug, PartialEq, Eq, Structural)]
pub struct Block {
    /// The last posting of the run.
    pub last: Tid,
    /// The length of the shortest document in the run.
    pub shortest: u32,
    /// Names the run's frequency summary to the functions that bound it.
    pub summary: u64,
}

/// How scores are added, and what each scoring term contributes.
///
/// A term is named by its slot, its place among the scoring terms.
pub struct Scoring<A, S, B, L, M> {
    /// The sum of two scores.
    pub plus: A,
    /// What a term contributes to a document, from the term's frequency there
    /// and the document's length.
    pub exact: S,
    /// The most a term contributes to any document of a block.
    pub bound: B,
    /// The most a term contributes to a document of a block that has the
    /// given length.
    pub at_length: L,
    /// The most a term contributes to a document of a block that has at
    /// least the given length.
    pub from_length: M,
}

impl<A, S, B, L, M> Scoring<A, S, B, L, M> where
    A: Fn(u32, u32) -> u32,
    S: Fn(usize, u32, u32) -> u32,
    B: Fn(usize, Block) -> u32,
    L: Fn(usize, Block, u32) -> u32,
    M: Fn(usize, Block, u32) -> u32,
 {
    /// The sum of two scores.
    pub open spec fn sum(self, a: u32, b: u32) -> u32 {
        choose|c: u32| call_ensures(self.plus, (a, b), c)
    }

    /// What the term at `slot` contributes to a document.
    pub open spec fn contribution(self, slot: usize, frequency: u32, length: u32) -> u32 {
        choose|c: u32| call_ensures(self.exact, (slot, frequency, length), c)
    }

    /// The most the term at `slot` contributes within `block`.
    pub open spec fn block_bound(self, slot: usize, block: Block) -> u32 {
        choose|c: u32| call_ensures(self.bound, (slot, block), c)
    }

    /// The most the term at `slot` contributes within `block` at `length`.
    pub open spec fn bound_for_length(self, slot: usize, block: Block, length: u32) -> u32 {
        choose|c: u32| call_ensures(self.at_length, (slot, block, length), c)
    }

    /// The most the term at `slot` contributes within `block` to a document
    /// no shorter than `length`.
    pub open spec fn bound_with_min_length(self, slot: usize, block: Block, length: u32) -> u32 {
        choose|c: u32| call_ensures(self.from_length, (slot, block, length), c)
    }

    /// The functions can be called on anything and always answer alike.
    pub open spec fn deterministic(self) -> bool {
        &&& forall|a: u32, b: u32| #[trigger] call_requires(self.plus, (a, b))
        &&& forall|a: u32, b: u32, c: u32| #[trigger]
            call_ensures(self.plus, (a, b), c) ==> c == self.sum(a, b)
        &&& forall|i: usize, t: u32, n: u32| #[trigger] call_requires(self.exact, (i, t, n))
        &&& forall|i: usize, t: u32, n: u32, c: u32| #[trigger]
            call_ensures(self.exact, (i, t, n), c) ==> c == self.contribution(i, t, n)
        &&& forall|i: usize, b: Block| #[trigger] call_requires(self.bound, (i, b))
        &&& forall|i: usize, b: Block, c: u32| #[trigger]
            call_ensures(self.bound, (i, b), c) ==> c == self.block_bound(i, b)
        &&& forall|i: usize, b: Block, n: u32| #[trigger] call_requires(self.at_length, (i, b, n))
        &&& forall|i: usize, b: Block, n: u32, c: u32| #[trigger]
            call_ensures(self.at_length, (i, b, n), c) ==> c == self.bound_for_length(i, b, n)
        &&& forall|i: usize, b: Block, n: u32| #[trigger] call_requires(self.from_length, (i, b, n))
        &&& forall|i: usize, b: Block, n: u32, c: u32| #[trigger]
            call_ensures(self.from_length, (i, b, n), c) ==> c == self.bound_with_min_length(
                i,
                b,
                n,
            )
    }

    /// Contributions and bounds are scores; adding zero changes nothing, and
    /// larger summands do not make a smaller sum. Rounded addition of
    /// non-negative numbers is of this kind.
    #[verifier::opaque]
    pub open spec fn sound(self) -> bool {
        &&& forall|a: u32, b: u32|
            is_score(a) && is_score(b) ==> is_score(#[trigger] self.sum(a, b))
        &&& forall|a: u32| is_score(a) ==> #[trigger] self.sum(a, 0) == a
        &&& forall|a: u32, b: u32, c: u32, d: u32|
            is_score(c) && is_score(d) && a <= c && b <= d ==> #[trigger] self.sum(a, b)
                <= #[trigger] self.sum(c, d)
        &&& forall|i: usize, t: u32, n: u32| is_score(#[trigger] self.contribution(i, t, n))
        &&& forall|i: usize, b: Block| is_score(#[trigger] self.block_bound(i, b))
        &&& forall|i: usize, b: Block, n: u32| is_score(#[trigger] self.bound_for_length(i, b, n))
        &&& forall|i: usize, b: Block, n: u32|
            is_score(#[trigger] self.bound_with_min_length(i, b, n))
    }

    /// The sum, left to right, of the values that are there.
    pub open spec fn total(self, values: Seq<Option<u32>>) -> u32
        decreases values.len(),
    {
        if values.len() == 0 {
            0
        } else {
            match values.last() {
                Some(value) => self.sum(self.total(values.drop_last()), value),
                None => self.total(values.drop_last()),
            }
        }
    }

    /// Sums the values that are there in term order, as the score itself is
    /// summed, so rounding cannot put a sum of bounds below a score it covers.
    pub fn fold(&self, values: &Vec<Option<u32>>) -> (total: u32)
        requires
            self.deterministic(),
        ensures
            total == self.total(values@),
    {
        let mut total: u32 = 0;
        let mut i: usize = 0;
        while i < values.len()
            invariant
                self.deterministic(),
                i <= values.len(),
                total == self.total(values@.take(i as int)),
            decreases values.len() - i,
        {
            proof {
                assert(values@.take(i + 1).drop_last() =~= values@.take(i as int));
            }
            if let Some(value) = values[i] {
                total = (self.plus)(total, value);
            }
            i = i + 1;
        }
        proof {
            assert(values@.take(i as int) =~= values@);
        }
        total
    }
}

/// `upper` has a value wherever `lower` has one, and one no smaller.
pub open spec fn covers(upper: Seq<Option<u32>>, lower: Seq<Option<u32>>) -> bool {
    &&& upper.len() == lower.len()
    &&& forall|i: int| #![trigger upper[i]] #![trigger lower[i]]
        0 <= i < lower.len() ==> (lower[i] matches Some(low) ==> (upper[i] matches Some(high)
            && low <= high))
}

/// Every value is a score.
pub open spec fn all_scores(values: Seq<Option<u32>>) -> bool {
    forall|i: int| #![trigger values[i]]
        0 <= i < values.len() ==> (values[i] matches Some(value) ==> is_score(value))
}

/// Sums of bounds are no smaller than the sums they bound, whatever rounding
/// does.
pub proof fn law_bounds_cover_sums<A, S, B, L, M>(
    scoring: Scoring<A, S, B, L, M>,
    upper: Seq<Option<u32>>,
    lower: Seq<Option<u32>>,
) where
    A: Fn(u32, u32) -> u32,
    S: Fn(usize, u32, u32) -> u32,
    B: Fn(usize, Block) -> u32,
    L: Fn(usize, Block, u32) -> u32,
    M: Fn(usize, Block, u32) -> u32,

    requires
        scoring.sound(),
        covers(upper, lower),
        all_scores(upper),
    ensures
        scoring.total(lower) <= scoring.total(upper),
        is_score(scoring.total(upper)),
    decreases upper.len(),
{
    reveal(Scoring::sound);
    if upper.len() > 0 {
        let high = upper.drop_last();
        let low = lower.drop_last();
        assert forall|i: int| 0 <= i < low.len() implies (#[trigger] low[i] matches Some(l) ==> (
        high[i] matches Some(h) && l <= h)) by {
            assert(low[i] == lower[i] && high[i] == upper[i]);
        }
        assert(all_scores(high)) by {
            assert forall|i: int| 0 <= i < high.len() implies (#[trigger] high[i] matches Some(h)
                ==> is_score(h)) by {
                assert(high[i] == upper[i]);
            }
        }
        assert(covers(high, low));
        law_bounds_cover_sums(scoring, high, low);
        let last: int = upper.len() - 1;
        assert(upper.last() == upper[last] && lower.last() == lower[last]);
        if upper.last() is Some && lower.last() is None {
            let a = scoring.total(high);
            assert(scoring.sum(a, 0) <= scoring.sum(a, upper.last()->0));
        }
    }
}

} // verus!
