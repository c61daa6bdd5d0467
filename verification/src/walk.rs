//! Block-max pruning: the best rows of one source, found without scoring
//! every candidate.

use crate::ranking::{
    enters, in_rank_order, is_score, number_order, offer, offered, offered_all, place_of, Row,
};
use crate::scoring::{all_scores, covers, law_bounds_cover_sums, Block, Scoring};
use crate::source::{holds, lemma_split, split, Combine, Document, Source, TermPostings};
use crate::steps::{lemma_block_over, lemma_first_from, Tally};
use crate::tid::{after, successor, Tid};
use vstd::prelude::*;

verus! {

/// One source being walked by the pruned scan, with a cursor per term.
pub struct Walk<'a, A, S, B, L, M> {
    pub scoring: &'a Scoring<A, S, B, L, M>,
    pub source: &'a Source,
    /// The most line pointers a block of the heap has.
    pub max_offset: u16,
    pub k: usize,
    /// The best rows so far, in output order.
    pub best: Vec<Row>,
    /// Where each term's cursor stands in its postings.
    pub at: Vec<usize>,
    /// Upper bound on each term's contribution anywhere in the source.
    pub term_max: Vec<u32>,
    /// The block last asked about for each term, and its bound.
    pub cached: Vec<Option<(Block, u32)>>,
    /// Candidates whose score was computed.
    pub scored: usize,
    /// Candidates dropped because the source lists them as deleted.
    pub dead_skipped: usize,
}

/// The postings still ahead of the cursors.
pub open spec fn ahead(source: Source, at: Seq<usize>) -> nat
    decreases at.len(),
{
    if at.len() == 0 {
        0
    } else {
        let i: int = at.len() - 1;
        let rest = source.terms[i].postings.len() - at[i];
        ahead(source, at.drop_last()) + if rest > 0 { rest as nat } else { 0 }
    }
}

proof fn lemma_ahead(source: Source, a: Seq<usize>, b: Seq<usize>, moved: Option<int>)
    requires
        a.len() == b.len() <= source.terms.len(),
        forall|i: int| 0 <= i < a.len() ==> a[i] <= #[trigger] b[i],
        moved matches Some(m) ==> 0 <= m < a.len() && a[m] < b[m] && a[m]
            < source.terms[m].postings.len(),
    ensures
        ahead(source, b) <= ahead(source, a),
        moved is Some ==> ahead(source, b) < ahead(source, a),
    decreases a.len(),
{
    if a.len() > 0 {
        let last: int = a.len() - 1;
        let rest = if moved == Some(last) { None } else { moved };
        assert forall|i: int| 0 <= i < last implies a.drop_last()[i] <= #[trigger] b.drop_last()[i] by {
            assert(a.drop_last()[i] == a[i] && b.drop_last()[i] == b[i]);
        }
        lemma_ahead(source, a.drop_last(), b.drop_last(), rest);
        assert(a[last] <= b[last]);
    }
}

/// `order` lists the places below `upto` that have a key, each once, by
/// ascending key; places with equal keys keep their order.
pub open spec fn orders(keys: Seq<Option<u64>>, order: Seq<usize>, upto: int) -> bool {
    &&& forall|x: int, y: int|
        0 <= x < y < order.len() ==> {
            let a = keys[(#[trigger] order[x]) as int]->0;
            let b = keys[(#[trigger] order[y]) as int]->0;
            a < b || (a == b && order[x] < order[y])
        }
    &&& forall|x: int|
        0 <= x < order.len() ==> (#[trigger] order[x]) < upto && keys[order[x] as int] is Some
    &&& forall|j: int| 0 <= j < upto && #[trigger] keys[j] is Some ==> order.contains(j as usize)
}

/// The places that have a key, by ascending key; places with equal keys keep
/// their order.
fn order_by_key(keys: &Vec<Option<u64>>) -> (order: Vec<usize>)
    ensures
        orders(keys@, order@, keys.len() as int),
{
    let mut order: Vec<usize> = Vec::new();
    let mut i: usize = 0;
    while i < keys.len()
        invariant
            i <= keys.len(),
            orders(keys@, order@, i as int),
        decreases keys.len() - i,
    {
        if let Some(key) = keys[i] {
            let mut p: usize = order.len();
            while p > 0 && key < key_of(keys, order[p - 1])
                invariant
                    i < keys.len(),
                    orders(keys@, order@, i as int),
                    p <= order.len(),
                    forall|x: int|
                        p <= x < order.len() ==> key < keys[(#[trigger] order[x]) as int]->0,
                decreases p,
            {
                p = p - 1;
            }
            let ghost was = order@;
            order.insert(p, i);
            proof {
                lemma_ordered_insert(keys@, was, i, p as int);
            }
        }
        i = i + 1;
    }
    order
}

fn key_of(keys: &Vec<Option<u64>>, place: usize) -> (key: u64)
    requires
        place < keys.len(),
        keys[place as int] is Some,
    ensures
        key == keys[place as int]->0,
{
    match keys[place] {
        Some(key) => key,
        None => 0,
    }
}

proof fn lemma_ordered_insert(keys: Seq<Option<u64>>, was: Seq<usize>, i: usize, p: int)
    requires
        i < keys.len(),
        keys[i as int] is Some,
        orders(keys, was, i as int),
        0 <= p <= was.len(),
        p > 0 ==> keys[was[p - 1] as int]->0 <= keys[i as int]->0,
        forall|x: int|
            p <= x < was.len() ==> keys[i as int]->0 < keys[(#[trigger] was[x]) as int]->0,
    ensures
        orders(keys, was.insert(p, i), i + 1),
{
    let order = was.insert(p, i);
    assert forall|x: int, y: int| 0 <= x < y < order.len() implies ({
        let a = keys[(#[trigger] order[x]) as int]->0;
        let b = keys[(#[trigger] order[y]) as int]->0;
        a < b || (a == b && order[x] < order[y])
    }) by {
        let a: int = if x < p { x } else { x - 1 };
        let b: int = if y < p { y } else { y - 1 };
        if x != p {
            assert(order[x] == was[a]);
        }
        if y != p {
            assert(order[y] == was[b]);
        }
        if y == p && x < p - 1 {
            assert(keys[was[x] as int]->0 <= keys[was[p - 1] as int]->0);
        }
    }
    assert forall|x: int| 0 <= x < order.len() implies (#[trigger] order[x]) < i + 1
        && keys[order[x] as int] is Some by {
        let a: int = if x < p { x } else { x - 1 };
        if x != p {
            assert(order[x] == was[a]);
        }
    }
    assert forall|j: int| 0 <= j < i + 1 && #[trigger] keys[j] is Some implies order.contains(
        j as usize,
    ) by {
        if j == i {
            assert(order[p] == i);
        } else {
            assert(was.contains(j as usize));
            let a = choose|a: int| 0 <= a < was.len() && was[a] == j as usize;
            let x: int = if a < p { a } else { a + 1 };
            assert(order[x] == was[a]);
        }
    }
}

/// How many of the `k` best rows there are once `more` are offered to `len` of
/// them.
pub open spec fn filled(k: int, len: int, more: int) -> int {
    if len + more < k {
        len + more
    } else {
        k
    }
}

impl<'a, A, S, B, L, M> Walk<'a, A, S, B, L, M> where
    A: Fn(u32, u32) -> u32,
    S: Fn(usize, u32, u32) -> u32,
    B: Fn(usize, Block) -> u32,
    L: Fn(usize, Block, u32) -> u32,
    M: Fn(usize, Block, u32) -> u32,
 {
    /// What holds throughout a walk.
    pub open spec fn valid(self) -> bool {
        let n = self.source.terms.len();
        &&& self.scoring.deterministic()
        &&& self.scoring.sound()
        &&& self.source.ordered(self.max_offset)
        &&& self.source.bounds_hold(*self.scoring)
        &&& forall|i: int| 0 <= i < n ==> (#[trigger] self.source.terms[i]).blocks.len() > 0
        &&& self.k > 0
        &&& in_rank_order(self.best@)
        &&& self.best.len() <= self.k
        &&& self.at.len() == n
        &&& self.term_max.len() == n
        &&& self.cached.len() == n
        &&& forall|i: int| 0 <= i < n ==> #[trigger] self.at[i] <= self.source.terms[i].postings.len()
        &&& forall|i: int|
            0 <= i < n ==> #[trigger] self.term_max[i] == self.scoring.block_bound(
                self.source.terms[i].slot,
                self.source.terms[i].whole,
            )
        &&& forall|i: int| 0 <= i < n ==> self.cache_valid(i, #[trigger] self.cached[i])
    }

    /// A cached block is one of the term's, with its own bound.
    pub open spec fn cache_valid(self, i: int, cached: Option<(Block, u32)>) -> bool {
        cached matches Some((block, bound)) ==> {
            &&& self.source.terms[i].blocks@.contains(block)
            &&& bound == self.scoring.block_bound(self.source.terms[i].slot, block)
        }
    }

    /// Only the cursors and their cached blocks differ from `other`.
    pub open spec fn same_rows(self, other: Self) -> bool {
        &&& self.same_setting(other)
        &&& self.best == other.best
        &&& self.scored == other.scored
        &&& self.dead_skipped == other.dead_skipped
    }

    /// Walks the same source in the same way as `other`.
    pub open spec fn same_setting(self, other: Self) -> bool {
        &&& self.scoring == other.scoring
        &&& self.source == other.source
        &&& self.max_offset == other.max_offset
        &&& self.k == other.k
        &&& self.term_max == other.term_max
    }

    /// The location term `i`'s cursor stands on.
    pub open spec fn current_at(self, i: int) -> Option<Tid> {
        if self.at[i] < self.source.terms[i].postings.len() {
            Some(self.source.terms[i].postings[self.at[i] as int].tid)
        } else {
            None
        }
    }

    /// The postings term `i`'s cursor has passed are those before `frontier`.
    pub open spec fn passed_exactly(self, i: int, frontier: int) -> bool {
        forall|q: int|
            0 <= q < self.source.terms[i].postings.len() ==> (q < self.at[i] <==> (
            #[trigger] self.source.terms[i].postings[q]).tid.key() < frontier)
    }

    /// The postings term `i`'s cursor has passed are before `frontier`.
    pub open spec fn passed_only(self, i: int, frontier: int) -> bool {
        forall|q: int|
            0 <= q < self.at[i] ==> (#[trigger] self.source.terms[i].postings[q]).tid.key()
                < frontier
    }

    /// Every cursor has passed exactly what is before `frontier`.
    pub open spec fn aligned(self, frontier: int) -> bool {
        forall|i: int|
            0 <= i < self.source.terms.len() ==> #[trigger] self.passed_exactly(i, frontier)
    }

    /// The best rows are those of `first` and of the candidates before
    /// `frontier`.
    pub open spec fn reached(self, first: Seq<Row>, combine: Combine, frontier: int) -> bool {
        self.best@ == offered_all(
            self.k as nat,
            first,
            self.source.candidates(
                *self.scoring,
                combine,
                split(self.source.documents@, frontier),
            ),
        )
    }

    /// No candidate from `from` up to `upto` can enter the best rows.
    pub open spec fn none_enter(self, combine: Combine, from: int, upto: int) -> bool {
        forall|d: int|
            #![trigger self.source.documents[d]]
            0 <= d < self.source.documents.len() && from <= self.source.documents[d].tid.key()
                < upto && self.source.is_candidate(combine, self.source.documents[d].tid)
                ==> !enters(
                self.k as nat,
                self.best@,
                self.source.score_of(*self.scoring, self.source.documents[d]),
                self.source.documents[d].tid,
            )
    }

    proof fn lemma_pass(self, first: Seq<Row>, combine: Combine, from: int, upto: int)
        requires
            self.valid(),
            from <= upto,
            self.reached(first, combine, from),
            self.none_enter(combine, from, upto),
        ensures
            self.reached(first, combine, upto),
    {
        let documents = self.source.documents@;
        lemma_split(documents, from);
        lemma_split(documents, upto);
        let a = split(documents, from);
        let b = split(documents, upto);
        assert(a <= b) by {
            if b < a {
                assert(documents[b as int].tid.key() < from);
            }
        }
        assert forall|d: int|
            a <= d < b && self.source.is_candidate(
                combine,
                (#[trigger] self.source.documents[d]).tid,
            ) implies !enters(
            self.k as nat,
            self.best@,
            self.source.score_of(*self.scoring, self.source.documents[d]),
            self.source.documents[d].tid,
        ) by {
            assert(documents[d].tid.key() < upto);
            assert(!(documents[d].tid.key() < from));
        }
        self.source.lemma_skip(*self.scoring, combine, self.k as nat, first, self.best@, a, b);
    }

    /// The location term `i`'s cursor stands on.
    fn current(&self, i: usize) -> (tid: Option<Tid>)
        requires
            i < self.at.len(),
            self.at.len() == self.source.terms.len(),
        ensures
            tid == self.current_at(i as int),
    {
        let term = &self.source.terms[i];
        let at: usize = self.at[i];
        if at < term.postings.len() {
            Some(term.postings[at].tid)
        } else {
            None
        }
    }

    /// Moves term `i`'s cursor to its first posting at or after `target`.
    fn seek(&mut self, i: usize, target: Tid)
        requires
            old(self).valid(),
            i < old(self).source.terms.len(),
        ensures
            final(self).valid(),
            final(self).same_rows(*old(self)),
            final(self).cached == old(self).cached,
            final(self).at.len() == old(self).at.len(),
            forall|j: int|
                0 <= j < old(self).at.len() && j != i ==> final(self).at[j] == old(self).at[j],
            old(self).at[i as int] <= final(self).at[i as int],
            old(self).passed_only(i as int, target.key()) ==> final(self).passed_exactly(
                i as int,
                target.key(),
            ),
    {
        let mut at: usize = self.at[i];
        let source = self.source;
        let term = &source.terms[i];
        while at < term.postings.len() && term.postings[at].tid.before(target)
            invariant
                i < source.terms.len(),
                *term == source.terms[i as int],
                self.at[i as int] <= at <= term.postings.len(),
                forall|q: int|
                    self.at[i as int] <= q < at ==> (#[trigger] term.postings[q]).tid.key()
                        < target.key(),
            decreases term.postings.len() - at,
        {
            at = at + 1;
        }
        proof {
            if self.passed_only(i as int, target.key()) {
                assert(term.ordered(self.max_offset));
                reveal(TermPostings::ordered);
                assert forall|q: int| 0 <= q < term.postings.len() implies (q < at <==> (
                #[trigger] term.postings[q]).tid.key() < target.key()) by {
                    if q > at {
                        assert(term.postings[at as int].tid.key() < term.postings[q].tid.key());
                    }
                    if q < self.at[i as int] {
                        assert(source.terms[i as int].postings[q].tid.key() < target.key());
                    }
                }
            }
        }
        self.at.set(i, at);
    }

    /// Whether a document at `tid` scoring at most `bound` could enter the
    /// best rows: it must beat the last row's score, or tie it from an
    /// earlier location.
    fn can_beat(&self, bound: u32, tid: Tid) -> (can: bool)
        requires
            self.valid(),
        ensures
            can == enters(self.k as nat, self.best@, bound, tid),
    {
        match self.threshold() {
            Some(last) => place_of(bound) > place_of(last.score) || (bound == last.score
                && tid.before(last.tid)),
            None => true,
        }
    }

    /// The k-th best row so far, once there are k.
    fn threshold(&self) -> (last: Option<Row>)
        requires
            self.valid(),
        ensures
            last == (if self.best.len() == self.k {
                Some(self.best@.last())
            } else {
                None
            }),
    {
        let len: usize = self.best.len();
        if len == self.k {
            Some(self.best[len - 1])
        } else {
            None
        }
    }

    /// The terms whose cursors stand on a posting, in the order of the
    /// locations they stand on.
    fn positioned(&self) -> (order: Vec<usize>)
        requires
            self.valid(),
        ensures
            self.is_order(order@),
    {
        let n: usize = self.source.terms.len();
        let mut keys: Vec<Option<u64>> = Vec::new();
        let mut i: usize = 0;
        while i < n
            invariant
                self.valid(),
                n == self.source.terms.len(),
                i <= n,
                keys.len() == i,
                forall|j: int|
                    0 <= j < i ==> #[trigger] keys[j] == (match self.current_at(j) {
                        Some(tid) => Some(tid.key() as u64),
                        None => None,
                    }),
            decreases n - i,
        {
            let key: Option<u64> = match self.current(i) {
                Some(tid) => Some(tid.number()),
                None => None,
            };
            keys.push(key);
            i = i + 1;
        }
        let order = order_by_key(&keys);
        proof {
            assert forall|x: int| 0 <= x < order.len() implies (#[trigger] order[x])
                < self.source.terms.len() && self.current_at(order[x] as int) is Some by {
                assert(keys[order[x] as int] is Some);
            }
            assert forall|x: int, y: int| 0 <= x < y < order.len() implies self.current_at(
                (#[trigger] order[x]) as int,
            )->0.key() <= self.current_at((#[trigger] order[y]) as int)->0.key() by {
                assert(keys[order[x] as int] is Some && keys[order[y] as int] is Some);
            }
            assert forall|x: int, y: int| 0 <= x < y < order.len() implies order[x]
                != order[y] by {
                assert(keys[order[x] as int] is Some && keys[order[y] as int] is Some);
            }
            assert forall|j: int|
                0 <= j < self.source.terms.len() && #[trigger] self.current_at(j) is Some implies order@.contains(
                j as usize,
            ) by {
                assert(keys[j] is Some);
            }
        }
        order
    }

    /// `order` lists the terms whose cursors stand on a posting, each once,
    /// in the order of the locations they stand on.
    spec fn is_order(self, order: Seq<usize>) -> bool {
        &&& forall|x: int, y: int|
            0 <= x < y < order.len() ==> self.current_at((#[trigger] order[x]) as int)->0.key()
                <= self.current_at((#[trigger] order[y]) as int)->0.key()
        &&& forall|x: int, y: int| 0 <= x < y < order.len() ==> order[x] != order[y]
        &&& forall|x: int|
            0 <= x < order.len() ==> (#[trigger] order[x]) < self.source.terms.len()
                && self.current_at(order[x] as int) is Some
        &&& forall|j: int|
            0 <= j < self.source.terms.len() && #[trigger] self.current_at(j) is Some
                ==> order.contains(j as usize)
    }

    /// The bound of the block of term `i` that holds its first posting at or
    /// after `target`, and where that block ends.
    fn bound_at(&mut self, i: usize, target: Tid) -> (found: Option<(u32, Tid)>)
        requires
            old(self).valid(),
            i < old(self).source.terms.len(),
            old(self).passed_only(i as int, target.key()),
        ensures
            final(self).valid(),
            final(self).same_rows(*old(self)),
            final(self).at == old(self).at,
            final(self).cached.len() == old(self).cached.len(),
            forall|j: int|
                0 <= j < old(self).cached.len() && j != i ==> final(self).cached[j] == old(self).cached[j],
            match found {
                Some((bound, last)) => {
                    &&& final(self).cached[i as int] is Some
                    &&& old(self).source.terms[i as int].block_from(target.key()) == Some(
                        (final(self).cached[i as int]->0).0,
                    )
                    &&& bound == (final(self).cached[i as int]->0).1
                    &&& last == (final(self).cached[i as int]->0).0.last
                    &&& final(self).cached_holds(i as int, target.key(), last.key())
                    &&& target.key() <= last.key()
                },
                None => {
                    &&& old(self).source.terms[i as int].block_from(target.key()) is None
                    &&& forall|q: int|
                        0 <= q < old(self).source.terms[i as int].postings.len() ==> (
                        #[trigger] old(self).source.terms[i as int].postings[q]).tid.key()
                            < target.key()
                },
            },
    {
        let source = self.source;
        let term = &source.terms[i];
        let mut at: usize = self.at[i];
        while at < term.postings.len() && term.postings[at].tid.before(target)
            invariant
                self.valid(),
                self.source == source,
                i < source.terms.len(),
                *term == source.terms[i as int],
                self.at[i as int] <= at <= term.postings.len(),
                self.passed_only(i as int, target.key()),
                forall|q: int|
                    0 <= q < at ==> (#[trigger] term.postings[q]).tid.key() < target.key(),
            decreases term.postings.len() - at,
        {
            at = at + 1;
        }
        proof {
            lemma_first_from(term.postings@, target.key(), 0, at as int);
        }
        if at == term.postings.len() {
            return None;
        }
        let found: Tid = term.postings[at].tid;
        proof {
            assert(term.ordered(self.max_offset));
            reveal(TermPostings::ordered);
            let end: int = term.postings.len() - 1;
            if at < end {
                assert(term.postings[at as int].tid.key() < term.postings[end].tid.key());
            }
            assert(source.terms[i as int].blocks.len() > 0);
        }
        let mut b: usize = 0;
        while term.blocks[b].last.before(found)
            invariant
                b < term.blocks.len(),
                found.key() <= term.blocks@.last().last.key(),
                b > 0 ==> term.blocks[b - 1].last.key() < found.key(),
                forall|x: int| 0 <= x < b ==> (#[trigger] term.blocks[x]).last.key() < found.key(),
            decreases term.blocks.len() - b,
        {
            b = b + 1;
        }
        let block: Block = term.blocks[b];
        proof {
            lemma_block_over(term.blocks@, found.key(), 0, b as int);
            assert forall|q: int|
                0 <= q < term.postings.len() && target.key() <= (
                #[trigger] term.postings[q]).tid.key() <= block.last.key() implies holds(
                term.blocks@,
                b as int,
                term.postings[q].tid.key(),
            ) by {
                if q > at {
                    assert(term.postings[at as int].tid.key() < term.postings[q].tid.key());
                }
            }
            assert(term.blocks@[b as int] == block);
        }
        if let Some((cached, bound)) = self.cached[i] {
            if cached.last == block.last {
                proof {
                    assert(self.cache_valid(i as int, self.cached[i as int]));
                    let c = choose|c: int| 0 <= c < term.blocks.len() && term.blocks@[c] == cached;
                    if c < b {
                        assert(term.blocks[c].last.key() < term.blocks[b as int].last.key());
                    } else if b < c {
                        assert(term.blocks[b as int].last.key() < term.blocks[c].last.key());
                    }
                    assert(cached == block);
                    reveal(Walk::cached_holds);
                    assert(self.source.terms[i as int].blocks[b as int] == cached);
                }
                return Some((bound, cached.last));
            }
        }
        let bound: u32 = (self.scoring.bound)(term.slot, block);
        self.cached.set(i, Some((block, bound)));
        proof {
            reveal(Walk::cached_holds);
            assert(self.source.terms[i as int].blocks[b as int] == block);
        }
        Some((bound, block.last))
    }

    /// The cached block of term `i` holds the term's postings from `from`
    /// through `to`.
    #[verifier::opaque]
    spec fn cached_holds(self, i: int, from: int, to: int) -> bool {
        let term = self.source.terms[i];
        self.cached[i] is Some && exists|b: int|
            #![trigger term.blocks[b]]
            0 <= b < term.blocks.len() && term.blocks[b] == (self.cached[i]->0).0 && forall|q: int|
                0 <= q < term.postings.len() && from <= (
                #[trigger] term.postings[q]).tid.key() <= to ==> holds(
                term.blocks@,
                b,
                term.postings[q].tid.key(),
            )
    }

    proof fn lemma_present(self, i: int, pivot: Tid)
        requires
            self.valid(),
            0 <= i < self.source.terms.len(),
            self.passed_exactly(i, pivot.key()),
        ensures
            self.current_at(i) == Some(pivot) ==> self.source.terms[i].posting_at(pivot) == Some(
                self.source.terms[i].postings[self.at[i] as int],
            ),
            self.current_at(i) != Some(pivot) ==> self.source.terms[i].posting_at(pivot) is None,
    {
        let term = self.source.terms[i];
        assert(term.ordered(self.max_offset));
        reveal(TermPostings::ordered);
        if self.current_at(i) == Some(pivot) {
            term.lemma_posting_at(self.max_offset, self.at[i] as int);
        } else {
            assert forall|q: int| 0 <= q < term.postings.len() implies #[trigger] term.postings[q].tid
                != pivot by {
                if term.postings[q].tid == pivot {
                    assert(!(q < self.at[i]));
                    if self.at[i] < q {
                        assert(term.postings[self.at[i] as int].tid.key()
                            < term.postings[q].tid.key());
                    }
                }
            }
        }
    }

    /// A score no larger than a bound that cannot enter cannot enter either.
    proof fn lemma_bound_excludes(self, upper: Seq<Option<u32>>, document: Document, tid: Tid)
        requires
            self.valid(),
            covers(
                upper,
                self.source.contributions(*self.scoring, document.tid, document.length),
            ),
            all_scores(upper),
            tid.key() <= document.tid.key(),
            !enters(self.k as nat, self.best@, self.scoring.total(upper), tid),
        ensures
            !enters(
                self.k as nat,
                self.best@,
                self.source.score_of(*self.scoring, document),
                document.tid,
            ),
    {
        law_bounds_cover_sums(
            *self.scoring,
            upper,
            self.source.contributions(*self.scoring, document.tid, document.length),
        );
    }

    /// The bound at its document's length covers the posting a cursor stands
    /// on.
    proof fn lemma_length_bound(self, i: int, d: int)
        requires
            self.valid(),
            0 <= i < self.source.terms.len(),
            0 <= d < self.source.documents.len(),
            self.current_at(i) == Some(self.source.documents[d].tid),
            self.cached_holds(
                i,
                self.source.documents[d].tid.key(),
                self.source.documents[d].tid.key(),
            ),
        ensures
            self.cached[i] is Some,
            self.scoring.contribution(
                self.source.terms[i].slot,
                self.source.terms[i].postings[self.at[i] as int].frequency,
                self.source.documents[d].length,
            ) <= self.scoring.bound_for_length(
                self.source.terms[i].slot,
                (self.cached[i]->0).0,
                self.source.documents[d].length,
            ),
            is_score(
                self.scoring.bound_for_length(
                    self.source.terms[i].slot,
                    (self.cached[i]->0).0,
                    self.source.documents[d].length,
                ),
            ),
    {
        reveal(Walk::cached_holds);
        reveal(Source::bounds_hold);
        reveal(Scoring::sound);
        let term = self.source.terms[i];
        let key = self.source.documents[d].tid.key();
        let b = choose|b: int|
            #![trigger term.blocks[b]]
            0 <= b < term.blocks.len() && term.blocks[b] == (self.cached[i]->0).0 && forall|q: int|
                0 <= q < term.postings.len() && key <= (#[trigger] term.postings[q]).tid.key()
                    <= key ==> holds(term.blocks@, b, term.postings[q].tid.key());
        let q = self.at[i] as int;
        assert(holds(term.blocks@, b, term.postings[q].tid.key()));
        assert(self.source.terms[i].blocks[b] == (self.cached[i]->0).0);
        assert(self.source.bounded(*self.scoring, i, q, b, self.source.documents[d].length));
    }

    /// The cached block of a term that stands on a posting is the one that
    /// holds the posting.
    proof fn lemma_cached_is(self, i: int, pivot: Tid)
        requires
            self.valid(),
            0 <= i < self.source.terms.len(),
            self.current_at(i) == Some(pivot),
            self.passed_exactly(i, pivot.key()),
            self.cached_holds(i, pivot.key(), pivot.key()),
        ensures
            self.cached[i] is Some,
            self.source.terms[i].block_from(pivot.key()) == Some((self.cached[i]->0).0),
    {
        reveal(Walk::cached_holds);
        let term = self.source.terms[i];
        assert(term.ordered(self.max_offset));
        reveal(TermPostings::ordered);
        let key = pivot.key();
        let b = choose|b: int|
            #![trigger term.blocks[b]]
            0 <= b < term.blocks.len() && term.blocks[b] == (self.cached[i]->0).0 && forall|q: int|
                0 <= q < term.postings.len() && key <= (#[trigger] term.postings[q]).tid.key()
                    <= key ==> holds(term.blocks@, b, term.postings[q].tid.key());
        let q = self.at[i] as int;
        assert(holds(term.blocks@, b, term.postings[q].tid.key()));
        lemma_first_from(term.postings@, key, 0, q);
        assert forall|x: int| 0 <= x < b implies (#[trigger] term.blocks[x]).last.key() < key by {
            if x < b - 1 {
                assert(term.blocks[x].last.key() < term.blocks[b - 1].last.key());
            }
        }
        lemma_block_over(term.blocks@, key, 0, b);
    }

    /// The document of a location.
    proof fn lemma_document_of(self, d: int)
        requires
            0 <= d < self.source.documents.len(),
            documents_unique(self.source.documents@, self.source.documents[d].tid),
        ensures
            self.source.document_of(self.source.documents[d].tid) == self.source.documents[d],
    {
        let tid = self.source.documents[d].tid;
        assert(self.source.documents[d].tid == tid);
        let e = choose|e: int|
            0 <= e < self.source.documents.len() && #[trigger] self.source.documents[e].tid == tid;
        assert(self.source.documents@[e].tid == tid && self.source.documents@[d].tid == tid);
    }

    /// How the terms at `pivot` are ordered: the rarest first.
    spec fn is_pending(self, pivot: Tid, counts: Seq<Option<u64>>, pending: Seq<usize>) -> bool {
        let n = self.source.terms.len();
        &&& counts.len() == n
        &&& orders(counts, pending, n as int)
        &&& forall|j: int|
            0 <= j < n ==> #[trigger] counts[j] == (if self.current_at(j) == Some(pivot) {
                Some(self.source.terms[j].count as u64)
            } else {
                None
            })
    }

    /// What a term at `pivot` contributes at most, at the document's length.
    spec fn upper_at(self, document: Document, i: int) -> u32 {
        self.scoring.bound_for_length(
            self.source.terms[i].slot,
            self.source.terms[i].block_from(document.tid.key())->0,
            document.length,
        )
    }

    /// The values once the first `x` of the terms at a document are decoded.
    proof fn lemma_partly(
        self,
        document: Document,
        counts: Seq<Option<u64>>,
        pending: Seq<usize>,
        values: Seq<Option<u32>>,
        x: int,
    )
        requires
            self.valid(),
            self.aligned(document.tid.key()),
            self.is_pending(document.tid, counts, pending),
            0 <= x < pending.len(),
            values.len() == self.source.terms.len(),
            forall|j: int| 0 <= j < values.len() && counts[j] is None ==> #[trigger] values[j] is None,
            forall|y: int|
                0 <= y < x ==> values[(#[trigger] pending[y]) as int] == self.source.contributions(
                    *self.scoring,
                    document.tid,
                    document.length,
                )[pending[y] as int],
            forall|y: int|
                x <= y < pending.len() ==> values[(#[trigger] pending[y]) as int] == Some(
                    self.upper_at(document, pending[y] as int),
                ),
        ensures
            values == self.source.partly_decoded(*self.scoring, document, pending[x] as int),
    {
        let partly = self.source.partly_decoded(*self.scoring, document, pending[x] as int);
        let exact = self.source.contributions(*self.scoring, document.tid, document.length);
        assert forall|j: int| 0 <= j < values.len() implies values[j] == partly[j] by {
            assert(self.passed_exactly(j, document.tid.key()));
            self.lemma_present(j, document.tid);
            if counts[j] is Some {
                assert(pending.contains(j as usize));
                let y = choose|y: int| 0 <= y < pending.len() && pending[y] == j as usize;
                assert(counts[pending[x] as int] is Some);
                assert(counts[pending[y] as int] is Some);
                if y < x {
                    assert(self.source.decoded_first(j, pending[x] as int));
                    assert(values[pending[y] as int] == exact[j]);
                } else {
                    if x < y {
                        assert(counts[pending[x] as int]->0 < counts[pending[y] as int]->0 || (
                        counts[pending[x] as int]->0 == counts[pending[y] as int]->0 && pending[x]
                            < pending[y]));
                    }
                    assert(!self.source.decoded_first(j, pending[x] as int));
                    assert(values[pending[y] as int] == Some(self.upper_at(document, j)));
                }
            }
        }
        assert(values =~= partly);
    }

    /// A document is not abandoned if it can enter at every term.
    proof fn lemma_kept(
        self,
        document: Document,
        counts: Seq<Option<u64>>,
        pending: Seq<usize>,
    )
        requires
            self.valid(),
            self.aligned(document.tid.key()),
            self.is_pending(document.tid, counts, pending),
            forall|y: int|
                0 <= y < pending.len() ==> enters(
                    self.k as nat,
                    self.best@,
                    self.scoring.total(
                        self.source.partly_decoded(
                            *self.scoring,
                            document,
                            (#[trigger] pending[y]) as int,
                        ),
                    ),
                    document.tid,
                ),
        ensures
            !self.source.abandoned(*self.scoring, self.k as nat, self.best@, document),
    {
        assert forall|x: int|
            0 <= x < self.source.terms.len() && self.source.terms[x].posting_at(
                document.tid,
            ) is Some implies enters(
            self.k as nat,
            self.best@,
            self.scoring.total(
                #[trigger] self.source.partly_decoded(*self.scoring, document, x),
            ),
            document.tid,
        ) by {
            assert(self.passed_exactly(x, document.tid.key()));
            self.lemma_present(x, document.tid);
            assert(counts[x] is Some);
            assert(pending.contains(x as usize));
            let y = choose|y: int| 0 <= y < pending.len() && pending[y] == x as usize;
            assert(pending[y] as int == x);
        }
    }

    /// A document is abandoned at a term at which it cannot enter.
    proof fn lemma_abandoned(
        self,
        document: Document,
        counts: Seq<Option<u64>>,
        pending: Seq<usize>,
        x: int,
    )
        requires
            self.valid(),
            self.aligned(document.tid.key()),
            self.is_pending(document.tid, counts, pending),
            self.best.len() == self.k,
            0 <= x < pending.len(),
            !enters(
                self.k as nat,
                self.best@,
                self.scoring.total(
                    self.source.partly_decoded(*self.scoring, document, pending[x] as int),
                ),
                document.tid,
            ),
        ensures
            self.source.abandoned(*self.scoring, self.k as nat, self.best@, document),
    {
        let i = pending[x] as int;
        assert(counts[i] is Some);
        assert(self.passed_exactly(i, document.tid.key()));
        self.lemma_present(i, document.tid);
    }

    /// Scores the document at `pivot`, held by every cursor positioned on
    /// it: the sum in term order of each present term's contribution. Once
    /// the document's length is known, each term's contribution is bounded
    /// within its block at that length; the document is abandoned when those
    /// bounds cannot enter the best rows, and again after each term is
    /// decoded (rarest first) if its exact contributions so far plus the
    /// remaining bounds cannot.
    fn score(&mut self, pivot: Tid)
        requires
            old(self).valid(),
            old(self).aligned(pivot.key()),
            exists|d: int|
                0 <= d < old(self).source.documents.len() && #[trigger] old(self).source.documents[d].tid == pivot,
            exists|i: int|
                0 <= i < old(self).source.terms.len() && #[trigger] old(self).current_at(i) == Some(
                    pivot,
                ),
            old(self).best.len() == old(self).k ==> forall|i: int|
                0 <= i < old(self).source.terms.len() && #[trigger] old(self).current_at(i) == Some(
                    pivot,
                ) ==> old(self).cached_holds(i, pivot.key(), pivot.key()),
            old(self).scored < usize::MAX,
            old(self).dead_skipped < usize::MAX,
        ensures
            final(self).valid(),
            final(self).same_setting(*old(self)),
            final(self).at == old(self).at,
            final(self).cached == old(self).cached,
            final(self).scored == old(self).scored + old(self).source.visited(
                *old(self).scoring,
                old(self).k as nat,
                old(self).best@,
                pivot,
                None,
            ).tally.scored,
            final(self).dead_skipped == old(self).dead_skipped + old(self).source.visited(
                *old(self).scoring,
                old(self).k as nat,
                old(self).best@,
                pivot,
                None,
            ).tally.dead,
            final(self).best@ == old(self).source.visited(
                *old(self).scoring,
                old(self).k as nat,
                old(self).best@,
                pivot,
                None,
            ).best,
            old(self).scored <= final(self).scored <= old(self).scored + 1,
            final(self).best.len() == filled(
                old(self).k as int,
                old(self).best.len() as int,
                final(self).scored - old(self).scored,
            ),
            final(self).dead_skipped == old(self).dead_skipped + if old(self).source.dead@.contains(pivot) {
                1int
            } else {
                0int
            },
            forall|d: int|
                0 <= d < old(self).source.documents.len() && #[trigger] old(self).source.documents[d].tid == pivot ==> final(self).best@ == (if old(self).source.dead@.contains(pivot) {
                    old(self).best@
                } else {
                    offered(
                        old(self).k as nat,
                        old(self).best@,
                        Row {
                            score: old(self).source.score_of(
                                *old(self).scoring,
                                old(self).source.documents[d],
                            ),
                            tid: pivot,
                        },
                    )
                }),
    {
        let source = self.source;
        let scoring = self.scoring;
        if source.is_dead(pivot) {
            self.dead_skipped = self.dead_skipped + 1;
            return;
        }
        let ordinal: usize = match source.ordinal(pivot) {
            Some(ordinal) => ordinal,
            None => {
                return;
            },
        };
        let document = source.documents[ordinal];
        proof {
            assert(documents_unique(source.documents@, pivot)) by {
                lemma_documents_unique(source.documents@, pivot);
            }
        }
        proof {
            self.lemma_document_of(ordinal as int);
        }
        let length: u32 = document.length;
        let ghost exact = source.contributions(*scoring, pivot, length);
        let n: usize = source.terms.len();
        let mut counts: Vec<Option<u64>> = Vec::new();
        let mut values: Vec<Option<u32>> = Vec::new();
        let mut i: usize = 0;
        while i < n
            invariant
                self.valid(),
                self.source == source,
                n == source.terms.len(),
                i <= n,
                counts.len() == i,
                values.len() == i,
                forall|j: int|
                    0 <= j < i ==> #[trigger] counts[j] == (if self.current_at(j) == Some(pivot) {
                        Some(self.source.terms[j].count as u64)
                    } else {
                        None
                    }),
                forall|j: int| 0 <= j < i ==> #[trigger] values[j] is None,
            decreases n - i,
        {
            let mut count: Option<u64> = None;
            if let Some(tid) = self.current(i) {
                if tid == pivot {
                    count = Some(source.terms[i].count as u64);
                }
            }
            counts.push(count);
            values.push(None);
            i = i + 1;
        }
        let pending = order_by_key(&counts);
        let pruning = self.threshold().is_some();
        proof {
            assert(self.is_pending(pivot, counts@, pending@));
            let held = choose|j: int|
                0 <= j < self.source.terms.len() && #[trigger] self.current_at(j) == Some(pivot);
            assert(counts[held] is Some);
            assert(pending@.contains(held as usize));
            assert forall|j: int| 0 <= j < n implies (#[trigger] exact[j] is Some <==> counts[j] is Some)
                && (exact[j] is Some ==> self.current_at(j) == Some(pivot) && exact[j] == Some(
                scoring.contribution(
                    source.terms[j].slot,
                    source.terms[j].postings[self.at[j] as int].frequency,
                    length,
                ),
            )) by {
                assert(self.passed_exactly(j, pivot.key()));
                self.lemma_present(j, pivot);
                assert(counts[j] is Some <==> self.current_at(j) == Some(pivot));
            }
        }
        if pruning {
            let mut x: usize = 0;
            while x < pending.len()
                invariant
                    self.valid(),
                    self.source == source,
                    self.scoring == scoring,
                    n == source.terms.len(),
                    x <= pending.len(),
                    values.len() == n,
                    counts.len() == n,
                    exact.len() == n,
                    self.is_pending(pivot, counts@, pending@),
                    self.aligned(pivot.key()),
                    ordinal < source.documents.len(),
                    source.documents[ordinal as int] == document,
                    document.tid == pivot,
                    document.length == length,
                    forall|j: int|
                        0 <= j < n && #[trigger] counts[j] is Some ==> self.current_at(j) == Some(
                            pivot,
                        ) && self.cached_holds(j, pivot.key(), pivot.key()),
                    forall|j: int|
                        0 <= j < n ==> (#[trigger] exact[j] is Some ==> exact[j] == Some(
                            scoring.contribution(
                                source.terms[j].slot,
                                source.terms[j].postings[self.at[j] as int].frequency,
                                length,
                            ),
                        )),
                    forall|j: int| 0 <= j < n ==> (#[trigger] exact[j] is Some <==> counts[j] is Some),
                    all_scores(values@),
                    forall|j: int|
                        0 <= j < n && #[trigger] exact[j] is None ==> values[j] is None,
                    forall|y: int|
                        0 <= y < x ==> values[(#[trigger] pending[y]) as int] == Some(
                            self.upper_at(document, pending[y] as int),
                        ),
                    forall|y: int|
                        0 <= y < x ==> values[(#[trigger] pending[y]) as int] is Some
                            && exact[pending[y] as int]->0 <= values[pending[y] as int]->0,
                decreases pending.len() - x,
            {
                let i: usize = pending[x];
                assert(counts[i as int] is Some);
                assert(self.cached_holds(i as int, pivot.key(), pivot.key()));
                assert(exact[i as int] is Some);
                proof {
                    assert(self.passed_exactly(i as int, pivot.key()));
                    self.lemma_cached_is(i as int, pivot);
                    self.lemma_length_bound(i as int, ordinal as int);
                }
                if let Some((block, _)) = self.cached[i] {
                    let slot: usize = source.terms[i].slot;
                    let bound: u32 = (scoring.at_length)(slot, block, length);
                    values.set(i, Some(bound));
                    assert(values[i as int] == Some(self.upper_at(document, i as int)));
                }
                x = x + 1;
            }
            proof {
                assert forall|j: int| #![trigger values[j]] #![trigger exact[j]]
                    0 <= j < n implies (exact[j] matches Some(low) ==> (values[j] matches Some(
                    high,
                ) && low <= high)) by {
                    if exact[j] is Some {
                        assert(counts[j] is Some);
                        let y = choose|y: int| 0 <= y < pending.len() && pending[y] == j as usize;
                        assert(values[pending[y] as int] is Some);
                    }
                }
                assert(covers(values@, exact));
                assert forall|j: int|
                    0 <= j < values.len() && counts[j] is None implies #[trigger] values[j] is None by {
                    assert(exact[j] is None);
                }
                self.lemma_partly(document, counts@, pending@, values@, 0);
            }
            let optimistic: u32 = scoring.fold(&values);
            if !self.can_beat(optimistic, pivot) {
                proof {
                    self.lemma_bound_excludes(values@, document, pivot);
                    self.lemma_abandoned(document, counts@, pending@, 0);
                }
                return;
            }
        }
        let mut x: usize = 0;
        while x < pending.len()
            invariant
                self.valid(),
                self.source == source,
                self.scoring == scoring,
                *self == *old(self),
                n == source.terms.len(),
                x <= pending.len(),
                values.len() == n,
                counts.len() == n,
                exact == source.contributions(*scoring, pivot, length),
                self.is_pending(pivot, counts@, pending@),
                self.aligned(pivot.key()),
                pending.len() > 0,
                pruning == (self.best.len() == self.k),
                source.document_of(pivot) == document,
                pruning ==> forall|y: int|
                    x <= y < pending.len() ==> values[(#[trigger] pending[y]) as int] == Some(
                        self.upper_at(document, pending[y] as int),
                    ),
                pruning ==> forall|y: int|
                    0 <= y <= x && y < pending.len() ==> enters(
                        self.k as nat,
                        self.best@,
                        scoring.total(
                            source.partly_decoded(
                                *scoring,
                                document,
                                (#[trigger] pending[y]) as int,
                            ),
                        ),
                        pivot,
                    ),
                ordinal < source.documents.len(),
                source.documents[ordinal as int] == document,
                documents_unique(source.documents@, pivot),
                !source.dead@.contains(pivot),
                document.tid == pivot,
                document.length == length,
                forall|j: int|
                    0 <= j < n && #[trigger] counts[j] is Some ==> self.current_at(j) == Some(
                        pivot,
                    ),
                forall|j: int|
                    0 <= j < n ==> (#[trigger] exact[j] is Some ==> exact[j] == Some(
                        scoring.contribution(
                            source.terms[j].slot,
                            source.terms[j].postings[self.at[j] as int].frequency,
                            length,
                        ),
                    )),
                forall|j: int| 0 <= j < n ==> (#[trigger] exact[j] is Some <==> counts[j] is Some),
                all_scores(values@),
                pruning ==> covers(values@, exact),
                forall|j: int| 0 <= j < n && #[trigger] exact[j] is None ==> values[j] is None,
                forall|y: int|
                    0 <= y < x ==> values[(#[trigger] pending[y]) as int]
                        == exact[pending[y] as int],
            decreases pending.len() - x,
        {
            let i: usize = pending[x];
            assert(counts[i as int] is Some);
            assert(exact[i as int] is Some);
            let term = &source.terms[i];
            assert(self.current_at(i as int) == Some(pivot));
            let posting = term.postings[self.at[i]];
            let value: u32 = (scoring.exact)(term.slot, posting.frequency, length);
            assert(is_score(scoring.contribution(term.slot, posting.frequency, length))) by {
                reveal(Scoring::sound);
            }
            let ghost before = values@;
            values.set(i, Some(value));
            proof {
                if pruning {
                    assert forall|j: int| #![trigger values[j]] #![trigger exact[j]]
                        0 <= j < n implies (exact[j] matches Some(low) ==> (values[j] matches Some(
                        high,
                    ) && low <= high)) by {
                        if j != i {
                            assert(values[j] == before[j]);
                        }
                    }
                }
            }
            if x + 1 < pending.len() && pruning {
                proof {
                    assert forall|j: int|
                        0 <= j < values.len() && counts[j] is None implies #[trigger] values[j] is None by {
                        assert(exact[j] is None);
                    }
                    self.lemma_partly(document, counts@, pending@, values@, x + 1);
                }
                let optimistic: u32 = scoring.fold(&values);
                if !self.can_beat(optimistic, pivot) {
                    proof {
                        self.lemma_bound_excludes(values@, document, pivot);
                        self.lemma_abandoned(document, counts@, pending@, x + 1);
                    }
                    return;
                }
            }
            x = x + 1;
        }
        proof {
            assert forall|j: int| 0 <= j < n implies values[j] == exact[j] by {
                if exact[j] is Some {
                    assert(counts[j] is Some);
                    let y = choose|y: int| 0 <= y < pending.len() && pending[y] == j as usize;
                    assert(values[pending[y] as int] == exact[pending[y] as int]);
                }
            }
            assert(values@ =~= exact);
            if pruning {
                self.lemma_kept(document, counts@, pending@);
            }
        }
        let total: u32 = scoring.fold(&values);
        self.scored = self.scored + 1;
        offer(self.k, &mut self.best, Row { score: total, tid: pivot });
    }

    /// The block holding posting `q` of term `i`, at `b` or later.
    proof fn lemma_block_from(self, i: int, q: int, b: int) -> (found: int)
        requires
            self.valid(),
            0 <= i < self.source.terms.len(),
            0 <= q < self.source.terms[i].postings.len(),
            0 <= b < self.source.terms[i].blocks.len(),
            b > 0 ==> self.source.terms[i].blocks[b - 1].last.key()
                < self.source.terms[i].postings[q].tid.key(),
        ensures
            holds(self.source.terms[i].blocks@, found, self.source.terms[i].postings[q].tid.key()),
        decreases self.source.terms[i].blocks.len() - b,
    {
        let term = self.source.terms[i];
        assert(term.ordered(self.max_offset));
        reveal(TermPostings::ordered);
        let end: int = term.postings.len() - 1;
        assert(q < end ==> term.postings[q].tid.key() < term.postings[end].tid.key());
        if term.postings[q].tid.key() <= term.blocks[b].last.key() {
            b
        } else {
            self.lemma_block_from(i, q, b + 1)
        }
    }

    /// What the bound on term `i` anywhere in the source covers.
    proof fn lemma_term_max(self, i: int, d: int)
        requires
            self.valid(),
            0 <= i < self.source.terms.len(),
            0 <= d < self.source.documents.len(),
        ensures
            self.source.terms[i].posting_at(self.source.documents[d].tid) matches Some(posting)
                ==> self.scoring.contribution(
                self.source.terms[i].slot,
                posting.frequency,
                self.source.documents[d].length,
            ) <= self.term_max[i],
            is_score(self.term_max[i]),
    {
        reveal(Source::bounds_hold);
        reveal(Scoring::sound);
        let term = self.source.terms[i];
        let tid = self.source.documents[d].tid;
        if term.posting_at(tid) is Some {
            let q = choose|q: int| 0 <= q < term.postings.len() && #[trigger] term.postings[q].tid == tid;
            assert(term.blocks.len() > 0);
            let b = self.lemma_block_from(i, q, 0);
            assert(self.source.terms[i].blocks[b] == term.blocks[b]);
            assert(self.source.terms[i].postings[q].tid == self.source.documents[d].tid);
            assert(self.source.bounded(*self.scoring, i, q, b, self.source.documents[d].length));
        }
        assert(self.term_max[i] == self.scoring.block_bound(term.slot, term.whole));
    }

    /// The bounds of the first `upto` terms of `order`.
    spec fn prefix(self, order: Seq<usize>, upto: int) -> Seq<Option<u32>> {
        Seq::new(
            self.source.terms.len() as nat,
            |i: int|
                if order.take(upto).contains(i as usize) {
                    Some(self.term_max[i])
                } else {
                    None
                },
        )
    }

    proof fn lemma_prefix_push(self, order: Seq<usize>, j: int)
        requires
            0 <= j < order.len(),
            order[j] < self.source.terms.len(),
        ensures
            self.prefix(order, j + 1) == self.prefix(order, j).update(
                order[j] as int,
                Some(self.term_max[order[j] as int]),
            ),
    {
        let head = order.take(j);
        let longer = order.take(j + 1);
        assert(longer =~= head.push(order[j]));
        assert forall|t: usize| t != order[j] implies (head.contains(t) <==> longer.contains(t)) by {
            if head.contains(t) {
                let x = choose|x: int| 0 <= x < head.len() && head[x] == t;
                assert(longer[x] == t);
            }
            if longer.contains(t) {
                let x = choose|x: int| 0 <= x < longer.len() && longer[x] == t;
                assert(head[x] == t);
            }
        }
        assert(longer[j] == order[j]);
        assert(self.prefix(order, j + 1) =~= self.prefix(order, j).update(
            order[j] as int,
            Some(self.term_max[order[j] as int]),
        ));
    }

    /// A document all of whose terms are among the first `upto` of `order`
    /// scores at most the sum of their bounds.
    proof fn lemma_prefix_covers(self, order: Seq<usize>, upto: int, frontier: int, d: int)
        requires
            self.valid(),
            self.is_order(order),
            self.aligned(frontier),
            0 <= upto <= order.len(),
            0 <= d < self.source.documents.len(),
            frontier <= self.source.documents[d].tid.key(),
            forall|x: int|
                upto <= x < order.len() ==> self.source.documents[d].tid.key() < self.current_at(
                    (#[trigger] order[x]) as int,
                )->0.key(),
        ensures
            covers(
                self.prefix(order, upto),
                self.source.contributions(
                    *self.scoring,
                    self.source.documents[d].tid,
                    self.source.documents[d].length,
                ),
            ),
            all_scores(self.prefix(order, upto)),
    {
        let document = self.source.documents[d];
        let upper = self.prefix(order, upto);
        let lower = self.source.contributions(*self.scoring, document.tid, document.length);
        assert forall|i: int| #![trigger upper[i]] #![trigger lower[i]]
            0 <= i < lower.len() implies (lower[i] matches Some(low) ==> (upper[i] matches Some(
            high,
        ) && low <= high)) by {
            if lower[i] is Some {
                self.lemma_term_max(i, d);
                let term = self.source.terms[i];
                let q = choose|q: int|
                    0 <= q < term.postings.len() && #[trigger] term.postings[q].tid == document.tid;
                assert(self.passed_exactly(i, frontier));
                assert(!(q < self.at[i]));
                assert(self.current_at(i) is Some);
                assert(term.ordered(self.max_offset));
                reveal(TermPostings::ordered);
                assert(self.current_at(i)->0.key() <= document.tid.key()) by {
                    if self.at[i] < q {
                        assert(term.postings[self.at[i] as int].tid.key()
                            < term.postings[q].tid.key());
                    }
                }
                assert(order.contains(i as usize));
                let x = choose|x: int| 0 <= x < order.len() && order[x] == i as usize;
                assert(x < upto) by {
                    if upto <= x {
                        assert(document.tid.key() < self.current_at(order[x] as int)->0.key());
                    }
                }
                assert(order.take(upto)[x] == i as usize);
            }
        }
        assert forall|i: int| 0 <= i < upper.len() implies (#[trigger] upper[i] matches Some(value)
            ==> is_score(value)) by {
            self.lemma_term_max(i, d);
        }
    }

    /// No document before the location the cursor of `order[upto]` stands on
    /// can enter, when the bounds of the terms before it do not reach the
    /// last row's score.
    proof fn lemma_prefix_excludes(
        self,
        order: Seq<usize>,
        upto: int,
        frontier: int,
        end: int,
    )
        requires
            self.valid(),
            self.is_order(order),
            self.aligned(frontier),
            0 <= upto <= order.len(),
            upto > 0 ==> self.best.len() == self.k && number_order(
                self.scoring.total(self.prefix(order, upto)),
            ) < number_order(self.best@.last().score),
            forall|x: int|
                upto <= x < order.len() ==> end <= self.current_at(
                    (#[trigger] order[x]) as int,
                )->0.key(),
        ensures
            self.none_enter(Combine::Any, frontier, end),
    {
        assert forall|d: int|
            #![trigger self.source.documents[d]]
            0 <= d < self.source.documents.len() && frontier <= self.source.documents[d].tid.key()
                < end && self.source.is_candidate(
                Combine::Any,
                self.source.documents[d].tid,
            ) implies !enters(
            self.k as nat,
            self.best@,
            self.source.score_of(*self.scoring, self.source.documents[d]),
            self.source.documents[d].tid,
        ) by {
            let document = self.source.documents[d];
            self.lemma_prefix_covers(order, upto, frontier, d);
            let lower = self.source.contributions(*self.scoring, document.tid, document.length);
            if upto == 0 {
                let i = choose|i: int|
                    0 <= i < self.source.terms.len() && #[trigger] self.source.terms[i].posting_at(
                        document.tid,
                    ) is Some;
                assert(lower[i] is Some);
                assert(self.prefix(order, 0)[i] is Some);
                assert(order.take(0).contains(i as usize));
            } else {
                law_bounds_cover_sums(*self.scoring, self.prefix(order, upto), lower);
            }
        }
    }

    /// The location a cursor stands on is its term's next.
    proof fn lemma_next(self, i: int, frontier: int)
        requires
            self.valid(),
            0 <= i < self.source.terms.len(),
            self.passed_exactly(i, frontier),
        ensures
            self.source.terms[i].next_at(frontier) == self.current_at(i),
    {
        let term = self.source.terms[i];
        assert(self.at[i] <= term.postings.len());
        if self.at[i] < term.postings.len() {
            assert(!(term.postings[self.at[i] as int].tid.key() < frontier));
        }
        lemma_first_from(term.postings@, frontier, 0, self.at[i] as int);
    }

    /// The last place in `order` on the location that place `x` is on.
    proof fn lemma_group(self, order: Seq<usize>, x: int) -> (e: int)
        requires
            self.is_order(order),
            0 <= x < order.len(),
        ensures
            x <= e < order.len(),
            self.current_at(order[e] as int) == self.current_at(order[x] as int),
            forall|y: int|
                e < y < order.len() ==> self.current_at(order[e] as int)->0.key()
                    < self.current_at((#[trigger] order[y]) as int)->0.key(),
        decreases order.len() - x,
    {
        if x + 1 < order.len() {
            let a = self.current_at(order[x] as int)->0;
            let b = self.current_at(order[x + 1] as int)->0;
            assert(a.key() <= b.key());
            if a == b {
                return self.lemma_group(order, x + 1);
            }
            crate::tid::lemma_key_injective(a, b);
            assert forall|y: int| x < y < order.len() implies a.key() < self.current_at(
                (#[trigger] order[y]) as int,
            )->0.key() by {
                if x + 1 < y {
                    assert(b.key() <= self.current_at(order[y] as int)->0.key());
                }
            }
        }
        x
    }

    /// The bounds of the cursors through the last one on a location are those
    /// of the terms in reach of it.
    proof fn lemma_prefix_reach(self, order: Seq<usize>, e: int, frontier: int)
        requires
            self.valid(),
            self.is_order(order),
            self.aligned(frontier),
            0 <= e < order.len(),
            forall|y: int|
                e < y < order.len() ==> self.current_at(order[e] as int)->0.key()
                    < self.current_at((#[trigger] order[y]) as int)->0.key(),
        ensures
            self.prefix(order, e + 1) == self.source.reach_values(
                *self.scoring,
                frontier,
                self.current_at(order[e] as int)->0.key(),
            ),
    {
        let to = self.current_at(order[e] as int)->0.key();
        let values = self.source.reach_values(*self.scoring, frontier, to);
        let head = order.take(e + 1);
        assert forall|i: int| 0 <= i < values.len() implies self.prefix(order, e + 1)[i]
            == values[i] by {
            assert(self.passed_exactly(i, frontier));
            self.lemma_next(i, frontier);
            assert(self.term_max[i] == self.scoring.block_bound(
                self.source.terms[i].slot,
                self.source.terms[i].whole,
            ));
            if head.contains(i as usize) {
                let x = choose|x: int| 0 <= x < head.len() && head[x] == i as usize;
                assert(order[x] == i as usize);
                assert(self.current_at(order[x] as int) is Some);
                if x < e {
                    assert(self.current_at(order[x] as int)->0.key() <= self.current_at(
                        order[e] as int,
                    )->0.key());
                }
                assert(self.source.in_reach(i, frontier, to));
            } else if self.source.in_reach(i, frontier, to) {
                assert(order.contains(i as usize));
                let x = choose|x: int| 0 <= x < order.len() && order[x] == i as usize;
                if x <= e {
                    assert(head[x] == i as usize);
                } else {
                    assert(to < self.current_at(order[x] as int)->0.key());
                }
            }
        }
        assert(self.prefix(order, e + 1) =~= values);
    }

    /// More terms reach no less far.
    proof fn lemma_prefix_grows(self, order: Seq<usize>, a: int, b: int)
        requires
            self.valid(),
            0 <= a <= b <= order.len(),
        ensures
            number_order(self.scoring.total(self.prefix(order, a))) <= number_order(
                self.scoring.total(self.prefix(order, b)),
            ),
    {
        let lower = self.prefix(order, a);
        let upper = self.prefix(order, b);
        assert forall|i: int| #![trigger upper[i]] #![trigger lower[i]]
            0 <= i < lower.len() implies (lower[i] matches Some(low) ==> (upper[i] matches Some(
            high,
        ) && low <= high)) by {
            if lower[i] is Some {
                let x = choose|x: int|
                    0 <= x < order.take(a).len() && order.take(a)[x] == i as usize;
                assert(order.take(b)[x] == i as usize);
            }
        }
        assert forall|i: int| 0 <= i < upper.len() implies (#[trigger] upper[i] matches Some(value)
            ==> is_score(value)) by {
            assert(self.term_max[i] == self.scoring.block_bound(
                self.source.terms[i].slot,
                self.source.terms[i].whole,
            ));
            reveal(Scoring::sound);
        }
        law_bounds_cover_sums(*self.scoring, upper, lower);
    }

    /// Locations whose cursors are all among the first `low` of `order` are
    /// out of reach, when those together are.
    proof fn lemma_out_of_reach(self, order: Seq<usize>, low: int, frontier: int, i: int, end: int)
        requires
            self.valid(),
            self.is_order(order),
            self.aligned(frontier),
            0 <= low <= order.len(),
            low > 0 ==> self.best.len() == self.k && number_order(
                self.scoring.total(self.prefix(order, low)),
            ) < number_order(self.best@.last().score),
            forall|x: int|
                low <= x < order.len() ==> end <= self.current_at(
                    (#[trigger] order[x]) as int,
                )->0.key(),
            0 <= i < self.source.terms.len(),
            self.source.terms[i].next_at(frontier) is Some,
            self.source.terms[i].next_at(frontier)->0.key() < end,
        ensures
            !self.source.reaches(
                *self.scoring,
                self.k as nat,
                self.best@,
                frontier,
                self.source.terms[i].next_at(frontier)->0.key(),
            ),
    {
        assert(self.passed_exactly(i, frontier));
        self.lemma_next(i, frontier);
        assert(order.contains(i as usize));
        let x = choose|x: int| 0 <= x < order.len() && order[x] == i as usize;
        let e = self.lemma_group(order, x);
        assert(self.current_at(order[e] as int) == self.current_at(i));
        assert(e < low) by {
            if low <= e {
                assert(end <= self.current_at(order[e] as int)->0.key());
            }
        }
        self.lemma_prefix_reach(order, e, frontier);
        self.lemma_prefix_grows(order, e + 1, low);
    }

    /// The first location in reach is the pivot.
    proof fn lemma_is_pivot(self, order: Seq<usize>, low: int, j: int, frontier: int)
        requires
            self.valid(),
            self.is_order(order),
            self.aligned(frontier),
            0 <= low <= j < order.len(),
            low > 0 ==> self.best.len() == self.k && number_order(
                self.scoring.total(self.prefix(order, low)),
            ) < number_order(self.best@.last().score),
            forall|x: int|
                low <= x < order.len() ==> self.current_at(order[j] as int)->0.key()
                    <= self.current_at((#[trigger] order[x]) as int)->0.key(),
            self.best.len() != self.k || number_order(
                self.scoring.total(self.prefix(order, j + 1)),
            ) >= number_order(self.best@.last().score),
        ensures
            self.source.pivot_of(*self.scoring, self.k as nat, self.best@, frontier)
                == self.current_at(order[j] as int),
    {
        let i = order[j] as int;
        assert(self.current_at(order[j] as int) is Some);
        let pivot = self.current_at(i)->0;
        assert(self.passed_exactly(i, frontier));
        self.lemma_next(i, frontier);
        let e = self.lemma_group(order, j);
        self.lemma_prefix_reach(order, e, frontier);
        self.lemma_prefix_grows(order, j + 1, e + 1);
        let (k, best) = (self.k as nat, self.best@);
        assert forall|i: int|
            0 <= i < self.source.terms.len() implies (#[trigger] self.source.terms[i].next_at(
            frontier,
        ) matches Some(tid) ==> tid.key() < pivot.key() ==> !self.source.reaches(
            *self.scoring,
            k,
            best,
            frontier,
            tid.key(),
        )) by {
            if self.source.terms[i].next_at(frontier) is Some
                && self.source.terms[i].next_at(frontier)->0.key() < pivot.key() {
                self.lemma_out_of_reach(order, low, frontier, i, pivot.key());
            }
        }
        assert(self.source.terms[i].next_at(frontier) == Some(pivot));
        self.source.lemma_pivot_of(*self.scoring, k, best, frontier, pivot);
    }

    /// There is no pivot when all terms together are out of reach.
    proof fn lemma_no_pivot(self, order: Seq<usize>, frontier: int)
        requires
            self.valid(),
            self.is_order(order),
            self.aligned(frontier),
            order.len() > 0 ==> self.best.len() == self.k && number_order(
                self.scoring.total(self.prefix(order, order.len() as int)),
            ) < number_order(self.best@.last().score),
        ensures
            self.source.pivot_of(*self.scoring, self.k as nat, self.best@, frontier) is None,
    {
        let (k, best) = (self.k as nat, self.best@);
        assert forall|pivot: Tid| !self.source.is_pivot(
            *self.scoring,
            k,
            best,
            frontier,
            pivot,
        ) by {
            if self.source.is_pivot(*self.scoring, k, best, frontier, pivot) {
                let i = choose|i: int|
                    0 <= i < self.source.terms.len() && #[trigger] self.source.terms[i].next_at(
                        frontier,
                    ) == Some(pivot);
                self.lemma_out_of_reach(
                    order,
                    order.len() as int,
                    frontier,
                    i,
                    pivot.key() + 1,
                );
            }
        }
    }

    /// The place in `order` of the pivot: the last cursor on the first
    /// location at which the terms up to it could together reach the last
    /// row's score. `None` when even all terms together cannot.
    fn pivot(&self, order: &Vec<usize>, Ghost(frontier): Ghost<int>) -> (place: Option<usize>)
        requires
            self.valid(),
            self.is_order(order@),
            self.aligned(frontier),
        ensures
            match place {
                Some(p) => {
                    &&& p < order.len()
                    &&& self.source.pivot_of(
                        *self.scoring,
                        self.k as nat,
                        self.best@,
                        frontier,
                    ) == self.current_at(order[p as int] as int)
                    &&& forall|x: int|
                        p < x < order.len() ==> self.current_at(order[p as int] as int)->0.key()
                            < self.current_at((#[trigger] order[x]) as int)->0.key()
                    &&& self.none_enter(
                        Combine::Any,
                        frontier,
                        self.current_at(order[p as int] as int)->0.key(),
                    )
                },
                None => {
                    &&& self.source.pivot_of(
                        *self.scoring,
                        self.k as nat,
                        self.best@,
                        frontier,
                    ) is None
                    &&& forall|end: int| self.none_enter(Combine::Any, frontier, end)
                },
            },
    {
        let n: usize = self.source.terms.len();
        // At small widths the sum is cheap; avoid the extra comparison there.
        let group = n >= 32;
        let threshold = self.threshold();
        let mut values: Vec<Option<u32>> = Vec::new();
        let mut i: usize = 0;
        while i < n
            invariant
                i <= n,
                values.len() == i,
                forall|j: int| 0 <= j < i ==> #[trigger] values[j] is None,
            decreases n - i,
        {
            values.push(None);
            i = i + 1;
        }
        assert(values@ =~= self.prefix(order@, 0)) by {
            assert(order@.take(0) =~= Seq::empty());
        }
        let mut j: usize = 0;
        let ghost mut low: int = 0;
        while j < order.len()
            invariant
                self.valid(),
                self.is_order(order@),
                self.aligned(frontier),
                n == self.source.terms.len(),
                values@ == self.prefix(order@, j as int),
                0 <= low <= j <= order.len(),
                threshold == (if self.best.len() == self.k {
                    Some(self.best@.last())
                } else {
                    None
                }),
                low > 0 ==> self.best.len() == self.k && number_order(
                    self.scoring.total(self.prefix(order@, low)),
                ) < number_order(self.best@.last().score),
                j == order.len() ==> low == j,
                forall|x: int|
                    low <= x < j && j < order.len() ==> self.current_at((#[trigger] order[x]) as int)
                        == self.current_at(order[j as int] as int),
            decreases order.len() - j,
        {
            let i: usize = order[j];
            assert(self.current_at(order[j as int] as int) is Some);
            values.set(i, Some(self.term_max[i]));
            proof {
                self.lemma_prefix_push(order@, j as int);
                assert(values@ =~= self.prefix(order@, j + 1));
            }
            // Every cursor at one location is included before the location is
            // judged: no shorter prefix can select a different pivot.
            let mut more = false;
            if group && j + 1 < order.len() {
                assert(self.current_at(order[j + 1] as int) is Some);
                if let (Some(a), Some(b)) = (self.current(order[j + 1]), self.current(i)) {
                    more = a == b;
                }
            }
            if !more {
                let reach: u32 = self.scoring.fold(&values);
                let found = match threshold {
                    Some(last) => place_of(reach) >= place_of(last.score),
                    None => true,
                };
                if found {
                    proof {
                        let end = self.current_at(order[j as int] as int)->0.key();
                        assert forall|x: int| low <= x < order.len() implies end
                            <= self.current_at((#[trigger] order[x]) as int)->0.key() by {
                            if x > j {
                                assert(self.current_at(order[j as int] as int)->0.key()
                                    <= self.current_at(order[x] as int)->0.key());
                            }
                        }
                        self.lemma_prefix_excludes(order@, low, frontier, end);
                        self.lemma_is_pivot(order@, low, j as int, frontier);
                    }
                    return Some(self.group_end(order, j));
                }
                proof {
                    low = j + 1;
                }
            }
            j = j + 1;
        }
        proof {
            assert forall|end: int| self.none_enter(Combine::Any, frontier, end) by {
                self.lemma_prefix_excludes(order@, low, frontier, end);
            }
            self.lemma_no_pivot(order@, frontier);
        }
        None
    }

    /// The last place in `order` on the location that place `from` is on.
    fn group_end(&self, order: &Vec<usize>, from: usize) -> (end: usize)
        requires
            self.at.len() == self.source.terms.len(),
            self.is_order(order@),
            from < order.len(),
        ensures
            from <= end < order.len(),
            self.current_at(order[end as int] as int) == self.current_at(order[from as int] as int),
            forall|x: int|
                end < x < order.len() ==> self.current_at(order[end as int] as int)->0.key()
                    < self.current_at((#[trigger] order[x]) as int)->0.key(),
    {
        let mut end: usize = from;
        while end + 1 < order.len()
            invariant
                self.at.len() == self.source.terms.len(),
                self.is_order(order@),
                from <= end < order.len(),
                self.current_at(order[end as int] as int) == self.current_at(
                    order[from as int] as int,
                ),
            decreases order.len() - end,
        {
            assert(self.current_at(order[end as int] as int) is Some);
            assert(self.current_at(order[end + 1] as int) is Some);
            let same = match (self.current(order[end]), self.current(order[end + 1])) {
                (Some(a), Some(b)) => a == b,
                _ => false,
            };
            if !same {
                proof {
                    let a = self.current_at(order[end as int] as int)->0;
                    let b = self.current_at(order[end + 1] as int)->0;
                    assert(a.key() <= b.key());
                    crate::tid::lemma_key_injective(a, b);
                    assert forall|x: int| end < x < order.len() implies a.key() < self.current_at(
                        (#[trigger] order[x]) as int,
                    )->0.key() by {
                        if x > end + 1 {
                            assert(b.key() <= self.current_at(order[x] as int)->0.key());
                        }
                    }
                }
                return end;
            }
            end = end + 1;
        }
        end
    }

    /// What the cached block of term `i` says of a posting it holds.
    proof fn lemma_cached_bound(self, i: int, d: int, from: int, to: int)
        requires
            self.valid(),
            0 <= i < self.source.terms.len(),
            0 <= d < self.source.documents.len(),
            self.cached_holds(i, from, to),
            from <= self.source.documents[d].tid.key() <= to,
        ensures
            self.source.terms[i].posting_at(self.source.documents[d].tid) matches Some(posting)
                ==> {
                let value = self.scoring.contribution(
                    self.source.terms[i].slot,
                    posting.frequency,
                    self.source.documents[d].length,
                );
                let block = (self.cached[i]->0).0;
                &&& value <= (self.cached[i]->0).1
                &&& block.shortest <= self.source.documents[d].length
                &&& forall|m: u32|
                    m <= self.source.documents[d].length ==> value
                        <= #[trigger] self.scoring.bound_with_min_length(
                        self.source.terms[i].slot,
                        block,
                        m,
                    )
            },
            is_score((self.cached[i]->0).1),
    {
        reveal(Walk::cached_holds);
        reveal(Source::bounds_hold);
        reveal(Scoring::sound);
        let term = self.source.terms[i];
        let tid = self.source.documents[d].tid;
        let b = choose|b: int|
            #![trigger term.blocks[b]]
            0 <= b < term.blocks.len() && term.blocks[b] == (self.cached[i]->0).0 && forall|q: int|
                0 <= q < term.postings.len() && from <= (#[trigger] term.postings[q]).tid.key()
                    <= to ==> holds(term.blocks@, b, term.postings[q].tid.key());
        assert(self.cache_valid(i, self.cached[i]));
        if term.posting_at(tid) is Some {
            let q = choose|q: int| 0 <= q < term.postings.len() && #[trigger] term.postings[q].tid == tid;
            assert(holds(term.blocks@, b, term.postings[q].tid.key()));
            assert(self.source.terms[i].blocks[b] == (self.cached[i]->0).0);
            assert(self.source.terms[i].postings[q].tid == self.source.documents[d].tid);
            assert(self.source.bounded(*self.scoring, i, q, b, self.source.documents[d].length));
        }
    }

    /// The block bounds of the first `upto` terms of `order` cover what any
    /// document from `pivot` through `boundary` has of these terms.
    spec fn blocks_cover(
        self,
        order: Seq<usize>,
        upto: int,
        values: Seq<Option<u32>>,
        pivot: int,
        boundary: int,
    ) -> bool {
        &&& values.len() == self.source.terms.len()
        &&& all_scores(values)
        &&& forall|x: int, d: int|
            #![trigger order[x], self.source.documents[d]]
            0 <= x < upto && 0 <= d < self.source.documents.len() && pivot
                <= self.source.documents[d].tid.key() <= boundary ==> (
            self.source.terms[order[x] as int].posting_at(self.source.documents[d].tid) matches Some(
                posting,
            ) ==> (values[order[x] as int] matches Some(value) && self.scoring.contribution(
                self.source.terms[order[x] as int].slot,
                posting.frequency,
                self.source.documents[d].length,
            ) <= value))
    }

    /// No candidate from `pivot` up to `end` can enter when the block bounds
    /// there cannot.
    proof fn lemma_blocks_exclude(
        self,
        order: Seq<usize>,
        p: int,
        values: Seq<Option<u32>>,
        frontier: int,
        pivot: Tid,
        boundary: int,
        end: int,
    )
        requires
            self.valid(),
            self.is_order(order),
            self.aligned(frontier),
            0 <= p < order.len(),
            self.blocks_cover(order, p + 1, values, pivot.key(), boundary),
            !enters(self.k as nat, self.best@, self.scoring.total(values), pivot),
            frontier <= pivot.key(),
            forall|d: int|
                0 <= d < self.source.documents.len() && (
                #[trigger] self.source.documents[d]).tid.key() < end
                    ==> self.source.documents[d].tid.key() <= boundary,
            forall|x: int|
                p < x < order.len() ==> end <= self.current_at((#[trigger] order[x]) as int)->0.key(),
        ensures
            self.none_enter(Combine::Any, pivot.key(), end),
    {
        assert forall|d: int|
            #![trigger self.source.documents[d]]
            0 <= d < self.source.documents.len() && pivot.key()
                <= self.source.documents[d].tid.key() < end && self.source.is_candidate(
                Combine::Any,
                self.source.documents[d].tid,
            ) implies !enters(
            self.k as nat,
            self.best@,
            self.source.score_of(*self.scoring, self.source.documents[d]),
            self.source.documents[d].tid,
        ) by {
            let document = self.source.documents[d];
            let lower = self.source.contributions(*self.scoring, document.tid, document.length);
            assert forall|i: int| #![trigger values[i]] #![trigger lower[i]]
                0 <= i < lower.len() implies (lower[i] matches Some(low) ==> (
            values[i] matches Some(high) && low <= high)) by {
                if lower[i] is Some {
                    let x = self.lemma_place(order, frontier, i, document.tid);
                    assert(x <= p) by {
                        if p < x {
                            assert(end <= self.current_at(order[x] as int)->0.key());
                        }
                    }
                }
            }
            assert(covers(values, lower));
            self.lemma_bound_excludes(values, document, pivot);
        }
    }

    /// The place in `order` of a term present at a location not yet passed;
    /// its cursor stands no later than there.
    proof fn lemma_place(self, order: Seq<usize>, frontier: int, i: int, tid: Tid) -> (x: int)
        requires
            self.valid(),
            self.is_order(order),
            self.aligned(frontier),
            0 <= i < self.source.terms.len(),
            frontier <= tid.key(),
            self.source.terms[i].posting_at(tid) is Some,
        ensures
            0 <= x < order.len(),
            order[x] == i,
            self.current_at(i) is Some,
            self.current_at(i)->0.key() <= tid.key(),
    {
        let term = self.source.terms[i];
        let q = choose|q: int| 0 <= q < term.postings.len() && #[trigger] term.postings[q].tid == tid;
        assert(self.passed_exactly(i, frontier));
        assert(!(q < self.at[i]));
        assert(self.current_at(i) is Some);
        assert(term.ordered(self.max_offset));
        reveal(TermPostings::ordered);
        if self.at[i] < q {
            assert(term.postings[self.at[i] as int].tid.key() < term.postings[q].tid.key());
        }
        assert(order.contains(i as usize));
        choose|x: int| 0 <= x < order.len() && order[x] == i as usize
    }

    /// The terms in reach of the pivot are those up to its place in `order`.
    proof fn lemma_in_reach(
        self,
        order: Seq<usize>,
        p: int,
        frontier: int,
        pivot: Tid,
        i: int,
    ) -> (y: int)
        requires
            self.valid(),
            self.is_order(order),
            self.aligned(frontier),
            0 <= p < order.len(),
            self.current_at(order[p] as int) == Some(pivot),
            forall|x: int|
                p < x < order.len() ==> pivot.key() < self.current_at(
                    (#[trigger] order[x]) as int,
                )->0.key(),
            0 <= i < self.source.terms.len(),
        ensures
            self.source.in_reach(i, frontier, pivot.key()) <==> 0 <= y <= p,
            0 <= y <= p ==> order[y] == i,
            self.source.in_reach(i, frontier, pivot.key()) <==> (exists|x: int|
                0 <= x <= p && #[trigger] order[x] == i),
            !(0 <= y <= p) ==> (self.current_at(i) is None || (p < y < order.len() && order[y]
                == i)),
    {
        assert(self.passed_exactly(i, frontier));
        self.lemma_next(i, frontier);
        assert forall|x: int| 0 <= x <= p && #[trigger] order[x] == i implies self.source.in_reach(
            i,
            frontier,
            pivot.key(),
        ) by {
            assert(self.current_at(order[x] as int) is Some);
            if x < p {
                assert(self.current_at(order[x] as int)->0.key() <= self.current_at(
                    order[p] as int,
                )->0.key());
            }
        }
        if self.current_at(i) is Some {
            assert(order.contains(i as usize));
            let y = choose|y: int| 0 <= y < order.len() && order[y] == i as usize;
            assert(order[y] == i);
            if p < y {
                assert(pivot.key() < self.current_at(order[y] as int)->0.key());
            }
            y
        } else {
            -1
        }
    }

    /// The bound of term `i` within its block at `pivot`.
    spec fn block_value(self, i: int, pivot: int) -> Option<u32> {
        match self.source.terms[i].block_from(pivot) {
            Some(block) => Some(self.scoring.block_bound(self.source.terms[i].slot, block)),
            None => None,
        }
    }

    /// `boundary` is the nearest end of the blocks at `pivot` of the first
    /// `upto` terms of `order`.
    spec fn is_boundary(
        self,
        order: Seq<usize>,
        upto: int,
        pivot: int,
        boundary: Option<Tid>,
    ) -> bool {
        &&& boundary matches Some(end) ==> exists|y: int|
            0 <= y < upto && (self.source.terms[(#[trigger] order[y]) as int].block_from(
                pivot,
            ) matches Some(block) && block.last == end)
        &&& forall|y: int|
            0 <= y < upto ==> (self.source.terms[(#[trigger] order[y]) as int].block_from(
                pivot,
            ) matches Some(block) ==> boundary is Some && boundary->0.key() <= block.last.key())
    }

    proof fn lemma_range_known(
        self,
        order: Seq<usize>,
        p: int,
        frontier: int,
        pivot: Tid,
        values: Seq<Option<u32>>,
        end: Tid,
    )
        requires
            self.valid(),
            self.is_order(order),
            self.aligned(frontier),
            0 <= p < order.len(),
            self.current_at(order[p] as int) == Some(pivot),
            forall|x: int|
                p < x < order.len() ==> pivot.key() < self.current_at(
                    (#[trigger] order[x]) as int,
                )->0.key(),
            values.len() == self.source.terms.len(),
            forall|y: int|
                0 <= y <= p ==> values[(#[trigger] order[y]) as int] == self.block_value(
                    order[y] as int,
                    pivot.key(),
                ),
            forall|y: int| p < y < order.len() ==> values[(#[trigger] order[y]) as int] is None,
            forall|i: int|
                0 <= i < values.len() && self.current_at(i) is None ==> #[trigger] values[i] is None,
            self.is_boundary(order, p + 1, pivot.key(), Some(end)),
        ensures
            values == self.source.range_values(*self.scoring, frontier, pivot.key()),
            end == self.source.range_end(frontier, pivot.key()),
    {
        let known = self.source.range_values(*self.scoring, frontier, pivot.key());
        assert forall|i: int| 0 <= i < values.len() implies values[i] == known[i] by {
            let y = self.lemma_in_reach(order, p, frontier, pivot, i);
            if 0 <= y <= p {
                assert(values[order[y] as int] == self.block_value(i, pivot.key()));
            } else if p < y < order.len() {
                assert(values[order[y] as int] is None);
            }
        }
        assert(values =~= known);
        let x = choose|x: int|
            0 <= x < p + 1 && (self.source.terms[(#[trigger] order[x]) as int].block_from(
                pivot.key(),
            ) matches Some(block) && block.last == end);
        let near = order[x] as int;
        assert(order[x] == near);
        let z = self.lemma_in_reach(order, p, frontier, pivot, near);
        assert(self.source.in_reach(near, frontier, pivot.key()));
        assert(self.source.terms[near].block_from(pivot.key()) is Some);
        assert forall|i: int|
            0 <= i < self.source.terms.len() && self.source.in_reach(
                i,
                frontier,
                pivot.key(),
            ) implies (#[trigger] self.source.terms[i].block_from(pivot.key()) matches Some(block)
            ==> end.key() <= block.last.key()) by {
            let y = self.lemma_in_reach(order, p, frontier, pivot, i);
            assert(order[y] == i);
        }
        self.source.lemma_range_end(frontier, pivot.key(), end);
    }

    /// The block-level bound over the range that starts at the pivot, for the
    /// terms up to place `p`, and where the nearest of their blocks ends.
    fn range_bound(
        &mut self,
        order: &Vec<usize>,
        p: usize,
        pivot: Tid,
        Ghost(frontier): Ghost<int>,
    ) -> (range: (u32, Tid))
        requires
            old(self).valid(),
            old(self).is_order(order@),
            old(self).aligned(frontier),
            frontier <= pivot.key(),
            p < order.len(),
            old(self).current_at(order[p as int] as int) == Some(pivot),
            forall|x: int|
                p < x < order.len() ==> pivot.key() < old(self).current_at(
                    (#[trigger] order[x]) as int,
                )->0.key(),
        ensures
            final(self).valid(),
            final(self).same_rows(*old(self)),
            final(self).at == old(self).at,
            range.0 == old(self).scoring.total(
                old(self).source.range_values(*old(self).scoring, frontier, pivot.key()),
            ),
            range.1 == old(self).source.range_end(frontier, pivot.key()),
            pivot.key() <= range.1.key(),
            range.1.valid(old(self).max_offset),
            forall|i: int|
                0 <= i < old(self).source.terms.len() && #[trigger] final(self).current_at(i)
                    == Some(pivot) ==> final(self).cached_holds(i, pivot.key(), pivot.key()),
            exists|values: Seq<Option<u32>>| #[trigger]
                final(self).blocks_cover(order@, p + 1, values, pivot.key(), range.1.key())
                    && range.0 == final(self).scoring.total(values),
    {
        let n: usize = self.source.terms.len();
        let mut values: Vec<Option<u32>> = Vec::new();
        let mut i: usize = 0;
        while i < n
            invariant
                i <= n,
                values.len() == i,
                forall|j: int| 0 <= j < i ==> #[trigger] values[j] is None,
            decreases n - i,
        {
            values.push(None);
            i = i + 1;
        }
        let mut boundary: Option<Tid> = None;
        let mut x: usize = 0;
        while x <= p
            invariant
                self.valid(),
                self.same_rows(*old(self)),
                self.at == old(self).at,
                n == self.source.terms.len(),
                values.len() == n,
                self.is_order(order@),
                self.aligned(frontier),
                frontier <= pivot.key(),
                x <= p + 1,
                p < order.len(),
                self.current_at(order[p as int] as int) == Some(pivot),
                all_scores(values@),
                boundary matches Some(end) ==> pivot.key() <= end.key() && end.valid(
                    self.max_offset,
                ),
                x == p + 1 ==> boundary is Some,
                self.is_boundary(order@, x as int, pivot.key(), boundary),
                forall|j: int|
                    0 <= j < n && self.current_at(j) is None ==> #[trigger] values[j] is None,
                forall|y: int|
                    0 <= y < x ==> values[(#[trigger] order[y]) as int] == self.block_value(
                        order[y] as int,
                        pivot.key(),
                    ),
                forall|y: int|
                    x <= y < order.len() ==> values[(#[trigger] order[y]) as int] is None,
                forall|y: int|
                    0 <= y < x ==> self.range_term(
                        (#[trigger] order[y]) as int,
                        values[order[y] as int],
                        pivot.key(),
                        boundary,
                    ),
            decreases p + 1 - x,
        {
            let i: usize = order[x];
            let ghost before = *self;
            let ghost was = values@;
            let ghost ended = boundary;
            proof {
                assert(self.passed_exactly(i as int, frontier));
            }
            let found = self.bound_at(i, pivot);
            proof {
                self.lemma_same_cursors(before, order@, frontier);
            }
            if let Some((bound, last)) = found {
                proof {
                    assert(self.cache_valid(i as int, self.cached[i as int]));
                    let term = self.source.terms[i as int];
                    let b = choose|b: int|
                        0 <= b < term.blocks.len() && term.blocks@[b] == (self.cached[i as int]->0).0;
                    assert(term.ordered(self.max_offset));
                    reveal(TermPostings::ordered);
                    assert(term.blocks[b].last.valid(self.max_offset));
                    assert(is_score(
                        self.scoring.block_bound(term.slot, (self.cached[i as int]->0).0),
                    )) by {
                        reveal(Scoring::sound);
                    }
                }
                values.set(i, Some(bound));
                boundary = Some(
                    match boundary {
                        Some(end) => if last.before(end) {
                            last
                        } else {
                            end
                        },
                        None => last,
                    },
                );
                proof {
                    self.lemma_cached_narrow(
                        i as int,
                        pivot.key(),
                        last.key(),
                        boundary->0.key(),
                    );
                }
            } else {
                proof {
                    assert forall|tid: Tid| pivot.key() <= tid.key() implies #[trigger] self.source.terms[i as int].posting_at(
                        tid,
                    ) is None by {}
                    if x == p {
                        let term = self.source.terms[i as int];
                        assert(term.postings[self.at[i as int] as int].tid == pivot);
                    }
                }
            }
            proof {
                assert(values[i as int] == self.block_value(i as int, pivot.key()));
                assert(self.is_boundary(order@, x + 1, pivot.key(), boundary)) by {
                    before.lemma_boundary_push(
                        order@,
                        x as int,
                        pivot.key(),
                        ended,
                        boundary,
                    );
                }
                assert forall|y: int| 0 <= y < x + 1 implies values[(
                #[trigger] order[y]) as int] == self.block_value(order[y] as int, pivot.key()) by {
                    if y < x {
                        assert(order[y] != order[x as int]);
                        assert(was[order[y] as int] == before.block_value(
                            order[y] as int,
                            pivot.key(),
                        ));
                    }
                }
                assert(self.range_term(i as int, values[i as int], pivot.key(), boundary));
                assert forall|y: int| 0 <= y < x + 1 implies self.range_term(
                    (#[trigger] order[y]) as int,
                    values[order[y] as int],
                    pivot.key(),
                    boundary,
                ) by {
                    if y < x {
                        assert(order[y] != order[x as int]);
                        let j = order[y] as int;
                        assert(before.range_term(j, was[j], pivot.key(), ended));
                        assert(values[j] == was[j]);
                        assert(self.cached[j] == before.cached[j]);
                        self.lemma_range_term(before, j, values[j], pivot.key(), ended, boundary);
                    }
                }
            }
            x = x + 1;
        }
        let end = boundary.unwrap();
        proof {
            assert forall|y: int, d: int|
                #![trigger order[y], self.source.documents[d]]
                0 <= y < p + 1 && 0 <= d < self.source.documents.len() && pivot.key()
                    <= self.source.documents[d].tid.key() <= end.key() implies (
            self.source.terms[order[y] as int].posting_at(self.source.documents[d].tid) matches Some(
                posting,
            ) ==> (values[order[y] as int] matches Some(value) && self.scoring.contribution(
                self.source.terms[order[y] as int].slot,
                posting.frequency,
                self.source.documents[d].length,
            ) <= value)) by {
                let j = order[y] as int;
                assert(self.range_term(j, values[j], pivot.key(), boundary));
                if values[j] is Some {
                    self.lemma_cached_bound(j, d, pivot.key(), end.key());
                }
            }
            assert(self.blocks_cover(order@, p + 1, values@, pivot.key(), end.key()));
            assert forall|i: int|
                0 <= i < n && #[trigger] self.current_at(i) == Some(pivot) implies self.cached_holds(
                i,
                pivot.key(),
                pivot.key(),
            ) by {
                assert(order@.contains(i as usize));
                let y = choose|y: int| 0 <= y < order.len() && order@[y] == i as usize;
                assert(y <= p);
                assert(self.range_term(order[y] as int, values[order[y] as int], pivot.key(), boundary));
                let term = self.source.terms[i];
                assert(term.postings[self.at[i] as int].tid == pivot);
                if values[i] is None {
                    assert(term.posting_at(pivot) is None);
                }
                self.lemma_cached_narrow(i, pivot.key(), end.key(), pivot.key());
            }
        }
        proof {
            self.lemma_range_known(order@, p as int, frontier, pivot, values@, end);
        }
        (self.scoring.fold(&values), end)
    }

    proof fn lemma_boundary_push(
        self,
        order: Seq<usize>,
        x: int,
        pivot: int,
        ended: Option<Tid>,
        boundary: Option<Tid>,
    )
        requires
            0 <= x < order.len(),
            self.is_boundary(order, x, pivot, ended),
            boundary == (match self.source.terms[order[x] as int].block_from(pivot) {
                Some(block) => match ended {
                    Some(end) => if block.last.key() < end.key() {
                        Some(block.last)
                    } else {
                        ended
                    },
                    None => Some(block.last),
                },
                None => ended,
            }),
        ensures
            self.is_boundary(order, x + 1, pivot, boundary),
    {
        if boundary is Some {
            if boundary == ended {
                let y = choose|y: int|
                    0 <= y < x && (self.source.terms[(#[trigger] order[y]) as int].block_from(
                        pivot,
                    ) matches Some(block) && block.last == ended->0);
                assert(self.source.terms[order[y] as int].block_from(pivot) is Some);
            } else {
                assert(self.source.terms[order[x] as int].block_from(pivot) is Some);
            }
        }
    }

    proof fn lemma_same_cursors(self, before: Self, order: Seq<usize>, frontier: int)
        requires
            self.source == before.source,
            self.at == before.at,
            before.is_order(order),
            before.aligned(frontier),
        ensures
            self.is_order(order),
            self.aligned(frontier),
    {
        assert forall|j: int| #![trigger self.current_at(j)] #![trigger before.current_at(j)]
            self.current_at(j) == before.current_at(j) by {}
        assert forall|j: int| 0 <= j < self.source.terms.len() implies #[trigger] self.passed_exactly(
            j,
            frontier,
        ) by {
            assert(before.passed_exactly(j, frontier));
        }
    }

    proof fn lemma_cached_narrow(self, i: int, from: int, to: int, less: int)
        requires
            self.cached_holds(i, from, to),
            less <= to,
        ensures
            self.cached_holds(i, from, less),
            self.cached[i] is Some,
    {
        reveal(Walk::cached_holds);
        let term = self.source.terms[i];
        let b = choose|b: int|
            #![trigger term.blocks[b]]
            0 <= b < term.blocks.len() && term.blocks[b] == (self.cached[i]->0).0 && forall|q: int|
                0 <= q < term.postings.len() && from <= (#[trigger] term.postings[q]).tid.key()
                    <= to ==> holds(term.blocks@, b, term.postings[q].tid.key());
        assert(term.blocks[b] == (self.cached[i]->0).0);
    }

    /// Term `i` has the bound `value` from `pivot` through the boundary, or
    /// no posting there at all.
    spec fn range_term(
        self,
        i: int,
        value: Option<u32>,
        pivot: int,
        boundary: Option<Tid>,
    ) -> bool {
        match value {
            Some(bound) => {
                &&& boundary is Some
                &&& self.cached[i] is Some
                &&& bound == (self.cached[i]->0).1
                &&& self.cached_holds(i, pivot, boundary->0.key())
            },
            None => forall|tid: Tid|
                pivot <= tid.key() ==> #[trigger] self.source.terms[i].posting_at(tid) is None,
        }
    }

    proof fn lemma_range_term(
        self,
        before: Self,
        i: int,
        value: Option<u32>,
        pivot: int,
        ended: Option<Tid>,
        boundary: Option<Tid>,
    )
        requires
            self.source == before.source,
            self.cached[i] == before.cached[i],
            before.range_term(i, value, pivot, ended),
            ended is Some ==> boundary is Some && boundary->0.key() <= ended->0.key(),
        ensures
            self.range_term(i, value, pivot, boundary),
    {
        reveal(Walk::cached_holds);
        if value is Some {
            assert(before.cached_holds(i, pivot, ended->0.key()));
            before.lemma_cached_narrow(i, pivot, ended->0.key(), boundary->0.key());
            let term = self.source.terms[i];
            let b = choose|b: int|
                #![trigger term.blocks[b]]
                0 <= b < term.blocks.len() && term.blocks[b] == (before.cached[i]->0).0 && forall|
                    q: int,
                |
                    0 <= q < term.postings.len() && pivot <= (
                    #[trigger] term.postings[q]).tid.key() <= boundary->0.key() ==> holds(
                        term.blocks@,
                        b,
                        term.postings[q].tid.key(),
                    );
            assert(term.blocks[b] == (self.cached[i]->0).0);
        }
    }

    /// Moves the cursors that stand before `target` to it.
    fn seek_all(&mut self, target: Tid, Ghost(frontier): Ghost<int>)
        requires
            old(self).valid(),
            old(self).aligned(frontier),
            frontier <= target.key(),
        ensures
            final(self).valid(),
            final(self).same_rows(*old(self)),
            final(self).cached == old(self).cached,
            final(self).aligned(target.key()),
            ahead(*old(self).source, final(self).at@) <= ahead(*old(self).source, old(self).at@),
            forall|i: int|
                0 <= i < old(self).source.terms.len() && #[trigger] old(self).current_at(i) is Some
                    && old(self).current_at(i)->0.key() < target.key() ==> ahead(
                    *old(self).source,
                    final(self).at@,
                ) < ahead(*old(self).source, old(self).at@),
    {
        let ghost before = *self;
        let n: usize = self.source.terms.len();
        let mut i: usize = 0;
        while i < n
            invariant
                self.valid(),
                self.same_rows(before),
                self.cached == before.cached,
                before.aligned(frontier),
                frontier <= target.key(),
                n == self.source.terms.len(),
                i <= n,
                forall|j: int| 0 <= j < n ==> before.at[j] <= #[trigger] self.at[j],
                forall|j: int| i <= j < n ==> #[trigger] self.at[j] == before.at[j],
                forall|j: int| 0 <= j < i ==> #[trigger] self.passed_exactly(j, target.key()),
            decreases n - i,
        {
            let ghost middle = *self;
            proof {
                assert(self.at[i as int] == before.at[i as int]);
                assert(before.passed_exactly(i as int, frontier));
                assert forall|q: int| 0 <= q < self.at[i as int] implies (
                #[trigger] self.source.terms[i as int].postings[q]).tid.key() < target.key() by {
                    assert(before.source.terms[i as int].postings[q].tid.key() < frontier);
                }
            }
            self.seek(i, target);
            proof {
                assert forall|j: int| 0 <= j < i + 1 implies #[trigger] self.passed_exactly(
                    j,
                    target.key(),
                ) by {
                    if j < i {
                        assert(middle.passed_exactly(j, target.key()));
                    }
                }
            }
            i = i + 1;
        }
        proof {
            lemma_ahead(*self.source, before.at@, self.at@, None);
            assert forall|i: int|
                0 <= i < n && #[trigger] before.current_at(i) is Some && before.current_at(i)->0.key()
                    < target.key() implies ahead(*self.source, self.at@) < ahead(
                *self.source,
                before.at@,
            ) by {
                assert(self.passed_exactly(i, target.key()));
                assert(self.source.terms[i].postings[before.at[i] as int].tid.key() < target.key());
                lemma_ahead(*self.source, before.at@, self.at@, Some(i));
            }
        }
    }

    /// Moves every cursor standing on `pivot` past it.
    fn advance_from(&mut self, pivot: Tid)
        requires
            old(self).valid(),
            old(self).aligned(pivot.key()),
        ensures
            final(self).valid(),
            final(self).same_rows(*old(self)),
            final(self).aligned(pivot.key() + 1),
            (exists|i: int|
                0 <= i < old(self).source.terms.len() && #[trigger] old(self).current_at(i) == Some(
                    pivot,
                )) ==> ahead(*old(self).source, final(self).at@) < ahead(
                *old(self).source,
                old(self).at@,
            ),
    {
        let ghost before = *self;
        let n: usize = self.source.terms.len();
        let mut i: usize = 0;
        while i < n
            invariant
                self.valid(),
                before.valid(),
                self.same_rows(before),
                before.aligned(pivot.key()),
                n == self.source.terms.len(),
                i <= n,
                forall|j: int| i <= j < n ==> #[trigger] self.at[j] == before.at[j],
                forall|j: int|
                    0 <= j < i ==> #[trigger] self.at[j] == before.at[j] + if before.current_at(j)
                        == Some(pivot) {
                        1int
                    } else {
                        0int
                    },
            decreases n - i,
        {
            assert(self.at[i as int] == before.at[i as int]);
            let ghost middle = *self;
            if let Some(tid) = self.current(i) {
                if tid == pivot {
                    let next: usize = self.at[i] + 1;
                    self.at.set(i, next);
                }
            }
            proof {
                assert forall|j: int| i + 1 <= j < n implies #[trigger] self.at[j]
                    == before.at[j] by {
                    assert(middle.at[j] == before.at[j]);
                }
                assert forall|j: int| 0 <= j < n implies #[trigger] self.at[j]
                    <= self.source.terms[j].postings.len() by {
                    assert(middle.at[j] <= middle.source.terms[j].postings.len());
                }
                assert forall|j: int| 0 <= j < n implies self.cache_valid(
                    j,
                    #[trigger] self.cached[j],
                ) by {
                    assert(middle.cache_valid(j, middle.cached[j]));
                }
                assert forall|j: int|
                    0 <= j < i + 1 implies #[trigger] self.at[j] == before.at[j] + if before.current_at(
                    j,
                ) == Some(pivot) {
                    1int
                } else {
                    0int
                } by {
                    if j < i {
                        assert(middle.at[j] == self.at[j]);
                    }
                }
            }
            i = i + 1;
        }
        proof {
            assert forall|i: int| 0 <= i < n implies #[trigger] self.passed_exactly(
                i,
                pivot.key() + 1,
            ) by {
                let term = self.source.terms[i];
                assert(term.ordered(self.max_offset));
                reveal(TermPostings::ordered);
                assert(before.passed_exactly(i, pivot.key()));
                assert forall|q: int| 0 <= q < term.postings.len() implies (q < self.at[i] <==> (
                #[trigger] self.source.terms[i].postings[q]).tid.key() < pivot.key() + 1) by {
                    assert(before.source.terms[i].postings[q] == term.postings[q]);
                    assert(self.at[i] == before.at[i] + if before.current_at(i) == Some(pivot) {
                        1int
                    } else {
                        0int
                    });
                    crate::tid::lemma_key_injective(term.postings[q].tid, pivot);
                    if before.at[i] < q {
                        assert(term.postings[before.at[i] as int].tid.key()
                            < term.postings[q].tid.key());
                        assert(before.source.terms[i].postings[before.at[i] as int].tid.key()
                            >= pivot.key());
                    }
                }
            }
            assert forall|j: int| 0 <= j < n implies before.at[j] <= #[trigger] self.at[j] by {}
            if exists|i: int| 0 <= i < n && #[trigger] before.current_at(i) == Some(pivot) {
                let m = choose|i: int| 0 <= i < n && #[trigger] before.current_at(i) == Some(pivot);
                assert(self.at[m] == before.at[m] + 1);
                lemma_ahead(*self.source, before.at@, self.at@, Some(m));
            }
        }
    }

    /// Scoring the document at `pivot` takes the walk past it.
    proof fn lemma_score_step(
        self,
        before: Self,
        first: Seq<Row>,
        combine: Combine,
        pivot: Tid,
        d: int,
    )
        requires
            before.valid(),
            before.reached(first, combine, pivot.key()),
            self.source == before.source,
            self.scoring == before.scoring,
            self.k == before.k,
            0 <= d < self.source.documents.len(),
            self.source.documents[d].tid == pivot,
            self.source.selects(combine, pivot),
            self.best@ == (if self.source.dead@.contains(pivot) {
                before.best@
            } else {
                offered(
                    self.k as nat,
                    before.best@,
                    Row {
                        score: self.source.score_of(*self.scoring, self.source.documents[d]),
                        tid: pivot,
                    },
                )
            }),
        ensures
            self.reached(first, combine, pivot.key() + 1),
            split(self.source.documents@, pivot.key() + 1) == split(
                self.source.documents@,
                pivot.key(),
            ) + 1,
    {
        let documents = self.source.documents@;
        lemma_split(documents, pivot.key());
        lemma_split(documents, pivot.key() + 1);
        assert(documents[d].tid.key() == pivot.key());
        assert(split(documents, pivot.key()) == d) by {
            if split(documents, pivot.key()) < d {
                let e = split(documents, pivot.key()) as int;
                assert(documents[e].tid.key() < documents[d].tid.key());
            }
        }
        assert(split(documents, pivot.key() + 1) == d + 1) by {
            if d + 1 < split(documents, pivot.key() + 1) {
                assert(documents[d].tid.key() < documents[d + 1].tid.key());
                assert(documents[d + 1].tid.key() < pivot.key() + 1);
            }
        }
        let rows = self.source.candidates(*self.scoring, combine, d as nat);
        let longer = self.source.candidates(*self.scoring, combine, (d + 1) as nat);
        if !self.source.dead@.contains(pivot) {
            assert(longer.drop_last() =~= rows);
        }
    }

    /// The walk before its first step.
    proof fn lemma_start(self, combine: Combine)
        requires
            self.valid(),
            forall|i: int| 0 <= i < self.at.len() ==> #[trigger] self.at[i] == 0,
        ensures
            self.aligned(0),
            self.reached(self.best@, combine, 0),
            split(self.source.documents@, 0) == 0,
    {
        let documents = self.source.documents@;
        lemma_split(documents, 0);
        if split(documents, 0) > 0 {
            assert(documents[0].tid.key() < 0);
        }
        assert forall|i: int| 0 <= i < self.source.terms.len() implies #[trigger] self.passed_exactly(
            i,
            0,
        ) by {
            assert(self.at[i] == 0);
        }
    }

    /// The walk once every document is behind it.
    proof fn lemma_finish(self, first: Seq<Row>, combine: Combine, frontier: int)
        requires
            self.valid(),
            self.reached(first, combine, frontier),
            forall|end: int| self.none_enter(combine, frontier, end),
        ensures
            self.best@ == offered_all(
                self.k as nat,
                first,
                self.source.candidates(*self.scoring, combine, self.source.documents.len() as nat),
            ),
    {
        let documents = self.source.documents@;
        let last = if documents.len() > 0 {
            documents.last().tid.key()
        } else {
            0
        };
        let end = if frontier <= last {
            last + 1
        } else {
            frontier
        };
        assert(self.none_enter(combine, frontier, end));
        self.lemma_pass(first, combine, frontier, end);
        lemma_split(documents, end);
        if documents.len() > 0 {
            assert(documents[documents.len() - 1].tid.key() < end);
        }
    }

    /// A disjunction: block-max WAND. Cursors are kept in location order;
    /// the pivot is the first location at which the terms up to it could
    /// together reach the threshold, and the block bounds at the pivot
    /// decide whether to score it, skip to the end of the nearest block, or
    /// align the cursors behind it.
    pub fn any(&mut self)
        requires
            old(self).valid(),
            forall|i: int| 0 <= i < old(self).at.len() ==> #[trigger] old(self).at[i] == 0,
            old(self).scored + old(self).source.documents.len() <= usize::MAX,
            old(self).dead_skipped + old(self).source.documents.len() <= usize::MAX,
        ensures
            final(self).valid(),
            final(self).same_setting(*old(self)),
            final(self).best@ == offered_all(
                old(self).k as nat,
                old(self).best@,
                old(self).source.candidates(
                    *old(self).scoring,
                    Combine::Any,
                    old(self).source.documents.len() as nat,
                ),
            ),
            final(self).counted(
                *old(self),
                Tally::nothing(),
                old(self).source.any_tally(
                    *old(self).scoring,
                    old(self).k as nat,
                    old(self).max_offset,
                    old(self).best@,
                    0,
                ),
            ),
            old(self).scored <= final(self).scored <= old(self).scored + old(self).source.documents.len(),
            final(self).best.len() == filled(
                old(self).k as int,
                old(self).best.len() as int,
                final(self).scored - old(self).scored,
            ),
            old(self).dead_skipped <= final(self).dead_skipped <= old(self).dead_skipped + old(self).source.documents.len(),
    {
        let ghost first = self.best@;
        let ghost begun = *self;
        let ghost mut frontier: int = 0;
        proof {
            self.lemma_start(Combine::Any);
        }
        loop
            invariant
                begun == *old(self),
                first == begun.best@,
                self.valid(),
                self.same_setting(begun),
                self.aligned(frontier),
                self.reached(first, Combine::Any, frontier),
                self.counted(
                    begun,
                    self.source.any_tally(
                        *self.scoring,
                        self.k as nat,
                        self.max_offset,
                        self.best@,
                        frontier,
                    ),
                    self.source.any_tally(
                        *self.scoring,
                        self.k as nat,
                        self.max_offset,
                        first,
                        0,
                    ),
                ),
                begun.scored + begun.source.documents.len() <= usize::MAX,
                begun.dead_skipped + begun.source.documents.len() <= usize::MAX,
                begun.scored <= self.scored <= begun.scored + split(
                    self.source.documents@,
                    frontier,
                ),
                self.best.len() == filled(
                    begun.k as int,
                    begun.best.len() as int,
                    self.scored - begun.scored,
                ),
                begun.dead_skipped <= self.dead_skipped <= begun.dead_skipped + split(
                    self.source.documents@,
                    frontier,
                ),
            decreases ahead(*self.source, self.at@),
        {
            let ghost here = *self;
            proof {
                lemma_split(self.source.documents@, frontier);
            }
            let order = self.positioned();
            let p: usize = match self.pivot(&order, Ghost(frontier)) {
                Some(p) => p,
                None => {
                    proof {
                        self.lemma_finish(first, Combine::Any, frontier);
                        self.source.lemma_any_end(
                            *self.scoring,
                            self.k as nat,
                            self.max_offset,
                            here.best@,
                            frontier,
                        );
                    }
                    return;
                },
            };
            assert(self.current_at(order[p as int] as int) is Some);
            assert(self.current_at(order[0] as int) is Some);
            let (pivot, lowest) = match (self.current(order[p]), self.current(order[0])) {
                (Some(pivot), Some(lowest)) => (pivot, lowest),
                _ => {
                    return;
                },
            };
            proof {
                assert(lowest.key() <= pivot.key()) by {
                    if p > 0 {
                        assert(self.current_at(order[0] as int)->0.key() <= self.current_at(
                            order[p as int] as int,
                        )->0.key());
                    }
                }
                let i = order[0] as int;
                assert(self.passed_exactly(i, frontier));
                assert(frontier <= self.source.terms[i].postings[self.at[i] as int].tid.key());
                self.lemma_pass(first, Combine::Any, frontier, pivot.key());
                lemma_split(self.source.documents@, pivot.key());
                lemma_split_grows(self.source.documents@, frontier, pivot.key());
            }
            let (bound, boundary) = self.range_bound(&order, p, pivot, Ghost(frontier));
            proof {
                self.lemma_same_cursors(here, order@, frontier);
                assert(self.current_at(order[p as int] as int) == Some(pivot));
                assert(self.current_at(order[0] as int) == Some(lowest));
            }
            if !self.can_beat(bound, pivot) {
                let next: Tid = self.skip_range(
                    &order,
                    p,
                    pivot,
                    bound,
                    boundary,
                    Ghost(first),
                    Ghost(frontier),
                );
                proof {
                    self.source.lemma_any_pass(
                        *self.scoring,
                        self.k as nat,
                        self.max_offset,
                        here.best@,
                        frontier,
                        pivot,
                        next.key(),
                    );
                    lemma_split_grows(self.source.documents@, pivot.key(), next.key());
                    frontier = next.key();
                }
                continue;
            }
            if lowest != pivot {
                // Align the cursors behind the pivot on it.
                proof {
                    crate::tid::lemma_key_injective(lowest, pivot);
                }
                self.seek_all(pivot, Ghost(frontier));
                proof {
                    here.lemma_next(order[0] as int, frontier);
                    self.source.lemma_any_align(
                        *self.scoring,
                        self.k as nat,
                        self.max_offset,
                        here.best@,
                        frontier,
                        pivot,
                        order[0] as int,
                    );
                    frontier = pivot.key();
                }
                continue;
            }
            proof {
                let d = self.lemma_document(order[0] as int);
                assert(!(self.source.documents@[d].tid.key() < pivot.key()));
            }
            self.visit(&order, pivot, Ghost(first), Ghost(frontier));
            proof {
                here.lemma_none_behind(order@, frontier, pivot);
                self.source.lemma_any_visit(
                    *self.scoring,
                    self.k as nat,
                    self.max_offset,
                    here.best@,
                    frontier,
                    pivot,
                );
                frontier = pivot.key() + 1;
            }
        }
    }

    /// With `rest` still to count, the walk that began as `begun` counts
    /// `whole`.
    pub open spec fn counted(self, begun: Self, rest: Tally, whole: Tally) -> bool {
        &&& self.scored - begun.scored + rest.scored == whole.scored
        &&& self.dead_skipped - begun.dead_skipped + rest.dead == whole.dead
    }

    /// No term is in reach of what is before the lowest cursor.
    proof fn lemma_none_behind(self, order: Seq<usize>, frontier: int, lowest: Tid)
        requires
            self.valid(),
            self.is_order(order),
            self.aligned(frontier),
            order.len() > 0,
            self.current_at(order[0] as int) == Some(lowest),
        ensures
            forall|i: int|
                0 <= i < self.source.terms.len() ==> !(#[trigger] self.source.in_reach(
                    i,
                    frontier,
                    lowest.key() - 1,
                )),
    {
        assert forall|i: int| 0 <= i < self.source.terms.len() implies !(
        #[trigger] self.source.in_reach(i, frontier, lowest.key() - 1)) by {
            assert(self.passed_exactly(i, frontier));
            self.lemma_next(i, frontier);
            if self.current_at(i) is Some {
                assert(order.contains(i as usize));
                let y = choose|y: int| 0 <= y < order.len() && order[y] == i as usize;
                if y > 0 {
                    assert(self.current_at(order[0] as int)->0.key() <= self.current_at(
                        order[y] as int,
                    )->0.key());
                }
            }
        }
    }

    /// Moves every cursor past a range at the pivot that cannot enter.
    fn skip_range(
        &mut self,
        order: &Vec<usize>,
        p: usize,
        pivot: Tid,
        bound: u32,
        boundary: Tid,
        Ghost(first): Ghost<Seq<Row>>,
        Ghost(frontier): Ghost<int>,
    ) -> (next: Tid)
        requires
            old(self).valid(),
            old(self).is_order(order@),
            old(self).aligned(frontier),
            old(self).reached(first, Combine::Any, pivot.key()),
            frontier <= pivot.key() <= boundary.key(),
            boundary.valid(old(self).max_offset),
            p < order.len(),
            old(self).current_at(order[p as int] as int) == Some(pivot),
            old(self).current_at(order[0] as int)->0.key() <= pivot.key(),
            forall|x: int|
                p < x < order.len() ==> pivot.key() < old(self).current_at(
                    (#[trigger] order[x]) as int,
                )->0.key(),
            exists|values: Seq<Option<u32>>| #[trigger]
                old(self).blocks_cover(order@, p + 1, values, pivot.key(), boundary.key()) && bound
                    == old(self).scoring.total(values),
            !enters(old(self).k as nat, old(self).best@, bound, pivot),
        ensures
            final(self).valid(),
            final(self).same_rows(*old(self)),
            final(self).aligned(next.key()),
            final(self).reached(first, Combine::Any, next.key()),
            pivot.key() < next.key(),
            old(self).source.is_next(
                frontier,
                pivot.key(),
                boundary,
                old(self).max_offset,
                next.key(),
            ),
            ahead(*old(self).source, final(self).at@) < ahead(*old(self).source, old(self).at@),
    {
        let mut next: Tid = successor(boundary, self.max_offset);
        if p + 1 < order.len() {
            assert(self.current_at(order[p + 1] as int) is Some);
            if let Some(after) = self.current(order[p + 1]) {
                if after.before(next) {
                    next = after;
                }
            }
        }
        proof {
            let values = choose|values: Seq<Option<u32>>| #[trigger]
                self.blocks_cover(order@, p + 1, values, pivot.key(), boundary.key()) && bound
                    == self.scoring.total(values);
            let end = next.key();
            assert forall|x: int| p < x < order.len() implies end <= self.current_at(
                (#[trigger] order[x]) as int,
            )->0.key() by {
                if p + 1 < x {
                    assert(self.current_at(order[p + 1] as int)->0.key() <= self.current_at(
                        order[x] as int,
                    )->0.key());
                }
            }
            assert forall|d: int|
                0 <= d < self.source.documents.len() && (
                #[trigger] self.source.documents[d]).tid.key() < end implies self.source.documents[d].tid.key()
                <= boundary.key() by {
                assert(self.source.documents[d].tid.valid(self.max_offset));
            }
            self.lemma_blocks_exclude(
                order@,
                p as int,
                values,
                frontier,
                pivot,
                boundary.key(),
                end,
            );
            self.lemma_pass(first, Combine::Any, pivot.key(), next.key());
            assert(self.current_at(order[0] as int) is Some);
            self.lemma_is_next(order@, p as int, frontier, pivot, boundary, next.key());
        }
        self.seek_all(next, Ghost(frontier));
        next
    }

    proof fn lemma_is_next(
        self,
        order: Seq<usize>,
        p: int,
        frontier: int,
        pivot: Tid,
        boundary: Tid,
        next: int,
    )
        requires
            self.valid(),
            self.is_order(order),
            self.aligned(frontier),
            0 <= p < order.len(),
            self.current_at(order[p] as int) == Some(pivot),
            forall|x: int|
                p < x < order.len() ==> pivot.key() < self.current_at(
                    (#[trigger] order[x]) as int,
                )->0.key(),
            next <= after(boundary, self.max_offset).key(),
            forall|x: int|
                p < x < order.len() ==> next <= self.current_at((#[trigger] order[x]) as int)->0.key(),
            next == after(boundary, self.max_offset).key() || (p + 1 < order.len() && next
                == self.current_at(order[p + 1] as int)->0.key()),
        ensures
            self.source.is_next(frontier, pivot.key(), boundary, self.max_offset, next),
    {
        assert forall|i: int|
            0 <= i < self.source.terms.len() implies (#[trigger] self.source.terms[i].next_at(
            frontier,
        ) matches Some(tid) ==> pivot.key() < tid.key() ==> next <= tid.key()) by {
            assert(self.passed_exactly(i, frontier));
            self.lemma_next(i, frontier);
            if self.current_at(i) is Some {
                assert(order.contains(i as usize));
                let y = choose|y: int| 0 <= y < order.len() && order[y] == i as usize;
                if y < p {
                    assert(self.current_at(order[y] as int)->0.key() <= self.current_at(
                        order[p] as int,
                    )->0.key());
                }
                if p < y {
                    assert(next <= self.current_at(order[y] as int)->0.key());
                }
            }
        }
        if next != after(boundary, self.max_offset).key() {
            let i = order[p + 1] as int;
            assert(self.current_at(order[p + 1] as int) is Some);
            assert(self.passed_exactly(i, frontier));
            self.lemma_next(i, frontier);
            assert(self.source.terms[i].next_at(frontier) is Some);
        }
    }

    /// Scores the pivot, on which the lowest cursor stands, and moves past
    /// it.
    fn visit(
        &mut self,
        order: &Vec<usize>,
        pivot: Tid,
        Ghost(first): Ghost<Seq<Row>>,
        Ghost(frontier): Ghost<int>,
    )
        requires
            old(self).valid(),
            old(self).is_order(order@),
            old(self).aligned(frontier),
            old(self).reached(first, Combine::Any, pivot.key()),
            frontier <= pivot.key(),
            order.len() > 0,
            old(self).current_at(order[0] as int) == Some(pivot),
            forall|i: int|
                0 <= i < old(self).source.terms.len() && #[trigger] old(self).current_at(i) == Some(
                    pivot,
                ) ==> old(self).cached_holds(i, pivot.key(), pivot.key()),
            old(self).scored < usize::MAX,
            old(self).dead_skipped < usize::MAX,
        ensures
            final(self).valid(),
            final(self).same_setting(*old(self)),
            final(self).aligned(pivot.key() + 1),
            final(self).reached(first, Combine::Any, pivot.key() + 1),
            ahead(*old(self).source, final(self).at@) < ahead(*old(self).source, old(self).at@),
            final(self).scored == old(self).scored + old(self).source.visited(
                *old(self).scoring,
                old(self).k as nat,
                old(self).best@,
                pivot,
                None,
            ).tally.scored,
            final(self).dead_skipped == old(self).dead_skipped + old(self).source.visited(
                *old(self).scoring,
                old(self).k as nat,
                old(self).best@,
                pivot,
                None,
            ).tally.dead,
            final(self).best@ == old(self).source.visited(
                *old(self).scoring,
                old(self).k as nat,
                old(self).best@,
                pivot,
                None,
            ).best,
            old(self).scored <= final(self).scored <= old(self).scored + 1,
            final(self).best.len() == filled(
                old(self).k as int,
                old(self).best.len() as int,
                final(self).scored - old(self).scored,
            ),
            old(self).dead_skipped <= final(self).dead_skipped <= old(self).dead_skipped + 1,
            split(old(self).source.documents@, pivot.key() + 1) == split(
                old(self).source.documents@,
                pivot.key(),
            ) + 1,
    {
        let ghost lowest: int = order[0] as int;
        let ghost d: int = 0;
        proof {
            assert forall|i: int| 0 <= i < self.source.terms.len() implies #[trigger] self.passed_exactly(
                i,
                pivot.key(),
            ) by {
                self.lemma_all_from(order@, frontier, pivot, i);
            }
            d = self.lemma_document(lowest);
            self.lemma_present(lowest, pivot);
        }
        let ghost ready = *self;
        self.score(pivot);
        proof {
            assert(self.source.terms[lowest].posting_at(pivot) is Some);
            self.lemma_score_step(ready, first, Combine::Any, pivot, d);
            assert forall|i: int| 0 <= i < self.source.terms.len() implies #[trigger] self.passed_exactly(
                i,
                pivot.key(),
            ) by {
                assert(ready.passed_exactly(i, pivot.key()));
            }
            assert(self.current_at(lowest) == Some(pivot));
        }
        self.advance_from(pivot);
    }

    /// The document that term `i`'s cursor stands on.
    proof fn lemma_document(self, i: int) -> (d: int)
        requires
            self.valid(),
            0 <= i < self.source.terms.len(),
            self.current_at(i) is Some,
        ensures
            0 <= d < self.source.documents.len(),
            Some(self.source.documents[d].tid) == self.current_at(i),
    {
        reveal(Source::postings_listed);
        let q = self.at[i] as int;
        assert(self.source.terms[i].postings[q].tid == self.current_at(i)->0);
        choose|d: int|
            0 <= d < self.source.documents.len() && #[trigger] self.source.documents[d].tid
                == self.source.terms[i].postings[q].tid
    }

    /// With the lowest cursor on `pivot`, every cursor has passed exactly
    /// what is before it.
    proof fn lemma_all_from(self, order: Seq<usize>, frontier: int, pivot: Tid, i: int)
        requires
            self.valid(),
            self.is_order(order),
            self.aligned(frontier),
            order.len() > 0,
            self.current_at(order[0] as int) == Some(pivot),
            frontier <= pivot.key(),
            0 <= i < self.source.terms.len(),
        ensures
            self.passed_exactly(i, pivot.key()),
    {
        let term = self.source.terms[i];
        assert(term.ordered(self.max_offset));
        reveal(TermPostings::ordered);
        assert(self.passed_exactly(i, frontier));
        if self.current_at(i) is Some {
            assert(order.contains(i as usize));
            let x = choose|x: int| 0 <= x < order.len() && order[x] == i as usize;
            if x > 0 {
                assert(self.current_at(order[0] as int)->0.key() <= self.current_at(
                    order[x] as int,
                )->0.key());
            }
        }
        assert forall|q: int| 0 <= q < term.postings.len() implies (q < self.at[i] <==> (
        #[trigger] self.source.terms[i].postings[q]).tid.key() < pivot.key()) by {
            if self.at[i] < q {
                assert(term.postings[self.at[i] as int].tid.key() < term.postings[q].tid.key());
            }
        }
    }

    /// Every document from `from` through `to` that holds all terms scores
    /// at most `bound`, and the cached blocks hold all postings there.
    spec fn range_holds(self, bound: u32, from: int, to: int) -> bool {
        &&& is_score(bound)
        &&& forall|i: int|
            0 <= i < self.source.terms.len() ==> #[trigger] self.cached_holds(i, from, to)
        &&& forall|d: int|
            #![trigger self.source.documents[d]]
            0 <= d < self.source.documents.len() && from <= self.source.documents[d].tid.key() <= to
                && self.source.selects(Combine::All, self.source.documents[d].tid)
                ==> self.source.score_of(*self.scoring, self.source.documents[d]) <= bound
    }

    /// A bound on every document holding all terms, from the intersection at
    /// `pivot` through the nearest block end. Every such document has one
    /// length, at least the largest of these blocks' shortest lengths.
    fn load_range(&mut self, pivot: Tid) -> (range: (Tid, u32))
        requires
            old(self).valid(),
            old(self).source.terms.len() > 0,
            old(self).aligned(pivot.key()),
            forall|i: int|
                0 <= i < old(self).source.terms.len() ==> #[trigger] old(self).current_at(i)
                    == Some(pivot),
        ensures
            final(self).valid(),
            final(self).same_rows(*old(self)),
            final(self).at == old(self).at,
            range == old(self).source.loaded(*old(self).scoring, pivot.key()),
            pivot.key() <= range.0.key(),
            range.0.valid(old(self).max_offset),
            final(self).range_holds(range.1, pivot.key(), range.0.key()),
    {
        let ghost before = *self;
        let n: usize = self.source.terms.len();
        let mut boundary: Tid = pivot;
        let mut min_length: u32 = 0;
        let mut i: usize = 0;
        proof {
            self.source.lemma_spans_start(pivot.key(), boundary);
        }
        while i < n
            invariant
                self.source.spans(pivot.key(), i as int, boundary, min_length),
                forall|j: int|
                    0 <= j < i ==> self.source.terms[j].block_from(pivot.key()) == Some(
                        ((#[trigger] self.cached[j])->0).0,
                    ),
                before.valid(),
                before.aligned(pivot.key()),
                forall|j: int| 0 <= j < n ==> #[trigger] before.current_at(j) == Some(pivot),
                self.valid(),
                self.same_rows(before),
                self.at == before.at,
                n == self.source.terms.len(),
                i <= n,
                pivot.key() <= boundary.key(),
                i > 0 ==> boundary.valid(self.max_offset),
                forall|j: int|
                    0 <= j < i ==> #[trigger] self.cached_holds(j, pivot.key(), boundary.key()),
                forall|j: int|
                    0 <= j < i ==> ((#[trigger] self.cached[j])->0).0.shortest <= min_length,
                i == 0 ==> min_length == 0,
                min_length == 0 || exists|j: int|
                    0 <= j < i && (#[trigger] self.cached[j]) is Some && (
                    self.cached[j]->0).0.shortest == min_length,
            decreases n - i,
        {
            let ghost middle = *self;
            proof {
                assert(before.passed_exactly(i as int, pivot.key()));
                assert(before.current_at(i as int) == Some(pivot));
                assert(self.current_at(i as int) == Some(pivot));
            }
            let last: Tid = match self.bound_at(i, pivot) {
                Some((_, last)) => last,
                None => {
                    proof {
                        let term = self.source.terms[i as int];
                        assert(term.postings[self.at[i as int] as int].tid == pivot);
                        assert(false);
                    }
                    pivot
                },
            };
            proof {
                assert(self.cache_valid(i as int, self.cached[i as int]));
                let term = self.source.terms[i as int];
                let b = choose|b: int|
                    0 <= b < term.blocks.len() && term.blocks@[b] == (self.cached[i as int]->0).0;
                assert(term.ordered(self.max_offset));
                reveal(TermPostings::ordered);
                assert(term.blocks[b].last.valid(self.max_offset));
            }
            {
                let ghost ended = boundary;
                if i == 0 || last.before(boundary) {
                    boundary = last;
                }
                let ghost shortest = min_length;
                if let Some((block, _)) = self.cached[i] {
                    if block.shortest > min_length {
                        min_length = block.shortest;
                    }
                }
                proof {
                    self.source.lemma_spans_push(
                        pivot.key(),
                        i as int,
                        ended,
                        shortest,
                        (self.cached[i as int]->0).0,
                    );
                    assert forall|j: int|
                        0 <= j < i + 1 implies self.source.terms[j].block_from(pivot.key()) == Some(
                        ((#[trigger] self.cached[j])->0).0,
                    ) by {
                        if j < i {
                            assert(self.cached[j] == middle.cached[j]);
                        }
                    }
                    assert forall|j: int| 0 <= j < i + 1 implies (
                    (#[trigger] self.cached[j])->0).0.shortest <= min_length by {
                        if j < i {
                            assert(self.cached[j] == middle.cached[j]);
                            assert((middle.cached[j]->0).0.shortest <= shortest);
                        }
                    }
                    assert forall|j: int| 0 <= j < i + 1 implies #[trigger] self.cached_holds(
                        j,
                        pivot.key(),
                        boundary.key(),
                    ) by {
                        if j < i {
                            assert(middle.cached_holds(j, pivot.key(), ended.key()));
                            assert(self.cached[j] == middle.cached[j]);
                            middle.lemma_cached_narrow(j, pivot.key(), ended.key(), boundary.key());
                            self.lemma_cached_same(middle, j, pivot.key(), boundary.key());
                        } else {
                            self.lemma_cached_narrow(j, pivot.key(), last.key(), boundary.key());
                        }
                    }
                    if min_length == shortest && min_length != 0 {
                        let j = choose|j: int|
                            0 <= j < i && (#[trigger] middle.cached[j]) is Some && (
                            middle.cached[j]->0).0.shortest == shortest;
                        assert(self.cached[j] == middle.cached[j]);
                    }
                }
            }
            i = i + 1;
        }
        let mut values: Vec<Option<u32>> = Vec::new();
        let mut i: usize = 0;
        while i < n
            invariant
                self.valid(),
                n == self.source.terms.len(),
                i <= n,
                values.len() == i,
                forall|j: int|
                    0 <= j < n ==> #[trigger] self.cached_holds(j, pivot.key(), boundary.key()),
                forall|j: int|
                    0 <= j < i ==> #[trigger] values[j] == Some(
                        self.scoring.bound_with_min_length(
                            self.source.terms[j].slot,
                            (self.cached[j]->0).0,
                            min_length,
                        ),
                    ),
            decreases n - i,
        {
            assert(self.cached_holds(i as int, pivot.key(), boundary.key()));
            proof {
                self.lemma_cached_narrow(i as int, pivot.key(), boundary.key(), boundary.key());
            }
            if let Some((block, _)) = self.cached[i] {
                let slot: usize = self.source.terms[i].slot;
                let value: u32 = (self.scoring.from_length)(slot, block, min_length);
                values.push(Some(value));
            }
            i = i + 1;
        }
        let bound: u32 = self.scoring.fold(&values);
        proof {
            assert forall|j: int| 0 <= j < n implies #[trigger] self.source.terms[j].next_at(
                pivot.key(),
            ) == Some(pivot) by {
                assert(before.passed_exactly(j, pivot.key()));
                before.lemma_next(j, pivot.key());
                assert(before.current_at(j) == Some(pivot));
            }
            assert forall|j: int| 0 <= j < n implies #[trigger] values[j] == Some(
                self.scoring.bound_with_min_length(
                    self.source.terms[j].slot,
                    self.source.terms[j].block_from(pivot.key())->0,
                    min_length,
                ),
            ) by {
                assert(self.source.terms[j].block_from(pivot.key()) == Some(
                    (self.cached[j]->0).0,
                ));
            }
            self.source.lemma_loaded(*self.scoring, pivot, boundary, min_length, values@);
            assert(all_scores(values@)) by {
                reveal(Scoring::sound);
            }
            law_bounds_cover_sums(*self.scoring, values@, values@);
            assert forall|d: int|
                #![trigger self.source.documents[d]]
                0 <= d < self.source.documents.len() && pivot.key()
                    <= self.source.documents[d].tid.key() <= boundary.key() && self.source.selects(
                    Combine::All,
                    self.source.documents[d].tid,
                ) implies self.source.score_of(*self.scoring, self.source.documents[d]) <= bound by {
                self.lemma_min_length(d, pivot.key(), boundary.key(), min_length);
                let document = self.source.documents[d];
                let lower = self.source.contributions(*self.scoring, document.tid, document.length);
                assert forall|j: int| #![trigger values[j]] #![trigger lower[j]]
                    0 <= j < lower.len() implies (lower[j] matches Some(low) ==> (
                values[j] matches Some(high) && low <= high)) by {
                    assert(self.cached_holds(j, pivot.key(), boundary.key()));
                    self.lemma_cached_bound(j, d, pivot.key(), boundary.key());
                }
                law_bounds_cover_sums(*self.scoring, values@, lower);
            }
        }
        (boundary, bound)
    }

    /// A document that holds all terms is no shorter than the shortest of any
    /// block it is in.
    proof fn lemma_min_length(self, d: int, from: int, to: int, min_length: u32)
        requires
            self.valid(),
            0 <= d < self.source.documents.len(),
            from <= self.source.documents[d].tid.key() <= to,
            self.source.selects(Combine::All, self.source.documents[d].tid),
            forall|j: int|
                0 <= j < self.source.terms.len() ==> #[trigger] self.cached_holds(j, from, to),
            min_length == 0 || exists|j: int|
                0 <= j < self.source.terms.len() && (#[trigger] self.cached[j]) is Some && (
                self.cached[j]->0).0.shortest == min_length,
        ensures
            min_length <= self.source.documents[d].length,
    {
        if min_length != 0 {
            let j = choose|j: int|
                0 <= j < self.source.terms.len() && (#[trigger] self.cached[j]) is Some && (
                self.cached[j]->0).0.shortest == min_length;
            assert(self.cached_holds(j, from, to));
            assert(self.source.terms[j].posting_at(self.source.documents[d].tid) is Some);
            self.lemma_cached_bound(j, d, from, to);
        }
    }

    proof fn lemma_cached_same(self, before: Self, i: int, from: int, to: int)
        requires
            self.source == before.source,
            self.cached[i] == before.cached[i],
            before.cached_holds(i, from, to),
        ensures
            self.cached_holds(i, from, to),
            self.cached[i] is Some,
    {
        reveal(Walk::cached_holds);
        let term = self.source.terms[i];
        let b = choose|b: int|
            #![trigger term.blocks[b]]
            0 <= b < term.blocks.len() && term.blocks[b] == (before.cached[i]->0).0 && forall|q: int|
                0 <= q < term.postings.len() && from <= (#[trigger] term.postings[q]).tid.key()
                    <= to ==> holds(term.blocks@, b, term.postings[q].tid.key());
        assert(term.blocks[b] == (self.cached[i]->0).0);
    }

    /// Documents a term's cursor stands beyond do not hold all terms.
    proof fn lemma_missing(self, i: int, frontier: int, end: int)
        requires
            self.valid(),
            0 <= i < self.source.terms.len(),
            self.passed_only(i, frontier),
            self.current_at(i) matches Some(tid) ==> end <= tid.key(),
        ensures
            self.none_enter(Combine::All, frontier, end),
    {
        assert forall|d: int|
            #![trigger self.source.documents[d]]
            0 <= d < self.source.documents.len() && frontier <= self.source.documents[d].tid.key()
                < end implies !self.source.selects(
            Combine::All,
            self.source.documents[d].tid,
        ) by {
            let term = self.source.terms[i];
            let tid = self.source.documents[d].tid;
            assert(term.ordered(self.max_offset));
            reveal(TermPostings::ordered);
            assert forall|q: int| 0 <= q < term.postings.len() implies #[trigger] term.postings[q].tid
                != tid by {
                if q < self.at[i] {
                    assert(self.source.terms[i].postings[q].tid.key() < frontier);
                } else if self.at[i] < q {
                    assert(term.postings[self.at[i] as int].tid.key() < term.postings[q].tid.key());
                }
            }
            assert(self.source.terms[i].posting_at(tid) is None);
        }
    }

    /// Moves the cursors of the terms other than `lead` to `pivot`, as far as
    /// they find it: the location to go on with, which is `pivot` when all
    /// terms are there, or `None` when a term has nothing left.
    fn intersect(&mut self, lead: usize, pivot: Tid) -> (next: Option<Tid>)
        requires
            old(self).valid(),
            lead < old(self).source.terms.len(),
            old(self).current_at(lead as int) == Some(pivot),
            old(self).passed_exactly(lead as int, pivot.key()),
            forall|i: int|
                0 <= i < old(self).source.terms.len() ==> #[trigger] old(self).passed_only(
                    i,
                    pivot.key(),
                ),
        ensures
            final(self).valid(),
            final(self).same_rows(*old(self)),
            final(self).cached == old(self).cached,
            final(self).at[lead as int] == old(self).at[lead as int],
            forall|i: int|
                0 <= i < old(self).source.terms.len() ==> #[trigger] final(self).passed_only(
                    i,
                    pivot.key(),
                ),
            next == (match old(self).source.absent_from(lead as int, pivot, 0) {
                Some(i) => old(self).source.terms[i].next_at(pivot.key()),
                None => Some(pivot),
            }),
            old(self).source.absent_from(lead as int, pivot, 0) matches Some(i) ==> 0 <= i
                < old(self).source.terms.len() && old(self).source.terms[i].next_at(pivot.key())
                != Some(pivot),
            match next {
                Some(tid) => {
                    &&& pivot.key() <= tid.key()
                    &&& pivot.key() == tid.key() ==> {
                        &&& final(self).aligned(pivot.key())
                        &&& forall|i: int|
                            0 <= i < old(self).source.terms.len() ==> #[trigger] final(self).current_at(i) == Some(pivot)
                    }
                    &&& final(self).none_enter(Combine::All, pivot.key(), tid.key())
                },
                None => forall|end: int| final(self).none_enter(Combine::All, pivot.key(), end),
            },
    {
        let ghost before = *self;
        let n: usize = self.source.terms.len();
        let mut i: usize = 0;
        while i < n
            invariant
                before == *old(self),
                self.valid(),
                self.same_rows(before),
                self.cached == before.cached,
                n == self.source.terms.len(),
                i <= n,
                lead < n,
                self.source.absent_from(lead as int, pivot, 0) == self.source.absent_from(
                    lead as int,
                    pivot,
                    i as int,
                ),
                self.at[lead as int] == before.at[lead as int],
                before.current_at(lead as int) == Some(pivot),
                self.passed_exactly(lead as int, pivot.key()),
                forall|j: int| 0 <= j < n ==> #[trigger] self.passed_only(j, pivot.key()),
                forall|j: int| 0 <= j < i ==> #[trigger] self.passed_exactly(j, pivot.key()),
                forall|j: int| 0 <= j < i ==> #[trigger] self.current_at(j) == Some(pivot),
            decreases n - i,
        {
            if i != lead {
                let ghost middle = *self;
                assert(self.passed_only(i as int, pivot.key()));
                self.seek(i, pivot);
                proof {
                    assert forall|j: int| 0 <= j < n implies #[trigger] self.passed_only(
                        j,
                        pivot.key(),
                    ) by {
                        if j != i {
                            assert(middle.passed_only(j, pivot.key()));
                        } else {
                            assert(self.passed_exactly(j, pivot.key()));
                        }
                    }
                    assert forall|j: int| 0 <= j < i implies #[trigger] self.passed_exactly(
                        j,
                        pivot.key(),
                    ) by {
                        assert(middle.passed_exactly(j, pivot.key()));
                    }
                    assert forall|j: int| 0 <= j < i implies #[trigger] self.current_at(j) == Some(
                        pivot,
                    ) by {
                        assert(middle.current_at(j) == Some(pivot));
                    }
                    assert(middle.passed_exactly(lead as int, pivot.key()));
                    assert(self.passed_exactly(i as int, pivot.key()));
                    self.lemma_next(i as int, pivot.key());
                }
                match self.current(i) {
                    None => {
                        proof {
                            assert forall|end: int| self.none_enter(
                                Combine::All,
                                pivot.key(),
                                end,
                            ) by {
                                self.lemma_missing(i as int, pivot.key(), end);
                            }
                        }
                        return None;
                    },
                    Some(found) => {
                        assert(self.source.terms[i as int].postings[self.at[i as int] as int].tid
                            == found);
                        if pivot.before(found) {
                            proof {
                                self.lemma_missing(i as int, pivot.key(), found.key());
                            }
                            return Some(found);
                        }
                        proof {
                            crate::tid::lemma_key_injective(found, pivot);
                            assert(self.current_at(i as int) == Some(pivot));
                        }
                    },
                }
            }
            assert(self.passed_exactly(i as int, pivot.key()));
            assert(self.current_at(i as int) == Some(pivot));
            i = i + 1;
        }
        Some(pivot)
    }

    /// The rarest term; the first of those that are equally rare.
    fn rarest(&self) -> (lead: usize)
        requires
            self.source.terms.len() > 0,
        ensures
            lead < self.source.terms.len(),
            lead == self.source.lead(),
            forall|i: int|
                0 <= i < self.source.terms.len() ==> self.source.terms[lead as int].count <= (
                #[trigger] self.source.terms[i]).count,
            forall|i: int|
                0 <= i < lead ==> self.source.terms[lead as int].count < (
                #[trigger] self.source.terms[i]).count,
    {
        let mut lead: usize = 0;
        let mut i: usize = 1;
        while i < self.source.terms.len()
            invariant
                lead < i <= self.source.terms.len(),
                forall|j: int|
                    0 <= j < i ==> self.source.terms[lead as int].count <= (
                    #[trigger] self.source.terms[j]).count,
                forall|j: int|
                    0 <= j < lead ==> self.source.terms[lead as int].count < (
                    #[trigger] self.source.terms[j]).count,
            decreases self.source.terms.len() - i,
        {
            if self.source.terms[i].count < self.source.terms[lead].count {
                lead = i;
            }
            i = i + 1;
        }
        proof {
            self.source.lemma_lead(lead as int);
        }
        lead
    }

    /// A conjunction: builds a bound at an intersection, then reuses it
    /// before intersecting later candidates through the nearest block end.
    pub fn all(&mut self)
        requires
            old(self).valid(),
            old(self).source.terms.len() > 0,
            forall|i: int| 0 <= i < old(self).at.len() ==> #[trigger] old(self).at[i] == 0,
            old(self).scored + old(self).source.documents.len() <= usize::MAX,
            old(self).dead_skipped + old(self).source.documents.len() <= usize::MAX,
        ensures
            final(self).valid(),
            final(self).same_setting(*old(self)),
            final(self).best@ == offered_all(
                old(self).k as nat,
                old(self).best@,
                old(self).source.candidates(
                    *old(self).scoring,
                    Combine::All,
                    old(self).source.documents.len() as nat,
                ),
            ),
            final(self).counted(
                *old(self),
                Tally::nothing(),
                old(self).source.all_tally(
                    *old(self).scoring,
                    old(self).k as nat,
                    old(self).max_offset,
                    old(self).best@,
                    0,
                    None,
                ),
            ),
            old(self).scored <= final(self).scored <= old(self).scored + old(self).source.documents.len(),
            final(self).best.len() == filled(
                old(self).k as int,
                old(self).best.len() as int,
                final(self).scored - old(self).scored,
            ),
            old(self).dead_skipped <= final(self).dead_skipped <= old(self).dead_skipped + old(self).source.documents.len(),
    {
        let ghost first = self.best@;
        let ghost begun = *self;
        let ghost mut frontier: int = 0;
        let ghost mut start: int = 0;
        let lead: usize = self.rarest();
        let mut range: Option<(Tid, u32)> = None;
        proof {
            self.lemma_start(Combine::All);
            assert forall|i: int| 0 <= i < self.source.terms.len() implies #[trigger] self.passed_only(
                i,
                frontier,
            ) by {
                assert(self.passed_exactly(i, 0));
            }
            assert(self.passed_exactly(lead as int, 0));
        }
        loop
            invariant
                begun == *old(self),
                first == begun.best@,
                self.valid(),
                self.same_setting(begun),
                lead < self.source.terms.len(),
                lead == self.source.lead(),
                self.counted(
                    begun,
                    self.source.all_tally(
                        *self.scoring,
                        self.k as nat,
                        self.max_offset,
                        self.best@,
                        frontier,
                        range,
                    ),
                    self.source.all_tally(
                        *self.scoring,
                        self.k as nat,
                        self.max_offset,
                        first,
                        0,
                        None,
                    ),
                ),
                self.passed_exactly(lead as int, frontier),
                forall|i: int|
                    0 <= i < self.source.terms.len() ==> #[trigger] self.passed_only(i, frontier),
                self.reached(first, Combine::All, frontier),
                range matches Some((end, bound)) ==> end.valid(self.max_offset) && start <= frontier
                    && self.range_holds(bound, start, end.key()),
                begun.scored + begun.source.documents.len() <= usize::MAX,
                begun.dead_skipped + begun.source.documents.len() <= usize::MAX,
                begun.scored <= self.scored <= begun.scored + split(
                    self.source.documents@,
                    frontier,
                ),
                self.best.len() == filled(
                    begun.k as int,
                    begun.best.len() as int,
                    self.scored - begun.scored,
                ),
                begun.dead_skipped <= self.dead_skipped <= begun.dead_skipped + split(
                    self.source.documents@,
                    frontier,
                ),
            decreases self.source.terms[lead as int].postings.len() - self.at[lead as int],
        {
            let ghost begin = *self;
            let ghost from = frontier;
            let ghost known = range;
            proof {
                lemma_split(self.source.documents@, frontier);
                self.lemma_next(lead as int, frontier);
            }
            let pivot: Tid = match self.current(lead) {
                Some(pivot) => pivot,
                None => {
                    proof {
                        assert(self.passed_only(lead as int, frontier));
                        assert forall|end: int| self.none_enter(Combine::All, frontier, end) by {
                            self.lemma_missing(lead as int, frontier, end);
                        }
                        self.lemma_finish(first, Combine::All, frontier);
                        self.source.lemma_all_end(
                            *self.scoring,
                            self.k as nat,
                            self.max_offset,
                            begin.best@,
                            from,
                            known,
                        );
                    }
                    return;
                },
            };
            proof {
                self.lemma_to_pivot(lead as int, frontier, pivot);
                self.lemma_pass(first, Combine::All, frontier, pivot.key());
                lemma_split_grows(self.source.documents@, frontier, pivot.key());
                frontier = pivot.key();
            }
            if let Some((end, bound)) = range {
                if !end.before(pivot) && !self.can_beat(bound, pivot) {
                    let next: Tid = self.skip_to(lead, pivot, end, bound, Ghost(first), Ghost(start));
                    proof {
                        self.source.lemma_all_pass(
                            *self.scoring,
                            self.k as nat,
                            self.max_offset,
                            begin.best@,
                            from,
                            known,
                            pivot,
                        );
                        lemma_split_grows(self.source.documents@, frontier, next.key());
                        frontier = next.key();
                    }
                    continue;
                }
            }
            let ghost here = *self;
            let next: Tid = match self.intersect(lead, pivot) {
                Some(next) => next,
                None => {
                    proof {
                        self.lemma_finish(first, Combine::All, frontier);
                        self.source.lemma_all_absent(
                            *self.scoring,
                            self.k as nat,
                            self.max_offset,
                            begin.best@,
                            from,
                            known,
                            pivot,
                            self.source.absent_from(lead as int, pivot, 0)->0,
                        );
                    }
                    return;
                },
            };
            proof {
                if range is Some {
                    self.lemma_range_same(here, (range->0).1, start, (range->0).0.key());
                }
            }
            if pivot.before(next) {
                let ghost here = *self;
                proof {
                    self.lemma_pass(first, Combine::All, pivot.key(), next.key());
                    lemma_split_grows(self.source.documents@, frontier, next.key());
                }
                self.lead_to(lead, pivot, next);
                proof {
                    if range is Some {
                        self.lemma_range_same(here, (range->0).1, start, (range->0).0.key());
                    }
                    self.source.lemma_all_absent(
                        *self.scoring,
                        self.k as nat,
                        self.max_offset,
                        begin.best@,
                        from,
                        known,
                        pivot,
                        self.source.absent_from(lead as int, pivot, 0)->0,
                    );
                    frontier = next.key();
                }
                continue;
            }
            proof {
                crate::tid::lemma_key_injective(pivot, next);
                self.source.lemma_all_present(
                    *self.scoring,
                    self.k as nat,
                    self.max_offset,
                    begin.best@,
                    from,
                    known,
                    pivot,
                );
            }
            let load = match range {
                Some((end, _)) => end.before(pivot),
                None => true,
            };
            if load {
                let ghost here = *self;
                range = Some(self.load_range(pivot));
                proof {
                    start = pivot.key();
                    assert forall|i: int|
                        0 <= i < self.source.terms.len() implies #[trigger] self.passed_exactly(
                        i,
                        pivot.key(),
                    ) by {
                        assert(here.passed_exactly(i, pivot.key()));
                    }
                    assert forall|i: int|
                        0 <= i < self.source.terms.len() implies #[trigger] self.passed_only(
                        i,
                        pivot.key(),
                    ) by {
                        assert(here.passed_only(i, pivot.key()));
                    }
                    assert forall|i: int| 0 <= i < self.source.terms.len() implies #[trigger] self.current_at(
                        i,
                    ) == Some(pivot) by {
                        assert(here.current_at(i) == Some(pivot));
                    }
                }
            }
            if let Some((end, bound)) = range {
                if !self.can_beat(bound, pivot) {
                    proof {
                        assert(self.passed_exactly(lead as int, pivot.key()));
                    }
                    let next: Tid = self.skip_to(lead, pivot, end, bound, Ghost(first), Ghost(start));
                    proof {
                        lemma_split_grows(self.source.documents@, frontier, next.key());
                        frontier = next.key();
                    }
                    continue;
                }
                let ghost here = *self;
                proof {
                    self.lemma_before_visit(lead as int, pivot, bound, start, end.key());
                }
                self.visit_all(lead, pivot, Ghost(first));
                proof {
                    self.lemma_range_same(here, bound, start, end.key());
                    frontier = pivot.key() + 1;
                }
            }
        }
    }

    /// What the loop of a conjunction keeps, once the lead's cursor stands on
    /// `pivot`.
    proof fn lemma_to_pivot(self, lead: int, frontier: int, pivot: Tid)
        requires
            self.valid(),
            0 <= lead < self.source.terms.len(),
            self.passed_exactly(lead, frontier),
            forall|i: int|
                0 <= i < self.source.terms.len() ==> #[trigger] self.passed_only(i, frontier),
            self.current_at(lead) == Some(pivot),
        ensures
            frontier <= pivot.key(),
            self.none_enter(Combine::All, frontier, pivot.key()),
            self.passed_exactly(lead, pivot.key()),
            forall|i: int|
                0 <= i < self.source.terms.len() ==> #[trigger] self.passed_only(i, pivot.key()),
    {
        let term = self.source.terms[lead];
        assert(term.ordered(self.max_offset));
        reveal(TermPostings::ordered);
        assert(frontier <= self.source.terms[lead].postings[self.at[lead] as int].tid.key());
        assert(self.passed_only(lead, frontier));
        self.lemma_missing(lead, frontier, pivot.key());
        assert forall|q: int| 0 <= q < term.postings.len() implies (q < self.at[lead] <==> (
        #[trigger] self.source.terms[lead].postings[q]).tid.key() < pivot.key()) by {
            if self.at[lead] < q {
                assert(term.postings[self.at[lead] as int].tid.key() < term.postings[q].tid.key());
            }
        }
        assert forall|i: int| 0 <= i < self.source.terms.len() implies #[trigger] self.passed_only(
            i,
            pivot.key(),
        ) by {
            assert(self.passed_only(i, frontier));
        }
    }

    proof fn lemma_range_same(self, before: Self, bound: u32, from: int, to: int)
        requires
            self.source == before.source,
            self.scoring == before.scoring,
            self.cached == before.cached,
            before.range_holds(bound, from, to),
        ensures
            self.range_holds(bound, from, to),
    {
        assert forall|i: int| 0 <= i < self.source.terms.len() implies #[trigger] self.cached_holds(
            i,
            from,
            to,
        ) by {
            assert(before.cached_holds(i, from, to));
            self.lemma_cached_same(before, i, from, to);
        }
    }

    /// Moves the lead's cursor from `pivot` to `next`.
    fn lead_to(&mut self, lead: usize, pivot: Tid, next: Tid)
        requires
            old(self).valid(),
            lead < old(self).source.terms.len(),
            old(self).current_at(lead as int) == Some(pivot),
            forall|i: int|
                0 <= i < old(self).source.terms.len() ==> #[trigger] old(self).passed_only(
                    i,
                    pivot.key(),
                ),
            pivot.key() < next.key(),
        ensures
            final(self).valid(),
            final(self).same_rows(*old(self)),
            final(self).cached == old(self).cached,
            final(self).passed_exactly(lead as int, next.key()),
            forall|i: int|
                0 <= i < old(self).source.terms.len() ==> #[trigger] final(self).passed_only(
                    i,
                    next.key(),
                ),
            old(self).at[lead as int] < final(self).at[lead as int],
            final(self).at[lead as int] <= old(self).source.terms[lead as int].postings.len(),
    {
        let ghost before = *self;
        proof {
            assert forall|i: int| 0 <= i < self.source.terms.len() implies #[trigger] self.passed_only(
                i,
                next.key(),
            ) by {
                assert(self.passed_only(i, pivot.key()));
            }
            assert(self.passed_only(lead as int, next.key()));
        }
        self.seek(lead, next);
        proof {
            assert(self.source.terms[lead as int].postings[before.at[lead as int] as int].tid
                == pivot);
            assert forall|i: int| 0 <= i < self.source.terms.len() implies #[trigger] self.passed_only(
                i,
                next.key(),
            ) by {
                if i == lead {
                    assert(self.passed_exactly(i, next.key()));
                } else {
                    assert(before.passed_only(i, next.key()));
                }
            }
        }
    }

    /// Moves the lead's cursor past a range that cannot enter.
    fn skip_to(
        &mut self,
        lead: usize,
        pivot: Tid,
        end: Tid,
        bound: u32,
        Ghost(first): Ghost<Seq<Row>>,
        Ghost(start): Ghost<int>,
    ) -> (next: Tid)
        requires
            old(self).valid(),
            lead < old(self).source.terms.len(),
            old(self).current_at(lead as int) == Some(pivot),
            forall|i: int|
                0 <= i < old(self).source.terms.len() ==> #[trigger] old(self).passed_only(
                    i,
                    pivot.key(),
                ),
            old(self).reached(first, Combine::All, pivot.key()),
            end.valid(old(self).max_offset),
            start <= pivot.key() <= end.key(),
            old(self).range_holds(bound, start, end.key()),
            !enters(old(self).k as nat, old(self).best@, bound, pivot),
        ensures
            final(self).valid(),
            final(self).same_rows(*old(self)),
            next == after(end, old(self).max_offset),
            pivot.key() < next.key(),
            final(self).passed_exactly(lead as int, next.key()),
            forall|i: int|
                0 <= i < old(self).source.terms.len() ==> #[trigger] final(self).passed_only(
                    i,
                    next.key(),
                ),
            final(self).reached(first, Combine::All, next.key()),
            final(self).range_holds(bound, start, end.key()),
            old(self).at[lead as int] < final(self).at[lead as int],
            final(self).at[lead as int] <= old(self).source.terms[lead as int].postings.len(),
    {
        let ghost before = *self;
        let next: Tid = successor(end, self.max_offset);
        proof {
            assert forall|d: int|
                #![trigger self.source.documents[d]]
                0 <= d < self.source.documents.len() && pivot.key()
                    <= self.source.documents[d].tid.key() < next.key() && self.source.is_candidate(
                    Combine::All,
                    self.source.documents[d].tid,
                ) implies !enters(
                self.k as nat,
                self.best@,
                self.source.score_of(*self.scoring, self.source.documents[d]),
                self.source.documents[d].tid,
            ) by {
                assert(self.source.documents[d].tid.valid(self.max_offset));
                assert(self.source.documents[d].tid.key() <= end.key());
                assert(self.source.score_of(*self.scoring, self.source.documents[d]) <= bound);
            }
            self.lemma_pass(first, Combine::All, pivot.key(), next.key());
        }
        self.lead_to(lead, pivot, next);
        proof {
            self.lemma_range_same(before, bound, start, end.key());
        }
        next
    }

    /// What scoring the intersection at `pivot` needs.
    proof fn lemma_before_visit(self, lead: int, pivot: Tid, bound: u32, from: int, to: int)
        requires
            self.valid(),
            0 <= lead < self.source.terms.len(),
            self.current_at(lead) == Some(pivot),
            from <= pivot.key() <= to,
            self.range_holds(bound, from, to),
        ensures
            forall|i: int|
                0 <= i < self.source.terms.len() ==> #[trigger] self.cached_holds(
                    i,
                    pivot.key(),
                    pivot.key(),
                ),
            split(self.source.documents@, pivot.key()) < self.source.documents.len(),
    {
        assert forall|i: int| 0 <= i < self.source.terms.len() implies #[trigger] self.cached_holds(
            i,
            pivot.key(),
            pivot.key(),
        ) by {
            assert(self.cached_holds(i, from, to));
            reveal(Walk::cached_holds);
            let term = self.source.terms[i];
            let b = choose|b: int|
                #![trigger term.blocks[b]]
                0 <= b < term.blocks.len() && term.blocks[b] == (self.cached[i]->0).0 && forall|
                    q: int,
                |
                    0 <= q < term.postings.len() && from <= (#[trigger] term.postings[q]).tid.key()
                        <= to ==> holds(term.blocks@, b, term.postings[q].tid.key());
            assert(term.blocks[b] == (self.cached[i]->0).0);
        }
        let d = self.lemma_document(lead);
        lemma_split(self.source.documents@, pivot.key());
        assert(!(self.source.documents@[d].tid.key() < pivot.key()));
    }

    /// Scores the intersection at `pivot`, and moves the lead past it.
    fn visit_all(&mut self, lead: usize, pivot: Tid, Ghost(first): Ghost<Seq<Row>>)
        requires
            old(self).valid(),
            lead < old(self).source.terms.len(),
            old(self).aligned(pivot.key()),
            forall|i: int|
                0 <= i < old(self).source.terms.len() ==> #[trigger] old(self).current_at(i)
                    == Some(pivot),
            forall|i: int|
                0 <= i < old(self).source.terms.len() ==> #[trigger] old(self).cached_holds(
                    i,
                    pivot.key(),
                    pivot.key(),
                ),
            old(self).reached(first, Combine::All, pivot.key()),
            old(self).scored < usize::MAX,
            old(self).dead_skipped < usize::MAX,
        ensures
            final(self).valid(),
            final(self).same_setting(*old(self)),
            final(self).cached == old(self).cached,
            final(self).passed_exactly(lead as int, pivot.key() + 1),
            forall|i: int|
                0 <= i < old(self).source.terms.len() ==> #[trigger] final(self).passed_only(
                    i,
                    pivot.key() + 1,
                ),
            final(self).reached(first, Combine::All, pivot.key() + 1),
            old(self).at[lead as int] < final(self).at[lead as int],
            final(self).at[lead as int] <= old(self).source.terms[lead as int].postings.len(),
            final(self).scored == old(self).scored + old(self).source.visited(
                *old(self).scoring,
                old(self).k as nat,
                old(self).best@,
                pivot,
                None,
            ).tally.scored,
            final(self).dead_skipped == old(self).dead_skipped + old(self).source.visited(
                *old(self).scoring,
                old(self).k as nat,
                old(self).best@,
                pivot,
                None,
            ).tally.dead,
            final(self).best@ == old(self).source.visited(
                *old(self).scoring,
                old(self).k as nat,
                old(self).best@,
                pivot,
                None,
            ).best,
            old(self).scored <= final(self).scored <= old(self).scored + 1,
            final(self).best.len() == filled(
                old(self).k as int,
                old(self).best.len() as int,
                final(self).scored - old(self).scored,
            ),
            old(self).dead_skipped <= final(self).dead_skipped <= old(self).dead_skipped + 1,
            split(old(self).source.documents@, pivot.key() + 1) == split(
                old(self).source.documents@,
                pivot.key(),
            ) + 1,
    {
        let ghost ready = *self;
        let ghost d: int = 0;
        proof {
            assert(self.current_at(lead as int) == Some(pivot));
            d = self.lemma_document(lead as int);
            assert(self.source.selects(Combine::All, pivot)) by {
                assert forall|i: int| 0 <= i < self.source.terms.len() implies #[trigger] self.source.terms[i].posting_at(
                    pivot,
                ) is Some by {
                    assert(self.current_at(i) == Some(pivot));
                    assert(self.passed_exactly(i, pivot.key()));
                    self.lemma_present(i, pivot);
                }
            }
        }
        self.score(pivot);
        proof {
            self.lemma_score_step(ready, first, Combine::All, pivot, d);
        }
        let ghost scored = *self;
        let next: usize = self.at[lead] + 1;
        self.at.set(lead, next);
        proof {
            assert forall|i: int| 0 <= i < self.source.terms.len() implies #[trigger] self.at[i]
                <= self.source.terms[i].postings.len() by {
                assert(scored.at[i] <= scored.source.terms[i].postings.len());
            }
            assert forall|i: int| 0 <= i < self.source.terms.len() implies self.cache_valid(
                i,
                #[trigger] self.cached[i],
            ) by {
                assert(scored.cache_valid(i, scored.cached[i]));
            }
            let term = self.source.terms[lead as int];
            assert(term.ordered(self.max_offset));
            reveal(TermPostings::ordered);
            assert(ready.passed_exactly(lead as int, pivot.key()));
            assert forall|q: int| 0 <= q < term.postings.len() implies (q < self.at[lead as int]
                <==> (#[trigger] self.source.terms[lead as int].postings[q]).tid.key() < pivot.key()
                + 1) by {
                let at = ready.at[lead as int] as int;
                assert(ready.source.terms[lead as int].postings[q] == term.postings[q]);
                assert(term.postings[at].tid == pivot);
                if at < q {
                    assert(term.postings[at].tid.key() < term.postings[q].tid.key());
                }
            }
            assert forall|i: int| 0 <= i < self.source.terms.len() implies #[trigger] self.passed_only(
                i,
                pivot.key() + 1,
            ) by {
                if i == lead {
                    assert(self.passed_exactly(i, pivot.key() + 1));
                } else {
                    assert(ready.passed_exactly(i, pivot.key()));
                }
            }
        }
    }
}

proof fn lemma_split_grows(documents: Seq<Document>, a: int, b: int)
    requires
        crate::source::documents_ordered(documents),
        a <= b,
    ensures
        split(documents, a) <= split(documents, b) <= documents.len(),
{
    lemma_split(documents, a);
    lemma_split(documents, b);
    if split(documents, b) < split(documents, a) {
        assert(documents[split(documents, b) as int].tid.key() < a);
    }
}

/// At most one document is at `tid`.
pub open spec fn documents_unique(documents: Seq<Document>, tid: Tid) -> bool {
    forall|c: int, d: int|
        0 <= c < documents.len() && 0 <= d < documents.len() && (#[trigger] documents[c]).tid == tid
            && (#[trigger] documents[d]).tid == tid ==> c == d
}

proof fn lemma_documents_unique(documents: Seq<Document>, tid: Tid)
    requires
        crate::source::documents_ordered(documents),
    ensures
        documents_unique(documents, tid),
{
    assert forall|c: int, d: int|
        0 <= c < documents.len() && 0 <= d < documents.len() && (#[trigger] documents[c]).tid == tid
            && (#[trigger] documents[d]).tid == tid implies c == d by {
        if c < d {
            assert(documents[c].tid.key() < documents[d].tid.key());
        } else if d < c {
            assert(documents[d].tid.key() < documents[c].tid.key());
        }
    }
}

} // verus!
