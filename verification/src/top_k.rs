//! The best rows of a query over all sources of an index.

use crate::fx::{fx_set, fx_set_insert};
use crate::query::{flat_shape, prunable_shape, FieldMeta, Query};
use crate::ranking::{
    at_most, in_rank_order, law_offered_all_is_top, lemma_offered_all_concat,
    lemma_offered_all_order, offered_all, ranked, Row,
};
use crate::scoring::{Block, Scoring};
use crate::source::{Combine, Source, TermPostings};
use crate::steps::Tally;
use crate::text::{holds_text, texts};
use crate::tid::Tid;
use crate::walk::{filled, Walk};
use vstd::prelude::*;

verus! {

/// Most rows a scan prunes for. Beyond this the bookkeeping outweighs the
/// scoring it saves, and the scan scores every candidate instead.
pub const PRUNE_MAX_K: usize = 4096;

/// The best rows of a pruned ranked scan.
#[derive(Debug)]
pub struct TopK {
    /// In output order; fewer than `k` only when the query matched fewer.
    pub rows: Vec<Row>,
    /// Candidates whose score was computed.
    pub scored: usize,
    /// True when `rows` holds every candidate: there was never a full set of
    /// best rows, so nothing was skipped.
    pub complete: bool,
}

/// What a pruned walk reports to its caller's counters.
#[derive(Clone, Copy, Debug, PartialEq, Eq, Structural)]
pub enum WalkEvent {
    /// The walk opened a source; `immutable` classifies it by the order of
    /// the sources.
    SourceOpened { immutable: bool },
    /// A candidate was dropped because the source lists it as deleted.
    DeadSkipped,
}

/// What a pruned scan reads of an index.
#[derive(Debug)]
pub struct PrunedScan {
    pub query: Query,
    /// The scoring terms, by slot.
    pub terms: Vec<String>,
    /// The index's field plan; `None` on a single-column index.
    pub fields: Option<FieldMeta>,
    /// The query's leaf terms that some source holds.
    pub held: Vec<String>,
    pub sources: Vec<Source>,
    /// The sources that are immutable come first; how many they are.
    pub immutable_sources: usize,
    /// The most line pointers a block of the heap has.
    pub max_offset: u16,
}

/// The terms of a source in slot order, out of `slots` scoring terms.
pub open spec fn slots_ordered(terms: Seq<TermPostings>, slots: nat) -> bool {
    &&& forall|i: int, j: int|
        0 <= i < j < terms.len() ==> (#[trigger] terms[i]).slot < (#[trigger] terms[j]).slot
    &&& forall|i: int| 0 <= i < terms.len() ==> (#[trigger] terms[i]).slot < slots
}

/// Whether a source cannot be pruned: a term it holds has no block bounds. A
/// conjunction does not look beyond the first scoring term the source lacks.
pub open spec fn refuses(source: Source, combine: Combine) -> bool {
    exists|j: int|
        0 <= j < source.terms.len() && (#[trigger] source.terms[j]).blocks.len() == 0 && (combine
            == Combine::All ==> forall|i: int| 0 <= i <= j ==> (#[trigger] source.terms[i]).slot == i)
}

/// The scored candidates of a source, in heap order: none when it holds no
/// scoring term. One it lacks empties a conjunction.
pub open spec fn source_rows<A, S, B, L, M>(
    source: Source,
    scoring: Scoring<A, S, B, L, M>,
    combine: Combine,
    slots: nat,
) -> Seq<Row> where
    A: Fn(u32, u32) -> u32,
    S: Fn(usize, u32, u32) -> u32,
    B: Fn(usize, Block) -> u32,
    L: Fn(usize, Block, u32) -> u32,
    M: Fn(usize, Block, u32) -> u32,
 {
    if source.terms.len() == 0 || (combine == Combine::All && source.terms.len() < slots) {
        Seq::empty()
    } else {
        source.candidates(scoring, combine, source.documents.len() as nat)
    }
}

/// The scored candidates of all sources, source by source.
pub open spec fn all_rows<A, S, B, L, M>(
    sources: Seq<Source>,
    scoring: Scoring<A, S, B, L, M>,
    combine: Combine,
    slots: nat,
) -> Seq<Row> where
    A: Fn(u32, u32) -> u32,
    S: Fn(usize, u32, u32) -> u32,
    B: Fn(usize, Block) -> u32,
    L: Fn(usize, Block, u32) -> u32,
    M: Fn(usize, Block, u32) -> u32,

    decreases sources.len(),
{
    if sources.len() == 0 {
        Seq::empty()
    } else {
        all_rows(sources.drop_last(), scoring, combine, slots) + source_rows(
            sources.last(),
            scoring,
            combine,
            slots,
        )
    }
}

/// What the walk of a source counts, with the `best` rows so far.
pub open spec fn source_tally<A, S, B, L, M>(
    source: Source,
    scoring: Scoring<A, S, B, L, M>,
    combine: Combine,
    slots: nat,
    k: nat,
    max_offset: u16,
    best: Seq<Row>,
) -> Tally where
    A: Fn(u32, u32) -> u32,
    S: Fn(usize, u32, u32) -> u32,
    B: Fn(usize, Block) -> u32,
    L: Fn(usize, Block, u32) -> u32,
    M: Fn(usize, Block, u32) -> u32,
 {
    if source.terms.len() == 0 || (combine == Combine::All && source.terms.len() < slots) {
        Tally::nothing()
    } else {
        source.tally(scoring, combine, k, max_offset, best)
    }
}

/// A walk of some sources: the best rows, how many candidates were scored, what
/// was reported, and whether the last of the sources could not be pruned.
pub struct Trace {
    pub best: Seq<Row>,
    pub scored: nat,
    pub events: Seq<WalkEvent>,
    pub refused: bool,
}

impl Trace {
    /// Nothing was walked.
    pub open spec fn nothing() -> Trace {
        Trace { best: Seq::empty(), scored: 0, events: Seq::empty(), refused: false }
    }
}

/// The walk of the sources, one after the other, up to the first that cannot be
/// pruned.
pub open spec fn trace<A, S, B, L, M>(
    sources: Seq<Source>,
    scoring: Scoring<A, S, B, L, M>,
    combine: Combine,
    slots: nat,
    immutable_sources: nat,
    k: nat,
    max_offset: u16,
) -> Trace where
    A: Fn(u32, u32) -> u32,
    S: Fn(usize, u32, u32) -> u32,
    B: Fn(usize, Block) -> u32,
    L: Fn(usize, Block, u32) -> u32,
    M: Fn(usize, Block, u32) -> u32,

    decreases sources.len(),
{
    if sources.len() == 0 {
        Trace::nothing()
    } else {
        let before = trace(
            sources.drop_last(),
            scoring,
            combine,
            slots,
            immutable_sources,
            k,
            max_offset,
        );
        let source = sources.last();
        let opened = before.events.push(
            WalkEvent::SourceOpened { immutable: sources.len() - 1 < immutable_sources },
        );
        let tally = source_tally(source, scoring, combine, slots, k, max_offset, before.best);
        if before.refused {
            before
        } else if refuses(source, combine) {
            Trace { best: before.best, scored: before.scored, events: opened, refused: true }
        } else {
            Trace {
                best: offered_all(k, before.best, source_rows(source, scoring, combine, slots)),
                scored: before.scored + tally.scored,
                events: opened + Seq::new(tally.dead, |i: int| WalkEvent::DeadSkipped),
                refused: false,
            }
        }
    }
}

/// What comes after a source that cannot be pruned changes nothing.
proof fn lemma_trace_refused<A, S, B, L, M>(
    sources: Seq<Source>,
    upto: int,
    scoring: Scoring<A, S, B, L, M>,
    combine: Combine,
    slots: nat,
    immutable_sources: nat,
    k: nat,
    max_offset: u16,
) where
    A: Fn(u32, u32) -> u32,
    S: Fn(usize, u32, u32) -> u32,
    B: Fn(usize, Block) -> u32,
    L: Fn(usize, Block, u32) -> u32,
    M: Fn(usize, Block, u32) -> u32,

    requires
        0 <= upto <= sources.len(),
        trace(
            sources.take(upto),
            scoring,
            combine,
            slots,
            immutable_sources,
            k,
            max_offset,
        ).refused,
    ensures
        trace(sources, scoring, combine, slots, immutable_sources, k, max_offset) == trace(
            sources.take(upto),
            scoring,
            combine,
            slots,
            immutable_sources,
            k,
            max_offset,
        ),
    decreases sources.len() - upto,
{
    if upto < sources.len() {
        assert(sources.take(upto + 1).drop_last() =~= sources.take(upto));
        lemma_trace_refused(
            sources,
            upto + 1,
            scoring,
            combine,
            slots,
            immutable_sources,
            k,
            max_offset,
        );
    } else {
        assert(sources.take(upto) =~= sources);
    }
}

/// How many documents the sources list.
pub open spec fn document_count(sources: Seq<Source>) -> nat
    decreases sources.len(),
{
    if sources.len() == 0 {
        0
    } else {
        document_count(sources.drop_last()) + sources.last().documents.len() as nat
    }
}

/// No two rows are at the same location.
pub open spec fn locations_distinct(rows: Seq<Row>) -> bool {
    forall|i: int, j: int| 0 <= i < j < rows.len() ==> rows[i].tid != rows[j].tid
}

/// The sources opened, among `events`.
pub open spec fn opened(events: Seq<WalkEvent>) -> Seq<WalkEvent> {
    events.filter(|event: WalkEvent| event is SourceOpened)
}

/// The opening of the first `n` sources.
pub open spec fn openings(n: nat, immutable_sources: nat) -> Seq<WalkEvent> {
    Seq::new(n, |i: int| WalkEvent::SourceOpened { immutable: i < immutable_sources })
}

/// The sources are in order and their block bounds hold.
pub open spec fn sources_valid<A, S, B, L, M>(
    sources: Seq<Source>,
    scoring: Scoring<A, S, B, L, M>,
    slots: nat,
    max_offset: u16,
) -> bool where
    A: Fn(u32, u32) -> u32,
    S: Fn(usize, u32, u32) -> u32,
    B: Fn(usize, Block) -> u32,
    L: Fn(usize, Block, u32) -> u32,
    M: Fn(usize, Block, u32) -> u32,
 {
    forall|i: int| #![trigger sources[i]]
        0 <= i < sources.len() ==> sources[i].ordered(max_offset) && sources[i].bounds_hold(scoring)
            && slots_ordered(sources[i].terms@, slots)
}

/// Whether the walk of a source may start: `None` when the source cannot be
/// pruned, `Some(false)` when there is nothing to walk.
fn walkable(source: &Source, combine: Combine, slots: usize) -> (walk: Option<bool>)
    requires
        slots_ordered(source.terms@, slots as nat),
    ensures
        walk is None <==> refuses(*source, combine),
        walk == Some(true) ==> forall|j: int|
            0 <= j < source.terms.len() ==> (#[trigger] source.terms[j]).blocks.len() > 0,
        walk == Some(true) ==> source.terms.len() > 0 && (combine == Combine::All
            ==> source.terms.len() == slots),
        walk == Some(false) ==> source.terms.len() == 0 || (combine == Combine::All
            && source.terms.len() < slots),
{
    let mut slot: usize = 0;
    let mut j: usize = 0;
    while slot < slots
        invariant
            slots_ordered(source.terms@, slots as nat),
            slot <= slots,
            j <= slot,
            j <= source.terms.len(),
            j < source.terms.len() ==> slot <= source.terms[j as int].slot,
            j > 0 ==> source.terms[j - 1].slot < slot,
            forall|i: int| 0 <= i < j ==> (#[trigger] source.terms[i]).blocks.len() > 0,
            combine == Combine::All ==> j == slot && forall|i: int|
                0 <= i < j ==> (#[trigger] source.terms[i]).slot == i,
        decreases slots - slot,
    {
        if j < source.terms.len() && source.terms[j].slot == slot {
            if source.terms[j].blocks.len() == 0 {
                return None;
            }
            proof {
                if j + 1 < source.terms.len() {
                    assert(source.terms[j as int].slot < source.terms[j + 1].slot);
                }
            }
            j = j + 1;
        } else if combine == Combine::All {
            proof {
                if source.terms.len() >= slots {
                    lemma_slots_complete(source.terms@, slots as nat, j as int);
                }
                assert forall|k: int|
                    0 <= k < source.terms.len() && (#[trigger] source.terms[k]).blocks.len()
                        == 0 implies !(forall|i: int|
                    0 <= i <= k ==> (#[trigger] source.terms[i]).slot == i) by {
                    if k >= j {
                        assert(source.terms[j as int].slot != j);
                    }
                }
            }
            return Some(false);
        }
        slot = slot + 1;
    }
    proof {
        if j < source.terms.len() {
            assert(source.terms[j as int].slot < slots);
        }
    }
    Some(source.terms.len() > 0)
}

pub(crate) proof fn lemma_slots_complete(terms: Seq<TermPostings>, slots: nat, j: int)
    requires
        slots_ordered(terms, slots),
        terms.len() >= slots,
        0 <= j < terms.len(),
    ensures
        terms.len() == slots,
        terms[j].slot == j,
    decreases terms.len(),
{
    lemma_slot_at_least(terms, slots, j);
    lemma_slot_at_least(terms, slots, terms.len() - 1);
    if terms[j].slot > j {
        lemma_slot_gap(terms, slots, j, terms.len() - 1);
    }
}

pub(crate) proof fn lemma_slot_at_least(terms: Seq<TermPostings>, slots: nat, j: int)
    requires
        slots_ordered(terms, slots),
        0 <= j < terms.len(),
    ensures
        terms[j].slot >= j,
    decreases j,
{
    if j > 0 {
        lemma_slot_at_least(terms, slots, j - 1);
        assert(terms[j - 1].slot < terms[j].slot);
    }
}

proof fn lemma_slot_gap(terms: Seq<TermPostings>, slots: nat, j: int, k: int)
    requires
        slots_ordered(terms, slots),
        0 <= j <= k < terms.len(),
        terms[j].slot > j,
    ensures
        terms[k].slot > k,
    decreases k - j,
{
    if j < k {
        lemma_slot_gap(terms, slots, j, k - 1);
        assert(terms[k - 1].slot < terms[k].slot);
    }
}

/// Walks one source, keeping the best rows. `None` when the source cannot be
/// pruned; otherwise how many candidates were scored and how many were
/// dropped as deleted.
pub fn prune_source<A, S, B, L, M>(
    scoring: &Scoring<A, S, B, L, M>,
    source: &Source,
    slots: usize,
    max_offset: u16,
    combine: Combine,
    k: usize,
    best: &mut Vec<Row>,
) -> (walked: Option<(usize, usize)>) where
    A: Fn(u32, u32) -> u32,
    S: Fn(usize, u32, u32) -> u32,
    B: Fn(usize, Block) -> u32,
    L: Fn(usize, Block, u32) -> u32,
    M: Fn(usize, Block, u32) -> u32,

    requires
        scoring.deterministic(),
        scoring.sound(),
        source.ordered(max_offset),
        source.bounds_hold(*scoring),
        slots_ordered(source.terms@, slots as nat),
        k > 0,
        in_rank_order(old(best)@),
        old(best).len() <= k,
    ensures
        walked is None <==> refuses(*source, combine),
        walked is None ==> final(best)@ == old(best)@,
        walked is Some ==> final(best)@ == offered_all(
            k as nat,
            old(best)@,
            source_rows(*source, *scoring, combine, slots as nat),
        ),
        walked matches Some((scored, dead)) ==> (Tally { scored: scored as nat, dead: dead as nat })
            == source_tally(
            *source,
            *scoring,
            combine,
            slots as nat,
            k as nat,
            max_offset,
            old(best)@,
        ),
        walked matches Some((scored, dead)) ==> scored <= source.documents.len() && dead
            <= source.documents.len() && final(best).len() == filled(
            k as int,
            old(best).len() as int,
            scored as int,
        ),
{
    match walkable(source, combine, slots) {
        None => None,
        Some(false) => Some((0, 0)),
        Some(true) => {
            let n: usize = source.terms.len();
            let mut at: Vec<usize> = Vec::new();
            let mut term_max: Vec<u32> = Vec::new();
            let mut cached: Vec<Option<(Block, u32)>> = Vec::new();
            let mut i: usize = 0;
            while i < n
                invariant
                    scoring.deterministic(),
                    n == source.terms.len(),
                    i <= n,
                    at.len() == i,
                    term_max.len() == i,
                    cached.len() == i,
                    forall|j: int| 0 <= j < i ==> #[trigger] at[j] == 0,
                    forall|j: int| 0 <= j < i ==> #[trigger] cached[j] is None,
                    forall|j: int|
                        0 <= j < i ==> #[trigger] term_max[j] == scoring.block_bound(
                            source.terms[j].slot,
                            source.terms[j].whole,
                        ),
                decreases n - i,
            {
                at.push(0);
                cached.push(None);
                let bound: u32 = (scoring.bound)(source.terms[i].slot, source.terms[i].whole);
                term_max.push(bound);
                i = i + 1;
            }
            let mut rows: Vec<Row> = Vec::new();
            std::mem::swap(best, &mut rows);
            let mut walk = Walk {
                scoring,
                source,
                max_offset,
                k,
                best: rows,
                at,
                term_max,
                cached,
                scored: 0,
                dead_skipped: 0,
            };
            match combine {
                Combine::Any => walk.any(),
                Combine::All => walk.all(),
            }
            let scored: usize = walk.scored;
            let dead: usize = walk.dead_skipped;
            *best = walk.best;
            Some((scored, dead))
        },
    }
}

/// Why a scan cannot be pruned, or how its leaf terms combine.
#[derive(Clone, Copy, Debug, PartialEq, Eq, Structural)]
pub enum Prunable {
    /// Every candidate is scored instead.
    No,
    /// No document can match: a conjunction has a term no source holds.
    Nothing,
    /// The walk finds the best rows.
    Walk(Combine),
}

impl PrunedScan {
    /// Whether the query is a flat conjunction or disjunction of exactly the
    /// scoring terms. Every scoring term must be a leaf, and a leaf that is
    /// not a scoring term must be absent from the index altogether: it then
    /// adds nothing to a disjunction and empties a conjunction.
    pub open spec fn pruning(self) -> Prunable {
        if self.fields is Some {
            Prunable::No
        } else {
            match flat_shape(self.query) {
                None => Prunable::No,
                Some((combine, leaves)) => {
                    let terms = texts(self.terms@);
                    if exists|t: Seq<char>| #[trigger] terms.contains(t) && !leaves.contains(t) {
                        Prunable::No
                    } else if exists|t: Seq<char>| #[trigger]
                        leaves.contains(t) && !terms.contains(t) && texts(self.held@).contains(t) {
                        Prunable::No
                    } else if combine == Combine::All && exists|t: Seq<char>| #[trigger]
                        leaves.contains(t) && !terms.contains(t) {
                        Prunable::Nothing
                    } else {
                        Prunable::Walk(combine)
                    }
                },
            }
        }
    }

    /// The scored candidates of the scan, source by source.
    pub open spec fn rows<A, S, B, L, M>(self, scoring: Scoring<A, S, B, L, M>) -> Seq<Row> where
        A: Fn(u32, u32) -> u32,
        S: Fn(usize, u32, u32) -> u32,
        B: Fn(usize, Block) -> u32,
        L: Fn(usize, Block, u32) -> u32,
        M: Fn(usize, Block, u32) -> u32,
     {
        match self.pruning() {
            Prunable::Walk(combine) => all_rows(
                self.sources@,
                scoring,
                combine,
                self.terms.len() as nat,
            ),
            _ => Seq::empty(),
        }
    }

    /// The walk that looks for the `k` best candidates.
    pub open spec fn walk<A, S, B, L, M>(self, scoring: Scoring<A, S, B, L, M>, k: nat) -> Trace where
        A: Fn(u32, u32) -> u32,
        S: Fn(usize, u32, u32) -> u32,
        B: Fn(usize, Block) -> u32,
        L: Fn(usize, Block, u32) -> u32,
        M: Fn(usize, Block, u32) -> u32,
     {
        match self.pruning() {
            Prunable::Walk(combine) => if k > 0 {
                trace(
                    self.sources@,
                    scoring,
                    combine,
                    self.terms.len() as nat,
                    self.immutable_sources as nat,
                    k,
                    self.max_offset,
                )
            } else {
                Trace::nothing()
            },
            _ => Trace::nothing(),
        }
    }

    /// The `k` best candidates, unless the scan cannot be pruned or two of
    /// them are at one location.
    pub open spec fn best<A, S, B, L, M>(self, scoring: Scoring<A, S, B, L, M>, k: nat) -> Option<
        Seq<Row>,
    > where
        A: Fn(u32, u32) -> u32,
        S: Fn(usize, u32, u32) -> u32,
        B: Fn(usize, Block) -> u32,
        L: Fn(usize, Block, u32) -> u32,
        M: Fn(usize, Block, u32) -> u32,
     {
        let rows = at_most(k, ranked(self.rows(scoring)));
        if self.pruning() == Prunable::No {
            None
        } else if k == 0 {
            Some(Seq::empty())
        } else if self.pruning() matches Prunable::Walk(combine) && exists|i: int|
            0 <= i < self.sources.len() && refuses(#[trigger] self.sources[i], combine) {
            None
        } else if !locations_distinct(rows) {
            None
        } else {
            Some(rows)
        }
    }

    /// How the scan prunes.
    fn shape(&self) -> (prunable: Prunable)
        ensures
            prunable == self.pruning(),
    {
        if self.fields.is_some() {
            return Prunable::No;
        }
        let (combine, leaves) = match prunable_shape(&self.query) {
            Some(shape) => shape,
            None => {
                return Prunable::No;
            },
        };
        let ghost terms = texts(self.terms@);
        let ghost flat = (flat_shape(self.query)->0).1;
        let ghost found = texts(leaves@);
        proof {
            assert(forall|t: Seq<char>| #[trigger] found.contains(t) <==> flat.contains(t));
        }
        let mut i: usize = 0;
        while i < self.terms.len()
            invariant
                i <= self.terms.len(),
                terms == texts(self.terms@),
                found == texts(leaves@),
                self.fields is None,
                flat_shape(self.query) == Some((combine, flat)),
                forall|t: Seq<char>| #[trigger] found.contains(t) <==> flat.contains(t),
                forall|j: int| 0 <= j < i ==> flat.contains(#[trigger] terms[j]),
            decreases self.terms.len() - i,
        {
            if !holds_text(&leaves, self.terms[i].as_str()) {
                proof {
                    let t = terms[i as int];
                    assert(terms.contains(t) && !found.contains(t));
                }
                return Prunable::No;
            }
            assert(found.contains(terms[i as int]));
            i = i + 1;
        }
        let mut absent = false;
        let mut i: usize = 0;
        while i < leaves.len()
            invariant
                i <= leaves.len(),
                terms == texts(self.terms@),
                found == texts(leaves@),
                self.fields is None,
                flat_shape(self.query) == Some((combine, flat)),
                forall|t: Seq<char>| #[trigger] found.contains(t) <==> flat.contains(t),
                forall|t: Seq<char>| #[trigger] terms.contains(t) ==> flat.contains(t),
                forall|j: int|
                    0 <= j < i && !terms.contains(#[trigger] found[j]) ==> absent && !texts(
                        self.held@,
                    ).contains(found[j]),
                absent ==> exists|t: Seq<char>| #[trigger] flat.contains(t) && !terms.contains(t),
            decreases leaves.len() - i,
        {
            if !holds_text(&self.terms, leaves[i].as_str()) {
                proof {
                    let t = found[i as int];
                    assert(found.contains(t));
                    assert(flat.contains(t));
                }
                if holds_text(&self.held, leaves[i].as_str()) {
                    return Prunable::No;
                }
                absent = true;
            }
            i = i + 1;
        }
        proof {
            assert forall|t: Seq<char>| #[trigger] flat.contains(t) && !terms.contains(t) implies absent
                && !texts(self.held@).contains(t) by {
                assert(found.contains(t));
                let j = choose|j: int| 0 <= j < found.len() && found[j] == t;
                assert(!terms.contains(found[j]));
            }
        }
        if absent && combine == Combine::All {
            Prunable::Nothing
        } else {
            Prunable::Walk(combine)
        }
    }

    /// The `k` best candidates of the scan's query in output order, found
    /// with block-max pruning. `None` when the query is not a flat
    /// conjunction or disjunction of exactly the scoring terms, or a source
    /// carries no block bounds, or a location is among the best in two
    /// sources; the caller then scores every candidate. What the walk did up
    /// to there is reported either way.
    pub fn top_k<A, S, B, L, M>(
        &self,
        scoring: &Scoring<A, S, B, L, M>,
        k: usize,
        events: &mut Vec<WalkEvent>,
    ) -> (top: Option<TopK>) where
        A: Fn(u32, u32) -> u32,
        S: Fn(usize, u32, u32) -> u32,
        B: Fn(usize, Block) -> u32,
        L: Fn(usize, Block, u32) -> u32,
        M: Fn(usize, Block, u32) -> u32,

        requires
            scoring.deterministic(),
            scoring.sound(),
            sources_valid(self.sources@, *scoring, self.terms.len() as nat, self.max_offset),
            document_count(self.sources@) <= usize::MAX,
        ensures
            final(events)@ == old(events)@ + self.walk(*scoring, k as nat).events,
            match self.best(*scoring, k as nat) {
                None => top is None,
                Some(rows) => {
                    &&& top is Some
                    &&& top->0.rows@ == rows
                    &&& top->0.complete == (rows.len() < k)
                    &&& top->0.scored == self.walk(*scoring, k as nat).scored
                    &&& top->0.scored <= document_count(self.sources@)
                    &&& rows.len() == filled(k as int, 0, top->0.scored as int)
                    &&& old(events)@ == final(events)@.take(old(events).len() as int)
                    &&& final(events).len() <= old(events).len() + self.sources.len()
                        + document_count(self.sources@)
                    &&& opened(final(events)@) == opened(old(events)@) + (if self.pruning() is Walk
                        && k > 0 {
                        openings(self.sources.len() as nat, self.immutable_sources as nat)
                    } else {
                        Seq::empty()
                    })
                },
            },
    {
        let prunable = self.shape();
        let mut best: Vec<Row> = Vec::new();
        let mut scored: usize = 0;
        let ghost before = events@;
        proof {
            assert(opened(before) + Seq::<WalkEvent>::empty() =~= opened(before));
            assert(before + Seq::<WalkEvent>::empty() =~= before);
            assert(before.take(before.len() as int) =~= before);
            assert(at_most(0, ranked(self.rows(*scoring))) =~= Seq::<Row>::empty());
        }
        match prunable {
            Prunable::No => {
                return None;
            },
            Prunable::Nothing => {
                assert(at_most(k as nat, ranked(self.rows(*scoring))) =~= best@);
            },
            Prunable::Walk(combine) => {
                if k > 0 {
                    match self.walk_sources(scoring, combine, k, events) {
                        Some((rows, count)) => {
                            best = rows;
                            scored = count;
                        },
                        None => {
                            return None;
                        },
                    }
                }
            },
        }
        if !distinct(&best) {
            return None;
        }
        let complete = best.len() < k;
        Some(TopK { rows: best, scored, complete })
    }

    fn walk_sources<A, S, B, L, M>(
        &self,
        scoring: &Scoring<A, S, B, L, M>,
        combine: Combine,
        k: usize,
        events: &mut Vec<WalkEvent>,
    ) -> (found: Option<(Vec<Row>, usize)>) where
        A: Fn(u32, u32) -> u32,
        S: Fn(usize, u32, u32) -> u32,
        B: Fn(usize, Block) -> u32,
        L: Fn(usize, Block, u32) -> u32,
        M: Fn(usize, Block, u32) -> u32,

        requires
            k > 0,
            scoring.deterministic(),
            scoring.sound(),
            sources_valid(self.sources@, *scoring, self.terms.len() as nat, self.max_offset),
            document_count(self.sources@) <= usize::MAX,
        ensures
            found is None <==> exists|i: int|
                0 <= i < self.sources.len() && refuses(#[trigger] self.sources[i], combine),
            final(events)@ == old(events)@ + trace(
                self.sources@,
                *scoring,
                combine,
                self.terms.len() as nat,
                self.immutable_sources as nat,
                k as nat,
                self.max_offset,
            ).events,
            found matches Some((rows, scored)) ==> {
                &&& scored == trace(
                    self.sources@,
                    *scoring,
                    combine,
                    self.terms.len() as nat,
                    self.immutable_sources as nat,
                    k as nat,
                    self.max_offset,
                ).scored
                &&& rows@ == at_most(
                    k as nat,
                    ranked(all_rows(self.sources@, *scoring, combine, self.terms.len() as nat)),
                )
                &&& scored <= document_count(self.sources@)
                &&& rows.len() == filled(k as int, 0, scored as int)
                &&& old(events)@ == final(events)@.take(old(events).len() as int)
                &&& final(events).len() <= old(events).len() + self.sources.len() + document_count(
                    self.sources@,
                )
                &&& opened(final(events)@) == opened(old(events)@) + openings(
                    self.sources.len() as nat,
                    self.immutable_sources as nat,
                )
            },
    {
        let slots: usize = self.terms.len();
        let mut best: Vec<Row> = Vec::new();
        let mut scored: usize = 0;
        let mut i: usize = 0;
        let ghost before = opened(events@);
        let ghost given = events@;
        proof {
            assert(events@.take(given.len() as int) =~= given);
            assert(self.sources@.take(0) =~= Seq::empty());
            assert(before + openings(0, self.immutable_sources as nat) =~= before);
            assert(given + Seq::<WalkEvent>::empty() =~= given);
        }
        while i < self.sources.len()
            invariant
                k > 0,
                slots == self.terms.len(),
                scoring.deterministic(),
                scoring.sound(),
                sources_valid(self.sources@, *scoring, self.terms.len() as nat, self.max_offset),
                document_count(self.sources@) <= usize::MAX,
                i <= self.sources.len(),
                forall|j: int| 0 <= j < i ==> !refuses(#[trigger] self.sources[j], combine),
                in_rank_order(best@),
                best.len() <= k,
                best@ == offered_all(
                    k as nat,
                    Seq::empty(),
                    all_rows(self.sources@.take(i as int), *scoring, combine, slots as nat),
                ),
                ({
                    let walked = trace(
                        self.sources@.take(i as int),
                        *scoring,
                        combine,
                        slots as nat,
                        self.immutable_sources as nat,
                        k as nat,
                        self.max_offset,
                    );
                    &&& !walked.refused
                    &&& walked.best == best@
                    &&& walked.scored == scored
                    &&& events@ == given + walked.events
                }),
                scored <= document_count(self.sources@.take(i as int)),
                best.len() == filled(k as int, 0, scored as int),
                given == old(events)@,
                given == events@.take(given.len() as int),
                given.len() <= events.len() <= given.len() + i + document_count(
                    self.sources@.take(i as int),
                ),
                opened(events@) == before + openings(i as nat, self.immutable_sources as nat),
            decreases self.sources.len() - i,
        {
            let source = &self.sources[i];
            proof {
                let head = self.sources@.take(i as int);
                let longer = self.sources@.take(i + 1);
                assert(longer.drop_last() =~= head);
                assert(longer.last() == *source);
                assert(self.sources@[i as int] == *source);
                lemma_count_grows(self.sources@, i + 1);
                lemma_offered_all_concat(
                    k as nat,
                    Seq::empty(),
                    all_rows(head, *scoring, combine, slots as nat),
                    source_rows(*source, *scoring, combine, slots as nat),
                );
                lemma_offered_all_order(
                    k as nat,
                    best@,
                    source_rows(*source, *scoring, combine, slots as nat),
                );
            }
            let ghost walked = trace(
                self.sources@.take(i as int),
                *scoring,
                combine,
                slots as nat,
                self.immutable_sources as nat,
                k as nat,
                self.max_offset,
            );
            let ghost tally = source_tally(
                *source,
                *scoring,
                combine,
                slots as nat,
                k as nat,
                self.max_offset,
                best@,
            );
            let ghost seen = events@;
            let opening = WalkEvent::SourceOpened { immutable: i < self.immutable_sources };
            events.push(opening);
            proof {
                lemma_opened_push(seen, opening);
                assert(events@.take(given.len() as int) =~= given);
                assert(events@ =~= given + walked.events.push(opening));
            }
            match prune_source(scoring, source, slots, self.max_offset, combine, k, &mut best) {
                Some((counted, dead)) => {
                    scored = scored + counted;
                    let mut d: usize = 0;
                    let ghost opened_now = opened(events@);
                    let ghost now = events.len();
                    assert(events@ =~= given + walked.events.push(opening) + Seq::new(
                        0,
                        |i: int| WalkEvent::DeadSkipped,
                    ));
                    while d < dead
                        invariant
                            d <= dead,
                            opened(events@) == opened_now,
                            given.len() <= events.len() == now + d,
                            given == events@.take(given.len() as int),
                            events@ == given + walked.events.push(opening) + Seq::new(
                                d as nat,
                                |i: int| WalkEvent::DeadSkipped,
                            ),
                        decreases dead - d,
                    {
                        let ghost seen = events@;
                        events.push(WalkEvent::DeadSkipped);
                        proof {
                            lemma_opened_push(seen, WalkEvent::DeadSkipped);
                            assert(events@.take(given.len() as int) =~= given);
                            assert(events@ =~= given + walked.events.push(opening) + Seq::new(
                                (d + 1) as nat,
                                |i: int| WalkEvent::DeadSkipped,
                            ));
                        }
                        d = d + 1;
                    }
                },
                None => {
                    proof {
                        lemma_trace_refused(
                            self.sources@,
                            i + 1,
                            *scoring,
                            combine,
                            slots as nat,
                            self.immutable_sources as nat,
                            k as nat,
                            self.max_offset,
                        );
                    }
                    return None;
                },
            }
            proof {
                assert(given + walked.events.push(opening) + Seq::new(
                    tally.dead,
                    |i: int| WalkEvent::DeadSkipped,
                ) =~= given + (walked.events.push(opening) + Seq::new(
                    tally.dead,
                    |i: int| WalkEvent::DeadSkipped,
                )));
                assert(before + openings((i + 1) as nat, self.immutable_sources as nat) =~= (before
                    + openings(i as nat, self.immutable_sources as nat)).push(opening));
            }
            i = i + 1;
        }
        proof {
            assert(self.sources@.take(i as int) =~= self.sources@);
            law_offered_all_is_top(
                k as nat,
                all_rows(self.sources@, *scoring, combine, slots as nat),
            );
        }
        Some((best, scored))
    }
}

proof fn lemma_opened_push(events: Seq<WalkEvent>, event: WalkEvent)
    ensures
        opened(events.push(event)) == if event is SourceOpened {
            opened(events).push(event)
        } else {
            opened(events)
        },
{
    reveal(Seq::filter);
    assert(events.push(event).drop_last() =~= events);
}

proof fn lemma_count_grows(sources: Seq<Source>, upto: int)
    requires
        0 <= upto <= sources.len(),
    ensures
        document_count(sources.take(upto)) <= document_count(sources),
    decreases sources.len() - upto,
{
    if upto < sources.len() {
        lemma_count_grows(sources, upto + 1);
        assert(sources.take(upto + 1).drop_last() =~= sources.take(upto));
    } else {
        assert(sources.take(upto) =~= sources);
    }
}

/// Whether no two rows are at the same location.
fn distinct(rows: &Vec<Row>) -> (all: bool)
    ensures
        all == locations_distinct(rows@),
{
    let mut seen = fx_set();
    let mut i: usize = 0;
    while i < rows.len()
        invariant
            i <= rows.len(),
            locations_distinct(rows@.take(i as int)),
            forall|j: int| 0 <= j < i ==> seen@.contains((#[trigger] rows[j]).tid.key() as u64),
            forall|key: u64| #[trigger]
                seen@.contains(key) ==> exists|j: int|
                    0 <= j < i && (#[trigger] rows[j]).tid.key() == key,
        decreases rows.len() - i,
    {
        let tid: Tid = rows[i].tid;
        let ghost was = seen@;
        if !fx_set_insert(&mut seen, tid.number()) {
            proof {
                assert(was.contains(tid.key() as u64));
                let j = choose|j: int| 0 <= j < i && (#[trigger] rows[j]).tid.key() == tid.key();
                crate::tid::lemma_key_injective(rows[j].tid, tid);
                assert(rows@[j].tid == rows@[i as int].tid);
            }
            return false;
        }
        proof {
            let longer = rows@.take(i + 1);
            assert forall|a: int, b: int| 0 <= a < b < longer.len() implies longer[a].tid
                != longer[b].tid by {
                if b == i {
                    assert(was.contains(rows[a].tid.key() as u64));
                } else {
                    assert(rows@.take(i as int)[a] == longer[a]);
                    assert(rows@.take(i as int)[b] == longer[b]);
                }
            }
            assert forall|key: u64| #[trigger] seen@.contains(key) implies exists|j: int|
                0 <= j < i + 1 && (#[trigger] rows[j]).tid.key() == key by {
                if key == tid.key() as u64 {
                    assert(rows[i as int].tid.key() == key);
                } else {
                    assert(was.contains(key));
                }
            }
        }
        i = i + 1;
    }
    proof {
        assert(rows@.take(i as int) =~= rows@);
    }
    true
}

} // verus!
