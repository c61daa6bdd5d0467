//! Which scorer a score call reads: the statement's own, or that of a ranked
//! scan for the row the scan emitted last.

use crate::laws::calls::{lemma_row_put_out, row_put_out};
use crate::ranking::Row;
use crate::scorer::KnownScores;
use crate::text::{list_texts, same, same_all};
use crate::tid::Tid;
use vstd::prelude::*;

verus! {

/// What a scorer was built for. Numbers are bit patterns.
#[derive(Clone, Debug)]
pub struct CacheKey {
    /// The executor run the scorer was built for.
    pub statement: u64,
    pub heap_oid: u32,
    pub index_oid: u32,
    pub query: String,
    pub full: bool,
    pub dense: u32,
    pub k1: Option<u32>,
    pub b: Option<u32>,
    pub add: Option<Vec<String>>,
    pub replace: Option<Vec<String>>,
}

fn same_list(a: &Option<Vec<String>>, b: &Option<Vec<String>>) -> (equal: bool)
    ensures
        equal == (list_texts(*a) == list_texts(*b)),
{
    match (a, b) {
        (None, None) => true,
        (Some(left), Some(right)) => same_all(left, right),
        _ => false,
    }
}

impl CacheKey {
    /// Both score the same rows of the same index for the same query, in the
    /// same way.
    pub open spec fn same_query(self, other: CacheKey) -> bool {
        &&& self.heap_oid == other.heap_oid
        &&& self.index_oid == other.index_oid
        &&& self.full == other.full
        &&& self.dense == other.dense
        &&& self.k1 == other.k1
        &&& self.b == other.b
        &&& self.query@ == other.query@
        &&& list_texts(self.add) == list_texts(other.add)
        &&& list_texts(self.replace) == list_texts(other.replace)
    }

    /// Whether both are for the same query, scored in the same way.
    pub fn is_same_query(&self, other: &CacheKey) -> (equal: bool)
        ensures
            equal == self.same_query(*other),
    {
        self.heap_oid == other.heap_oid && self.index_oid == other.index_oid && self.full
            == other.full && self.dense == other.dense && same_bits(self.k1, other.k1) && same_bits(
            self.b,
            other.b,
        ) && same(self.query.as_str(), other.query.as_str()) && same_list(&self.add, &other.add)
            && same_list(&self.replace, &other.replace)
    }

    /// Whether a cached scorer answers a call: it is for the same query, and
    /// for the statement that the call is in.
    pub fn answers(&self, call: &CacheKey) -> (answers: bool)
        ensures
            answers == (self.statement == call.statement && self.same_query(*call)),
    {
        self.statement == call.statement && self.is_same_query(call)
    }
}

fn same_bits(a: Option<u32>, b: Option<u32>) -> (equal: bool)
    ensures
        equal == (a == b),
{
    match (a, b) {
        (Some(left), Some(right)) => left == right,
        (None, None) => true,
        _ => false,
    }
}

/// Whether a score mode follows the full policy.
pub fn mode_is_full(mode: i32) -> (full: bool)
    ensures
        full == (mode == 1 || mode == 3),
{
    mode == 1 || mode == 3
}

/// Whether a score mode asks for the maximum over matching documents.
pub fn mode_is_max(mode: i32) -> (max: bool)
    ensures
        max == (mode >= 2),
{
    mode >= 2
}

/// The row a ranked scan emitted last.
#[derive(Clone, Copy, Debug, PartialEq, Eq, Structural)]
pub struct Emitted {
    /// The visible tuple's location, as the executor projects it.
    pub member: Tid,
    /// The location the scan ranked: the root of the tuple's HOT chain.
    pub root: Tid,
    /// The statement the row was emitted in; a later statement's score calls
    /// are for other rows.
    pub statement: u64,
    /// Emission order across scans.
    pub stamp: u64,
}

/// A live ranked scan's scorer, with the score of every row it ranked.
pub struct ScanScorer<P> {
    pub scan: u64,
    /// A row is projected after its scan emitted it and before that scan
    /// emits another, so this names exactly the rows whose score the scan
    /// owns.
    pub emitted: Option<Emitted>,
    pub key: CacheKey,
    pub known: KnownScores,
    pub scorer: P,
}

/// The scorers of the live ranked scans of a backend, newest last, with the
/// counters that stamp scans, emissions and statements.
pub struct ScanScorers<P> {
    pub scans: Vec<ScanScorer<P>>,
    /// Scan identities and emission stamps, from one counter.
    pub last_stamp: u64,
    /// Counts executor runs. Transaction and command ids do not distinguish
    /// consecutive read-only statements.
    pub statement: u64,
}

/// The number after `n`, starting over after the last.
pub open spec fn wrapped_next(n: u64) -> u64 {
    if n == u64::MAX {
        0
    } else {
        (n + 1) as u64
    }
}

/// The entries of other scans than `scan`.
pub open spec fn other_scans<P>(scans: Seq<ScanScorer<P>>, scan: u64) -> Seq<ScanScorer<P>>
    decreases scans.len(),
{
    if scans.len() == 0 {
        scans
    } else {
        let before = other_scans(scans.drop_last(), scan);
        if scans.last().scan == scan {
            before
        } else {
            before.push(scans.last())
        }
    }
}

impl<P> ScanScorer<P> {
    /// The scan is on the query of `call`, and the row it emitted last, in
    /// the statement of `call`, is at `tid`.
    pub open spec fn owns(self, call: CacheKey, tid: Tid) -> bool {
        &&& self.key.same_query(call)
        &&& self.emitted matches Some(emitted) && emitted.member == tid && emitted.statement
            == call.statement
    }
}

/// The newest emission that owns the row, among the first `upto` scans; of
/// two with one stamp, the later.
pub open spec fn newest_owner<P>(
    scans: Seq<ScanScorer<P>>,
    call: CacheKey,
    tid: Tid,
    upto: int,
) -> Option<int>
    decreases upto,
{
    if upto <= 0 || upto > scans.len() {
        None
    } else {
        let before = newest_owner(scans, call, tid, upto - 1);
        if scans[upto - 1].owns(call, tid) && (before matches Some(i)
            ==> scans[i].emitted->0.stamp <= scans[upto - 1].emitted->0.stamp) {
            Some(upto - 1)
        } else {
            before
        }
    }
}

impl<P> ScanScorers<P> {
    /// No scans yet.
    pub fn new() -> (scorers: Self)
        ensures
            scorers.scans@ == Seq::<ScanScorer<P>>::empty(),
            scorers.last_stamp == 0,
            scorers.statement == 0,
    {
        ScanScorers { scans: Vec::new(), last_stamp: 0, statement: 0 }
    }

    /// A stamp no recent one equals.
    pub fn next_stamp(&mut self) -> (stamp: u64)
        ensures
            stamp == wrapped_next(old(self).last_stamp),
            final(self).last_stamp == stamp,
            final(self).scans == old(self).scans,
            final(self).statement == old(self).statement,
    {
        let stamp: u64 = self.last_stamp.wrapping_add(1);
        self.last_stamp = stamp;
        stamp
    }

    /// Called when the executor starts, so scorers built for one statement
    /// are never reused by the next.
    pub fn note_executor_start(&mut self)
        ensures
            final(self).statement == wrapped_next(old(self).statement),
            final(self).scans == old(self).scans,
            final(self).last_stamp == old(self).last_stamp,
    {
        self.statement = self.statement.wrapping_add(1);
    }

    /// The statement that is running.
    pub fn current_statement(&self) -> (statement: u64)
        ensures
            statement == self.statement,
    {
        self.statement
    }

    /// A fresh identity for a ranked scan.
    pub fn scan_id(&mut self) -> (id: u64)
        ensures
            id == wrapped_next(old(self).last_stamp),
            final(self).last_stamp == id,
            final(self).scans == old(self).scans,
            final(self).statement == old(self).statement,
    {
        self.next_stamp()
    }

    /// The first scorer, from the `i`-th on, that `scan` published.
    pub open spec fn position_from(self, scan: u64, i: int) -> Option<int>
        decreases self.scans.len() - i,
    {
        if i < 0 || i >= self.scans.len() {
            None
        } else if self.scans[i].scan == scan {
            Some(i)
        } else {
            self.position_from(scan, i + 1)
        }
    }

    fn position(&self, scan: u64) -> (place: Option<usize>)
        ensures
            match self.position_from(scan, 0) {
                Some(i) => place == Some(i as usize) && 0 <= i < self.scans.len()
                    && self.scans[i].scan == scan,
                None => place is None,
            },
    {
        let mut i: usize = 0;
        while i < self.scans.len()
            invariant
                i <= self.scans.len(),
                self.position_from(scan, 0) == self.position_from(scan, i as int),
            decreases self.scans.len() - i,
        {
            if self.scans[i].scan == scan {
                return Some(i);
            }
            i = i + 1;
        }
        None
    }

    /// Records the row the scan just emitted. A scan that published no scorer
    /// is not recorded.
    pub fn note_scan_emitted(&mut self, scan: u64, member: Tid, root: Tid)
        ensures
            final(self).statement == old(self).statement,
            match old(self).position_from(scan, 0) {
                None => *final(self) == *old(self),
                Some(i) => {
                    &&& final(self).last_stamp == wrapped_next(old(self).last_stamp)
                    &&& final(self).scans@ == old(self).scans@.update(
                        i,
                        ScanScorer {
                            emitted: Some(
                                Emitted {
                                    member,
                                    root,
                                    statement: old(self).statement,
                                    stamp: wrapped_next(old(self).last_stamp),
                                },
                            ),
                            ..old(self).scans@[i]
                        },
                    )
                },
            },
            row_put_out(*old(self), *final(self), scan, member, root),
    {
        if let Some(i) = self.position(scan) {
            let statement: u64 = self.statement;
            let stamp: u64 = self.next_stamp();
            self.scans[i].emitted = Some(Emitted { member, root, statement, stamp });
            proof {
                assert(self.scans@ =~= old(self).scans@.update(
                    i as int,
                    ScanScorer {
                        emitted: Some(Emitted { member, root, statement, stamp }),
                        ..old(self).scans@[i as int]
                    },
                ));
            }
        }
        proof {
            lemma_row_put_out(*old(self), *self, scan, member, root);
        }
    }

    /// Drops the scorer a scan published, when the scan ends.
    pub fn forget_scan_scorer(&mut self, scan: u64)
        ensures
            final(self).scans@ == other_scans(old(self).scans@, scan),
            final(self).last_stamp == old(self).last_stamp,
            final(self).statement == old(self).statement,
    {
        let ghost before = self.scans@;
        let mut rest: Vec<ScanScorer<P>> = Vec::new();
        std::mem::swap(&mut rest, &mut self.scans);
        let mut taken: usize = 0;
        let len: usize = rest.len();
        let ghost all = rest@;
        proof {
            assert(all.take(0) =~= Seq::empty());
            assert(all.skip(0) =~= all);
        }
        while rest.len() > 0
            invariant
                all == before,
                before == old(self).scans@,
                taken + rest.len() == all.len(),
                all.len() == len,
                rest@ == all.skip(taken as int),
                self.scans@ == other_scans(all.take(taken as int), scan),
                self.last_stamp == old(self).last_stamp,
                self.statement == old(self).statement,
            decreases rest.len(),
        {
            let entry = rest.remove(0);
            proof {
                assert(entry == all[taken as int]);
                assert(rest@ =~= all.skip(taken + 1));
                assert(all.take(taken + 1).drop_last() =~= all.take(taken as int));
                assert(all.take(taken + 1).last() == entry);
            }
            if entry.scan != scan {
                self.scans.push(entry);
            }
            taken = taken + 1;
        }
        proof {
            assert(all.take(taken as int) =~= all);
        }
    }

    /// Keeps the scan's scorer, with the score of every row it ranked, for
    /// score calls to read from until the scan ends.
    pub fn publish_scan_scorer(&mut self, scan: u64, key: CacheKey, scorer: P, rows: &Vec<Row>)
        ensures
            final(self).scans.len() == other_scans(old(self).scans@, scan).len() + 1,
            final(self).scans@.drop_last() == other_scans(old(self).scans@, scan),
            final(self).scans@.last().scan == scan,
            final(self).scans@.last().emitted is None,
            final(self).scans@.last().key == key,
            final(self).scans@.last().scorer == scorer,
            forall|tid: Tid| #[trigger]
                final(self).scans@.last().known.at(tid) == crate::scorer::last_score(rows@, tid),
            final(self).last_stamp == old(self).last_stamp,
            final(self).statement == old(self).statement,
    {
        let known = KnownScores::of_rows(rows);
        self.forget_scan_scorer(scan);
        let ghost others = self.scans@;
        self.scans.push(ScanScorer { scan, emitted: None, key, known, scorer });
        proof {
            assert(self.scans@.drop_last() =~= others);
        }
    }

    /// Takes back the scorer that the scan published.
    pub fn take_scan_scorer(&mut self, scan: u64) -> (scorer: Option<P>)
        ensures
            final(self).last_stamp == old(self).last_stamp,
            final(self).statement == old(self).statement,
            match old(self).position_from(scan, 0) {
                None => scorer is None && final(self).scans == old(self).scans,
                Some(i) => scorer == Some(old(self).scans[i].scorer) && final(self).scans@ == old(
                    self,
                ).scans@.remove(i),
            },
    {
        match self.position(scan) {
            Some(i) => {
                let entry = self.scans.remove(i);
                Some(entry.scorer)
            },
            None => None,
        }
    }

    /// The score of the row at `tid`, when a ranked scan on the same query
    /// emitted it last in the statement of `call`: the score that scan ranked
    /// it by. Of several such scans, the newest emission's.
    pub open spec fn emitted_score(self, call: CacheKey, tid: Tid) -> Option<u32> {
        match newest_owner(self.scans@, call, tid, self.scans.len() as int) {
            Some(i) => self.scans[i].known.at(self.scans[i].emitted->0.root),
            None => None,
        }
    }

    /// The score by which a ranked scan ranked the row at `tid`, if one just
    /// emitted it.
    pub fn score_from_scan(&self, call: &CacheKey, tid: Tid) -> (score: Option<u32>)
        ensures
            score == self.emitted_score(*call, tid),
    {
        let mut newest: Option<usize> = None;
        let mut i: usize = 0;
        while i < self.scans.len()
            invariant
                i <= self.scans.len(),
                match newest_owner(self.scans@, *call, tid, i as int) {
                    Some(n) => newest == Some(n as usize) && 0 <= n < i && self.scans[n].owns(
                        *call,
                        tid,
                    ),
                    None => newest is None,
                },
            decreases self.scans.len() - i,
        {
            let entry = &self.scans[i];
            if let Some(emitted) = entry.emitted {
                if emitted.member == tid && emitted.statement == call.statement
                    && entry.key.is_same_query(call) {
                    let newer = match newest {
                        Some(n) => match self.scans[n].emitted {
                            Some(best) => best.stamp <= emitted.stamp,
                            None => true,
                        },
                        None => true,
                    };
                    if newer {
                        newest = Some(i);
                    }
                }
            }
            i = i + 1;
        }
        match newest {
            Some(n) => match self.scans[n].emitted {
                Some(emitted) => self.scans[n].known.get(emitted.root),
                None => None,
            },
            None => None,
        }
    }
}

/// The score read for an emitted row is that of a scan which owns the row,
/// and no scan that owns it emitted it later. A row that no scan owns is not
/// scored by a scan.
pub proof fn law_newest_emission_scores<P>(scans: Seq<ScanScorer<P>>, call: CacheKey, tid: Tid, upto: int)
    requires
        0 <= upto <= scans.len(),
    ensures
        match newest_owner(scans, call, tid, upto) {
            Some(i) => 0 <= i < upto && scans[i].owns(call, tid) && forall|j: int|
                0 <= j < upto && (#[trigger] scans[j]).owns(call, tid)
                    ==> scans[j].emitted->0.stamp <= scans[i].emitted->0.stamp,
            None => forall|j: int| 0 <= j < upto ==> !(#[trigger] scans[j]).owns(call, tid),
        },
    decreases upto,
{
    if upto > 0 {
        law_newest_emission_scores(scans, call, tid, upto - 1);
    }
}

/// A scan that has been forgotten owns no row.
pub proof fn law_forgotten_scan_is_gone<P>(scans: Seq<ScanScorer<P>>, scan: u64)
    ensures
        forall|i: int|
            0 <= i < other_scans(scans, scan).len() ==> (#[trigger] other_scans(
                scans,
                scan,
            )[i]).scan != scan,
        forall|i: int|
            0 <= i < scans.len() && (#[trigger] scans[i]).scan != scan ==> other_scans(
                scans,
                scan,
            ).contains(scans[i]),
    decreases scans.len(),
{
    if scans.len() > 0 {
        let rest = scans.drop_last();
        law_forgotten_scan_is_gone(rest, scan);
        let before = other_scans(rest, scan);
        let all = other_scans(scans, scan);
        assert forall|i: int| 0 <= i < scans.len() && (#[trigger] scans[i]).scan
            != scan implies all.contains(scans[i]) by {
            if i < rest.len() {
                assert(rest[i] == scans[i]);
                assert(before.contains(scans[i]));
                let j = choose|j: int| 0 <= j < before.len() && before[j] == scans[i];
                assert(all[j] == scans[i]);
            } else {
                assert(all[before.len() as int] == scans[i]);
            }
        }
    }
}

} // verus!
