//! Counting the visible candidates of a scan, page by page.

use crate::scan::{Counters, ScanExec};
use crate::tid::Tid;
use vstd::prelude::*;

verus! {

/// The candidates of one heap page.
#[derive(Debug)]
pub struct Page {
    pub block: u32,
    pub offsets: Vec<u16>,
}

impl Page {
    /// The locations on the page.
    pub open spec fn tids(self) -> Seq<Tid> {
        Seq::new(
            self.offsets.len() as nat,
            |i: int| Tid { block: self.block, offset: self.offsets[i] },
        )
    }
}

/// The locations on the first `upto` pages.
pub open spec fn tids_upto(pages: Seq<Page>, upto: int) -> Seq<Tid>
    decreases upto,
{
    if upto <= 0 || upto > pages.len() {
        Seq::empty()
    } else {
        tids_upto(pages, upto - 1) + pages[upto - 1].tids()
    }
}

/// The sizes of the first `upto` pages together.
pub open spec fn size_upto(pages: Seq<Page>, upto: int) -> nat
    decreases upto,
{
    if upto <= 0 || upto > pages.len() {
        0
    } else {
        size_upto(pages, upto - 1) + pages[upto - 1].offsets.len() as nat
    }
}

/// Every candidate is on a page once: the sizes of the pages add up to the
/// number of candidates.
pub proof fn law_pages_hold_all(pages: Seq<Page>, upto: int)
    requires
        0 <= upto <= pages.len(),
    ensures
        size_upto(pages, upto) == tids_upto(pages, upto).len(),
    decreases upto,
{
    if upto > 0 {
        law_pages_hold_all(pages, upto - 1);
    }
}

proof fn lemma_tids_prefix(a: Seq<Page>, b: Seq<Page>, upto: int)
    requires
        0 <= upto <= a.len(),
        upto <= b.len(),
        forall|i: int| 0 <= i < upto ==> a[i] == b[i],
    ensures
        tids_upto(a, upto) == tids_upto(b, upto),
    decreases upto,
{
    if upto > 0 {
        lemma_tids_prefix(a, b, upto - 1);
    }
}

/// Groups candidates in heap order by page: each page is looked at once.
pub fn pages_of(tids: &Vec<Tid>) -> (pages: Vec<Page>)
    ensures
        tids_upto(pages@, pages.len() as int) == tids@,
        forall|i: int| 0 <= i < pages.len() ==> (#[trigger] pages[i]).offsets.len() > 0,
        forall|i: int|
            0 <= i < pages.len() - 1 ==> (#[trigger] pages[i]).block != pages[i + 1].block,
{
    let mut pages: Vec<Page> = Vec::new();
    let mut i: usize = 0;
    proof {
        assert(tids@.take(0) =~= Seq::empty());
    }
    while i < tids.len()
        invariant
            i <= tids.len(),
            tids_upto(pages@, pages.len() as int) == tids@.take(i as int),
            forall|p: int| 0 <= p < pages.len() ==> (#[trigger] pages[p]).offsets.len() > 0,
            forall|p: int|
                0 <= p < pages.len() - 1 ==> (#[trigger] pages[p]).block != pages[p + 1].block,
            pages.len() > 0 && i < tids.len() ==> pages[pages.len() - 1].block
                != tids[i as int].block,
        decreases tids.len() - i,
    {
        let block: u32 = tids[i].block;
        let mut offsets: Vec<u16> = Vec::new();
        let mut end: usize = i;
        while end < tids.len() && tids[end].block == block
            invariant
                i <= end <= tids.len(),
                offsets.len() == end - i,
                forall|j: int|
                    i <= j < end ==> #[trigger] tids[j] == (Tid { block, offset: offsets[j - i] }),
            decreases tids.len() - end,
        {
            offsets.push(tids[end].offset);
            end = end + 1;
        }
        let ghost before = pages@;
        pages.push(Page { block, offsets });
        proof {
            let n = before.len() as int;
            lemma_tids_prefix(before, pages@, n);
            assert(tids_upto(pages@, n + 1) == tids_upto(pages@, n) + pages@[n].tids());
            assert(tids@.take(end as int) =~= tids@.take(i as int) + pages@[n].tids());
        }
        i = end;
    }
    proof {
        assert(tids@.take(i as int) =~= tids@);
    }
    pages
}

impl ScanExec {
    /// Whether a count scan has emitted its row.
    pub fn counted(&self) -> (done: bool)
        ensures
            done == (self.started && self.next > 0),
    {
        self.started && self.next > 0
    }

    /// Starts to count, from nothing.
    pub fn start_count(&mut self)
        ensures
            *final(self) == (ScanExec { count: 0, ..*old(self) }),
    {
        self.count = 0;
    }

    /// Counts a page of `size` candidates without looking at its rows, where
    /// that is exact: the page is all-visible and no candidate needs a
    /// recheck. Otherwise its rows are to be fetched and counted one by one.
    pub fn count_page(&mut self, size: usize, all_visible: bool) -> (skipped: bool)
        requires
            0 <= old(self).count,
            old(self).count + size <= i64::MAX,
            old(self).counters.skipped_pages < usize::MAX,
        ensures
            skipped == skips(old(self).recheck, all_visible),
            *final(self) == (ScanExec {
                count: (old(self).count + step_count(
                    old(self).recheck,
                    CountStep::Page { size: size as nat, all_visible },
                )) as i64,
                counters: Counters {
                    skipped_pages: (old(self).counters.skipped_pages + if skipped {
                        1int
                    } else {
                        0
                    }) as usize,
                    ..old(self).counters
                },
                ..*old(self)
            }),
    {
        if !self.recheck && all_visible {
            self.counters.skipped_pages = self.counters.skipped_pages + 1;
            self.count = self.count + size as i64;
            true
        } else {
            false
        }
    }

    /// Counts a row that was looked at: it is visible and passes, or not.
    pub fn count_row(&mut self, passes: bool)
        requires
            old(self).count < i64::MAX,
        ensures
            *final(self) == (ScanExec {
                count: (old(self).count + step_count(
                    old(self).recheck,
                    CountStep::Row { passes },
                )) as i64,
                ..*old(self)
            }),
    {
        if passes {
            self.count = self.count + 1;
        }
    }

    /// Takes note of whether a source's plan was exact: a capped expansion
    /// yields more than the matches, and its rows are rechecked.
    pub fn note_plan(&mut self, exact: bool)
        ensures
            *final(self) == (ScanExec { recheck: old(self).recheck || !exact, ..*old(self) }),
    {
        if !exact {
            self.recheck = true;
        }
    }

    /// Takes note of how the candidates are counted.
    pub fn count_with(&mut self, page_masks: bool)
        ensures
            *final(self) == (ScanExec { page_masks: Some(page_masks), ..*old(self) }),
    {
        self.page_masks = Some(page_masks);
    }

    /// Emits the count: the scan has one row, and emitted it. A count that
    /// fell back to the heap has no candidates.
    pub fn finish_count(&mut self, candidates: Option<usize>) -> (count: i64)
        ensures
            count == old(self).count,
            *final(self) == (ScanExec {
                candidates: match candidates {
                    Some(n) => Some(n),
                    None => old(self).candidates,
                },
                next: 1,
                started: true,
                ..*old(self)
            }),
    {
        if let Some(n) = candidates {
            self.candidates = Some(n);
        }
        self.next = 1;
        self.started = true;
        self.count
    }
}

/// A step of a count scan.
pub enum CountStep {
    /// A page of candidates comes up.
    Page { size: nat, all_visible: bool },
    /// A row is looked at.
    Row { passes: bool },
}

/// Whether a page is counted without looking at its rows.
pub open spec fn skips(recheck: bool, all_visible: bool) -> bool {
    !recheck && all_visible
}

/// What a step adds to the count.
pub open spec fn step_count(recheck: bool, step: CountStep) -> nat {
    match step {
        CountStep::Page { size, all_visible } => if skips(recheck, all_visible) {
            size
        } else {
            0
        },
        CountStep::Row { passes } => if passes {
            1
        } else {
            0
        },
    }
}

/// What several steps add to the count.
pub open spec fn steps_count(recheck: bool, steps: Seq<CountStep>) -> nat
    decreases steps.len(),
{
    if steps.len() == 0 {
        0
    } else {
        steps_count(recheck, steps.drop_last()) + step_count(recheck, steps.last())
    }
}

/// A page of candidates: whether all its rows are visible to everyone, and of
/// each candidate whether it is visible and passes.
pub struct CandidatePage {
    pub all_visible: bool,
    pub passing: Seq<bool>,
}

/// How many of several candidates pass.
pub open spec fn passing_count(passing: Seq<bool>) -> nat
    decreases passing.len(),
{
    if passing.len() == 0 {
        0
    } else {
        passing_count(passing.drop_last()) + if passing.last() {
            1nat
        } else {
            0nat
        }
    }
}

/// The steps that count a page: its rows are looked at unless it is skipped.
pub open spec fn page_steps(recheck: bool, page: CandidatePage) -> Seq<CountStep> {
    seq![CountStep::Page { size: page.passing.len(), all_visible: page.all_visible }] + if skips(
        recheck,
        page.all_visible,
    ) {
        Seq::empty()
    } else {
        page.passing.map_values(|passes: bool| CountStep::Row { passes })
    }
}

/// The steps of a count scan over pages, in order.
pub open spec fn scan_steps(recheck: bool, pages: Seq<CandidatePage>) -> Seq<CountStep>
    decreases pages.len(),
{
    if pages.len() == 0 {
        Seq::empty()
    } else {
        scan_steps(recheck, pages.drop_last()) + page_steps(recheck, pages.last())
    }
}

/// How many candidates of several pages pass.
pub open spec fn pages_passing(pages: Seq<CandidatePage>) -> nat
    decreases pages.len(),
{
    if pages.len() == 0 {
        0
    } else {
        pages_passing(pages.drop_last()) + passing_count(pages.last().passing)
    }
}

/// What several pages add to the count, page by page: the size of a page that
/// is skipped, and the candidates that pass of one that is not.
pub open spec fn pages_count(recheck: bool, pages: Seq<CandidatePage>) -> nat
    decreases pages.len(),
{
    if pages.len() == 0 {
        0
    } else {
        pages_count(recheck, pages.drop_last()) + if skips(recheck, pages.last().all_visible) {
            pages.last().passing.len()
        } else {
            passing_count(pages.last().passing)
        }
    }
}

proof fn lemma_steps_concat(recheck: bool, a: Seq<CountStep>, b: Seq<CountStep>)
    ensures
        steps_count(recheck, a + b) == steps_count(recheck, a) + steps_count(recheck, b),
    decreases b.len(),
{
    if b.len() == 0 {
        assert(a + b =~= a);
    } else {
        assert((a + b).drop_last() =~= a + b.drop_last());
        assert((a + b).last() == b.last());
        lemma_steps_concat(recheck, a, b.drop_last());
    }
}

proof fn lemma_rows_count(recheck: bool, passing: Seq<bool>)
    ensures
        steps_count(recheck, passing.map_values(|passes: bool| CountStep::Row { passes }))
            == passing_count(passing),
    decreases passing.len(),
{
    let rows = passing.map_values(|passes: bool| CountStep::Row { passes });
    if passing.len() > 0 {
        assert(rows.drop_last() =~= passing.drop_last().map_values(
            |passes: bool| CountStep::Row { passes },
        ));
        lemma_rows_count(recheck, passing.drop_last());
    }
}

/// A count scan counts the candidates of the pages it skips and, of the other
/// pages, the candidates that are visible and pass.
pub proof fn law_count_adds_up(recheck: bool, pages: Seq<CandidatePage>)
    ensures
        steps_count(recheck, scan_steps(recheck, pages)) == pages_count(recheck, pages),
    decreases pages.len(),
{
    if pages.len() > 0 {
        let page = pages.last();
        law_count_adds_up(recheck, pages.drop_last());
        lemma_steps_concat(
            recheck,
            scan_steps(recheck, pages.drop_last()),
            page_steps(recheck, page),
        );
        let first = seq![
            CountStep::Page { size: page.passing.len(), all_visible: page.all_visible },
        ];
        let rest = if skips(recheck, page.all_visible) {
            Seq::empty()
        } else {
            page.passing.map_values(|passes: bool| CountStep::Row { passes })
        };
        lemma_steps_concat(recheck, first, rest);
        assert(first.drop_last() =~= Seq::empty());
        assert(steps_count(recheck, first.drop_last()) == 0);
        lemma_rows_count(recheck, page.passing);
    }
}

/// Skipping pages changes no count: where every candidate of an all-visible
/// page would pass unless it is to be rechecked, the count is that of all
/// candidates that are visible and pass.
pub proof fn law_skipping_changes_no_count(recheck: bool, pages: Seq<CandidatePage>)
    requires
        forall|i: int|
            0 <= i < pages.len() && skips(recheck, (#[trigger] pages[i]).all_visible)
                ==> passing_count(pages[i].passing) == pages[i].passing.len(),
    ensures
        steps_count(recheck, scan_steps(recheck, pages)) == pages_passing(pages),
{
    law_count_adds_up(recheck, pages);
    lemma_pages_passing(recheck, pages);
}

proof fn lemma_pages_passing(recheck: bool, pages: Seq<CandidatePage>)
    requires
        forall|i: int|
            0 <= i < pages.len() && skips(recheck, (#[trigger] pages[i]).all_visible)
                ==> passing_count(pages[i].passing) == pages[i].passing.len(),
    ensures
        pages_count(recheck, pages) == pages_passing(pages),
    decreases pages.len(),
{
    if pages.len() > 0 {
        let rest = pages.drop_last();
        assert forall|i: int|
            0 <= i < rest.len() && skips(recheck, (#[trigger] rest[i]).all_visible) implies
            passing_count(rest[i].passing) == rest[i].passing.len() by {
            assert(rest[i] == pages[i]);
        }
        lemma_pages_passing(recheck, rest);
        assert(pages[pages.len() - 1] == pages.last());
    }
}

} // verus!
