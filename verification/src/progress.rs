//! Progress of index builds. Only a build reports; writes on behalf of inserts
//! and VACUUM share its code and must not.

use vstd::prelude::*;

verus! {

/// Scanning the heap; tuples and blocks are counted elsewhere.
pub const SUBPHASE_HEAP_SCAN: i64 = 1;

/// Writing an accumulated segment out as run pages.
pub const SUBPHASE_SEGMENT_FLUSH: i64 = 2;

/// The final flush and any merges it triggers.
pub const SUBPHASE_MERGE_FINISH: i64 = 3;

/// What progress is reported of.
#[derive(Clone, Copy, Debug, PartialEq, Eq, Structural)]
pub enum Slot {
    Subphase,
    BlocksTotal,
    BlocksDone,
}

/// Whether this backend is inside an index build.
#[derive(Clone, Copy, Debug, PartialEq, Eq, Structural)]
pub struct Progress {
    pub in_build: bool,
}

/// The progress slots once a report, if there is one, was written to them.
pub open spec fn written(slots: Map<Slot, i64>, report: Option<(Slot, i64)>) -> Map<Slot, i64> {
    match report {
        Some((slot, value)) => slots.insert(slot, value),
        None => slots,
    }
}

/// Updates are inert outside a build. In one, an update writes its own slot
/// and no other.
pub proof fn law_updates_in_builds_only(
    progress: Progress,
    slot: Slot,
    value: i64,
    slots: Map<Slot, i64>,
)
    ensures
        !progress.in_build ==> written(slots, progress.report(slot, value)) == slots,
        progress.in_build ==> written(slots, progress.report(slot, value)).contains_pair(slot, value),
        forall|other: Slot|
            other != slot ==> {
                &&& written(slots, progress.report(slot, value)).contains_key(other)
                    <==> #[trigger] slots.contains_key(other)
                &&& slots.contains_key(other) ==> written(slots, progress.report(slot, value))[other]
                    == slots[other]
            },
{
}

impl Progress {
    /// What is reported of a slot: its value, and nothing outside a build.
    pub open spec fn report(self, slot: Slot, value: i64) -> Option<(Slot, i64)> {
        if self.in_build {
            Some((slot, value))
        } else {
            None
        }
    }

    /// Not in a build.
    pub fn new() -> (progress: Self)
        ensures
            !progress.in_build,
    {
        Progress { in_build: false }
    }

    /// Claims progress reporting. Only a build does.
    pub fn enter_build(&mut self)
        ensures
            final(self).in_build,
    {
        self.in_build = true;
    }

    /// Gives progress reporting up.
    pub fn leave_build(&mut self)
        ensures
            !final(self).in_build,
    {
        self.in_build = false;
    }

    /// The slot and value to report, and none outside a build.
    pub fn update(&self, slot: Slot, value: i64) -> (report: Option<(Slot, i64)>)
        ensures
            report == self.report(slot, value),
    {
        if self.in_build {
            Some((slot, value))
        } else {
            None
        }
    }

    /// The report of the build's current subphase.
    pub fn update_subphase(&self, subphase: i64) -> (report: Option<(Slot, i64)>)
        ensures
            report == self.report(Slot::Subphase, subphase),
    {
        self.update(Slot::Subphase, subphase)
    }

    /// The report that a run of `pages` pages is about to be written.
    pub fn set_blocks_total(&self, pages: usize) -> (report: Option<(Slot, i64)>)
        requires
            pages <= i64::MAX,
        ensures
            report == self.report(Slot::BlocksTotal, pages as i64),
    {
        self.update(Slot::BlocksTotal, pages as i64)
    }

    /// The report that `pages` pages of the run have been written.
    pub fn set_blocks_done(&self, pages: usize) -> (report: Option<(Slot, i64)>)
        requires
            pages <= i64::MAX,
        ensures
            report == self.report(Slot::BlocksDone, pages as i64),
    {
        self.update(Slot::BlocksDone, pages as i64)
    }
}

/// The name of a build subphase.
pub fn ambuildphasename(phasenum: i64) -> (name: Option<&'static str>)
    ensures
        match name {
            Some(text) => {
                &&& phasenum == SUBPHASE_HEAP_SCAN ==> text@ == "heap scan"@
                &&& phasenum == SUBPHASE_SEGMENT_FLUSH ==> text@ == "segment flush"@
                &&& phasenum == SUBPHASE_MERGE_FINISH ==> text@ == "final merge-finish"@
                &&& 1 <= phasenum <= 3
            },
            None => phasenum < 1 || phasenum > 3,
        },
{
    if phasenum == SUBPHASE_HEAP_SCAN {
        Some("heap scan")
    } else if phasenum == SUBPHASE_SEGMENT_FLUSH {
        Some("segment flush")
    } else if phasenum == SUBPHASE_MERGE_FINISH {
        Some("final merge-finish")
    } else {
        None
    }
}

} // verus!
