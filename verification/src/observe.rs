//! Per-scan counts of the pages that reads pin.
//!
//! Readers live across statements, so the counts cannot sit on them. A scan
//! pushes a frame when it begins, every pinned read adds to the top frame, and
//! the scan's end removes its frame. With no frame nothing is counted.

use vstd::prelude::*;

verus! {

/// What a read is of.
#[derive(Clone, Copy, Debug, PartialEq, Eq, Structural)]
pub enum Area {
    Dictionary,
    Postings,
    Payload,
    Other,
}

/// One scan's page counts.
#[derive(Clone, Copy, Debug, PartialEq, Eq, Structural)]
pub struct IoFrame {
    pub id: u64,
    pub dictionary_pages: u64,
    pub postings_blocks: u64,
}

/// Stands for a pushed frame; giving it back removes that frame.
#[derive(Debug)]
pub struct IoGuard {
    pub id: u64,
}

/// The frames of the scans that are running, the last begun on top.
#[derive(Debug)]
pub struct IoStack {
    pub frames: Vec<IoFrame>,
    pub last_id: u64,
}

/// The last frame, among the first `upto`, that has the identity.
pub open spec fn last_with(frames: Seq<IoFrame>, id: u64, upto: int) -> Option<int>
    decreases upto,
{
    if upto <= 0 || upto > frames.len() {
        None
    } else if frames[upto - 1].id == id {
        Some(upto - 1)
    } else {
        last_with(frames, id, upto - 1)
    }
}

impl IoFrame {
    /// The frame with pages of an area added. Only two areas are counted.
    pub open spec fn with_pages(self, area: Area, blocks: u64) -> IoFrame {
        match area {
            Area::Dictionary => IoFrame {
                dictionary_pages: (self.dictionary_pages + blocks) as u64,
                ..self
            },
            Area::Postings => IoFrame {
                postings_blocks: (self.postings_blocks + blocks) as u64,
                ..self
            },
            _ => self,
        }
    }
}

impl IoStack {
    /// Identities are given out in order, and each frame has its own.
    pub open spec fn valid(self) -> bool {
        &&& forall|i: int| 0 <= i < self.frames.len() ==> (#[trigger] self.frames[i]).id <= self.last_id
        &&& forall|i: int, j: int|
            0 <= i < j < self.frames.len() ==> self.frames[i].id < self.frames[j].id
    }

    /// No scan is running.
    pub fn new() -> (stack: Self)
        ensures
            stack.valid(),
            stack.frames@ == Seq::<IoFrame>::empty(),
            stack.last_id == 0,
    {
        IoStack { frames: Vec::new(), last_id: 0 }
    }

    /// Pushes a counting frame for a scan.
    pub fn push_io(&mut self) -> (guard: IoGuard)
        requires
            old(self).valid(),
            old(self).last_id < u64::MAX,
        ensures
            final(self).valid(),
            guard.id == old(self).last_id + 1,
            final(self).last_id == guard.id,
            final(self).frames@ == old(self).frames@.push(
                IoFrame { id: guard.id, dictionary_pages: 0, postings_blocks: 0 },
            ),
    {
        let id: u64 = self.last_id + 1;
        self.last_id = id;
        self.frames.push(IoFrame { id, dictionary_pages: 0, postings_blocks: 0 });
        IoGuard { id }
    }

    /// Removes the frame that the guard stands for. Scans need not end in the
    /// order they began.
    pub fn release(&mut self, guard: IoGuard)
        requires
            old(self).valid(),
        ensures
            final(self).valid(),
            final(self).last_id == old(self).last_id,
            final(self).frames@ == (match last_with(
                old(self).frames@,
                guard.id,
                old(self).frames.len() as int,
            ) {
                Some(i) => old(self).frames@.remove(i),
                None => old(self).frames@,
            }),
    {
        let mut i: usize = self.frames.len();
        while i > 0
            invariant
                i <= self.frames.len(),
                *self == *old(self),
                self.valid(),
                last_with(self.frames@, guard.id, self.frames.len() as int) == last_with(
                    self.frames@,
                    guard.id,
                    i as int,
                ),
            decreases i,
        {
            if self.frames[i - 1].id == guard.id {
                let _ = self.frames.remove(i - 1);
                return;
            }
            i = i - 1;
        }
    }

    /// Adds pinned pages of an area to the top frame, if there is one.
    pub fn add_pages(&mut self, area: Area, blocks: u64)
        requires
            old(self).valid(),
            old(self).frames.len() > 0 && area == Area::Dictionary ==> old(
                self,
            ).frames@.last().dictionary_pages + blocks <= u64::MAX,
            old(self).frames.len() > 0 && area == Area::Postings ==> old(
                self,
            ).frames@.last().postings_blocks + blocks <= u64::MAX,
        ensures
            final(self).valid(),
            final(self).last_id == old(self).last_id,
            final(self).frames@ == (if old(self).frames.len() == 0 {
                old(self).frames@
            } else {
                old(self).frames@.drop_last().push(
                    old(self).frames@.last().with_pages(area, blocks),
                )
            }),
    {
        let len: usize = self.frames.len();
        if len == 0 {
            return;
        }
        let mut frame: IoFrame = self.frames[len - 1];
        match area {
            Area::Dictionary => {
                frame.dictionary_pages = frame.dictionary_pages + blocks;
            },
            Area::Postings => {
                frame.postings_blocks = frame.postings_blocks + blocks;
            },
            Area::Payload | Area::Other => {},
        }
        self.frames.set(len - 1, frame);
        proof {
            assert(self.frames@ =~= old(self).frames@.drop_last().push(frame));
        }
    }

    /// The pages of the dictionary and of the postings that the top frame
    /// counted.
    pub fn top_pages(&self) -> (pages: Option<(u64, u64)>)
        ensures
            pages == (if self.frames.len() == 0 {
                None
            } else {
                Some((self.frames@.last().dictionary_pages, self.frames@.last().postings_blocks))
            }),
    {
        let len: usize = self.frames.len();
        if len == 0 {
            None
        } else {
            Some((self.frames[len - 1].dictionary_pages, self.frames[len - 1].postings_blocks))
        }
    }
}

/// Every frame is removed by its own guard, whatever was begun since: what a
/// later scan counted stays.
pub proof fn law_release_by_identity(frames: Seq<IoFrame>, i: int)
    requires
        0 <= i < frames.len(),
        forall|a: int, b: int| 0 <= a < b < frames.len() ==> frames[a].id < frames[b].id,
    ensures
        last_with(frames, frames[i].id, frames.len() as int) == Some(i),
{
    lemma_last_with(frames, frames[i].id, i, frames.len() as int);
}

proof fn lemma_last_with(frames: Seq<IoFrame>, id: u64, i: int, upto: int)
    requires
        0 <= i < upto <= frames.len(),
        frames[i].id == id,
        forall|a: int, b: int| 0 <= a < b < frames.len() ==> frames[a].id < frames[b].id,
    ensures
        last_with(frames, id, upto) == Some(i),
    decreases upto,
{
    if i < upto - 1 {
        assert(frames[i].id < frames[upto - 1].id);
        lemma_last_with(frames, id, i, upto - 1);
    }
}

} // verus!
