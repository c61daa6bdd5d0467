//! Heap locations.

use vstd::prelude::*;

verus! {

/// A heap location: a block and a line pointer within it.
#[derive(Clone, Copy, Debug, PartialEq, Eq, Structural)]
pub struct Tid {
    pub block: u32,
    pub offset: u16,
}

impl Tid {
    /// The position of the location in heap order.
    pub open spec fn key(self) -> int {
        self.block as int * 65536 + self.offset as int
    }

    /// A location a heap of at most `max_offset` line pointers to a block can
    /// hold. The last block number names no block.
    pub open spec fn valid(self, max_offset: u16) -> bool {
        1 <= self.offset <= max_offset && self.block < u32::MAX
    }

    /// Heap order: by block, then by line pointer.
    pub fn before(self, other: Tid) -> (earlier: bool)
        ensures
            earlier == (self.key() < other.key()),
    {
        self.block < other.block || (self.block == other.block && self.offset < other.offset)
    }

    /// The location as one number, in heap order.
    pub fn number(self) -> (number: u64)
        ensures
            number == self.key(),
    {
        self.block as u64 * 65536 + self.offset as u64
    }
}

/// Locations are equal exactly when their positions in heap order are.
pub broadcast proof fn lemma_key_injective(a: Tid, b: Tid)
    ensures
        #![trigger a.key(), b.key()]
        a.key() == b.key() <==> a == b,
{
}

/// The location just after `tid`.
pub open spec fn after(tid: Tid, max_offset: u16) -> Tid {
    if tid.offset < max_offset {
        Tid { block: tid.block, offset: (tid.offset + 1) as u16 }
    } else {
        Tid {
            block: if tid.block < u32::MAX {
                (tid.block + 1) as u32
            } else {
                u32::MAX
            },
            offset: 1,
        }
    }
}

/// The location just after `tid`.
pub fn successor(tid: Tid, max_offset: u16) -> (next: Tid)
    ensures
        next == after(tid, max_offset),
        tid.valid(max_offset) ==> next.key() > tid.key(),
        forall|other: Tid| #![trigger other.key()]
            tid.valid(max_offset) && other.valid(max_offset) && other.key() > tid.key()
                ==> next.key() <= other.key(),
{
    if tid.offset < max_offset {
        Tid { block: tid.block, offset: tid.offset + 1 }
    } else {
        Tid { block: tid.block.saturating_add(1), offset: 1 }
    }
}

} // verus!
