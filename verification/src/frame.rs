//! The physical frame pool and exclusively owned frame handles.

use vstd::prelude::*;

use crate::address::PhysPageNum;
use crate::config::PAGE_SIZE;

verus! {

/// A page full of zero bytes: the content of a freshly allocated frame.
pub open spec fn zero_page() -> Seq<u8> {
    Seq::new(PAGE_SIZE as nat, |i: int| 0u8)
}

/// One physical page, exclusively owned by the holder of the tracker.  The
/// view of a tracker is the page's current content; dropping the tracker
/// returns the page to the pool.
pub struct FrameTracker {
    pub ppn: PhysPageNum,
    pub bytes: Vec<u8>,
}

impl View for FrameTracker {
    type V = Seq<u8>;

    closed spec fn view(&self) -> Seq<u8> {
        self.bytes@
    }
}

impl FrameTracker {
    /// The page holds exactly one page worth of bytes.
    pub open spec fn wf(&self) -> bool {
        self@.len() == PAGE_SIZE
    }

    pub fn read_byte(&self, i: usize) -> (r: u8)
        requires
            self.wf(),
            i < PAGE_SIZE,
        ensures
            r == self@[i as int],
    {
        self.bytes[i]
    }

    pub fn write_byte(&mut self, i: usize, v: u8)
        requires
            old(self).wf(),
            i < PAGE_SIZE,
        ensures
            final(self).wf(),
            final(self).ppn == old(self).ppn,
            final(self)@ == old(self)@.update(i as int, v),
    {
        self.bytes[i] = v;
    }
}

/// The frame pool.  It hands out exclusively owned, pre-zeroed frames; the
/// pool serving one address space never hands the same page out twice while
/// page numbers remain available.
pub struct FrameAllocator {
    next: usize,
}

impl FrameAllocator {
    /// The next physical page number the pool will hand out.
    pub closed spec fn spec_next(&self) -> int {
        self.next as int
    }

    pub fn new() -> (r: FrameAllocator)
        ensures
            r.spec_next() == 0,
    {
        FrameAllocator { next: 0 }
    }

    /// Allocate one frame.  The frame is zero-filled and owned by the caller.
    pub fn allocate(&mut self) -> (f: FrameTracker)
        ensures
            f.wf(),
            f@ == zero_page(),
            f.ppn.0 == old(self).spec_next(),
            final(self).spec_next() == if old(self).spec_next() < usize::MAX as int {
                old(self).spec_next() + 1
            } else {
                old(self).spec_next()
            },
    {
        let ppn = PhysPageNum(self.next);
        if self.next < usize::MAX {
            self.next = self.next + 1;
        }
        let mut bytes: Vec<u8> = Vec::new();
        while bytes.len() < PAGE_SIZE
            invariant
                bytes@.len() <= PAGE_SIZE,
                forall|j: int| 0 <= j < bytes@.len() ==> bytes@[j] == 0u8,
            decreases PAGE_SIZE - bytes@.len(),
        {
            bytes.push(0u8);
        }
        proof {
            assert(bytes@ =~= zero_page());
        }
        FrameTracker { ppn, bytes }
    }
}

} // verus!
