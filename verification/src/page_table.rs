//! The hardware-walked page table of one address space, exposed only through
//! map/unmap/translate/token.
//!
//! The table is kept as an association list from virtual page numbers to
//! entries with unique keys; the walk and leaf encoding of a real translation
//! unit are outside this crate's scope.

use vstd::prelude::*;

use crate::address::{PhysPageNum, VirtPageNum};
use crate::frame::{FrameAllocator, FrameTracker};

verus! {

/// Permission flags of one page table entry: valid, readable, writable,
/// executable, user-accessible.
#[derive(Clone, Copy, PartialEq, Eq, Structural, Debug)]
pub struct PTEFlags {
    pub v: bool,
    pub r: bool,
    pub w: bool,
    pub x: bool,
    pub u: bool,
}

/// One translation: a physical page number plus permission flags.
#[derive(Clone, Copy, PartialEq, Eq, Structural, Debug)]
pub struct PageTableEntry {
    pub ppn: PhysPageNum,
    pub flags: PTEFlags,
}

impl PageTableEntry {
    pub fn ppn(&self) -> (r: PhysPageNum)
        ensures
            r == self.ppn,
    {
        self.ppn
    }

    pub fn is_valid(&self) -> (r: bool)
        ensures
            r == self.flags.v,
    {
        self.flags.v
    }

    pub fn readable(&self) -> (r: bool)
        ensures
            r == self.flags.r,
    {
        self.flags.r
    }

    pub fn writable(&self) -> (r: bool)
        ensures
            r == self.flags.w,
    {
        self.flags.w
    }

    pub fn executable(&self) -> (r: bool)
        ensures
            r == self.flags.x,
    {
        self.flags.x
    }
}

/// Key of one association-list element.
pub open spec fn key(e: (VirtPageNum, PageTableEntry)) -> int {
    e.0.0 as int
}

/// No virtual page number occurs twice.
pub open spec fn keys_unique(s: Seq<(VirtPageNum, PageTableEntry)>) -> bool {
    forall|i: int, j: int| 0 <= i < j < s.len() ==> key(s[i]) != key(s[j])
}

/// With unique keys, the index chosen for a key is the only index that holds
/// it.
proof fn lemma_choose_index(s: Seq<(VirtPageNum, PageTableEntry)>, vpn: int, i: int)
    requires
        keys_unique(s),
        0 <= i < s.len(),
        key(s[i]) == vpn,
    ensures
        (choose|j: int| 0 <= j < s.len() && key(s[j]) == vpn) == i,
{
    let j = choose|j: int| 0 <= j < s.len() && key(s[j]) == vpn;
    assert(0 <= j < s.len() && key(s[j]) == vpn);
    if i < j {
        assert(key(s[i]) != key(s[j]));
    } else if j < i {
        assert(key(s[j]) != key(s[i]));
    }
}

/// The page table of one address space.  It owns the frame holding its root
/// table; intermediate levels are outside this model.
pub struct PageTable {
    root_frame: FrameTracker,
    entries: Vec<(VirtPageNum, PageTableEntry)>,
}

impl PageTable {
    /// Keys are unique, so every lookup is determined.
    pub closed spec fn wf(&self) -> bool {
        keys_unique(self.entries@)
    }

    /// Physical page number of the root table: the table's activation token.
    pub closed spec fn spec_root_ppn(&self) -> int {
        self.root_frame.ppn.0 as int
    }

    /// Whether `vpn` currently has a translation.
    pub closed spec fn spec_contains(&self, vpn: int) -> bool {
        exists|i: int| 0 <= i < self.entries@.len() && key(self.entries@[i]) == vpn
    }

    /// The translation of `vpn`, meaningful only when `spec_contains(vpn)`.
    pub closed spec fn spec_at(&self, vpn: int) -> PageTableEntry {
        self.entries@[choose|i: int|
            0 <= i < self.entries@.len() && key(self.entries@[i]) == vpn].1
    }

    /// A fresh, empty table.  Its root table page comes from the frame pool.
    pub fn new(fa: &mut FrameAllocator) -> (pt: PageTable)
        ensures
            pt.wf(),
            forall|v: int| !pt.spec_contains(v),
    {
        let root_frame = fa.allocate();
        PageTable { root_frame, entries: Vec::new() }
    }

    /// Opaque identifier of the root table, used to activate this space.
    pub fn token(&self) -> (r: usize)
        ensures
            r == self.spec_root_ppn(),
    {
        self.root_frame.ppn.0
    }

    /// Index of the element holding `vpn`, if any.
    fn find(&self, vpn: VirtPageNum) -> (r: Option<usize>)
        requires
            self.wf(),
        ensures
            match r {
                Some(i) => i < self.entries@.len() && key(self.entries@[i as int]) == vpn.0
                    && self.spec_contains(vpn.0 as int)
                    && self.spec_at(vpn.0 as int) == self.entries@[i as int].1,
                None => !self.spec_contains(vpn.0 as int),
            },
    {
        let n = self.entries.len();
        let mut i: usize = 0;
        while i < n
            invariant
                n == self.entries@.len(),
                i <= n,
                self.wf(),
                forall|j: int| 0 <= j < i ==> key(self.entries@[j]) != vpn.0,
            decreases n - i,
        {
            if self.entries[i].0.0 == vpn.0 {
                proof {
                    lemma_choose_index(self.entries@, vpn.0 as int, i as int);
                }
                return Some(i);
            }
            i = i + 1;
        }
        proof {
            assert forall|j: int| 0 <= j < self.entries@.len() implies key(
                self.entries@[j],
            ) != vpn.0 by {}
        }
        None
    }

    /// Install the translation `vpn -> (ppn, flags)`.  Remapping a page that
    /// is already mapped must not occur.
    pub fn map(&mut self, vpn: VirtPageNum, ppn: PhysPageNum, flags: PTEFlags)
        requires
            old(self).wf(),
            !old(self).spec_contains(vpn.0 as int),
        ensures
            final(self).wf(),
            final(self).spec_root_ppn() == old(self).spec_root_ppn(),
            forall|w: int| final(self).spec_contains(w) <==> (old(self).spec_contains(w)
                || w == vpn.0 as int),
            final(self).spec_at(vpn.0 as int) == (PageTableEntry { ppn, flags }),
            forall|w: int| w != vpn.0 as int && old(self).spec_contains(w)
                ==> final(self).spec_at(w) == old(self).spec_at(w),
    {
        let ghost s_old = self.entries@;
        self.entries.push((vpn, PageTableEntry { ppn, flags }));
        proof {
            let s = self.entries@;
            let n = s_old.len() as int;
            assert(key(s[n]) == vpn.0 as int);
            assert forall|i: int, j: int| 0 <= i < j < s.len() implies key(s[i]) != key(
                s[j],
            ) by {
                if j < n {
                } else {
                    assert(j == n);
                    assert(s[i] == s_old[i]);
                    if key(s[i]) == vpn.0 as int {
                        assert(old(self).spec_contains(vpn.0 as int));
                    }
                }
            }
            assert forall|w: int| final(self).spec_contains(w) implies (old(self).spec_contains(w)
                || w == vpn.0 as int) by {
                let i = choose|i: int| 0 <= i < s.len() && key(s[i]) == w;
                if i < n {
                    assert(s[i] == s_old[i]);
                }
            }
            assert forall|w: int| old(self).spec_contains(w) implies final(self).spec_contains(
                w,
            ) by {
                let i = choose|i: int| 0 <= i < s_old.len() && key(s_old[i]) == w;
                assert(s[i] == s_old[i]);
            }
            lemma_choose_index(s, vpn.0 as int, n);
            assert forall|w: int| w != vpn.0 as int && old(self).spec_contains(w)
                implies final(self).spec_at(w) == old(self).spec_at(w) by {
                let i = choose|i: int| 0 <= i < s_old.len() && key(s_old[i]) == w;
                assert(s[i] == s_old[i]);
                lemma_choose_index(s_old, w, i);
                lemma_choose_index(s, w, i);
            }
        }
    }

    /// Remove the translation of `vpn`, which must currently be mapped.
    pub fn unmap(&mut self, vpn: VirtPageNum)
        requires
            old(self).wf(),
            old(self).spec_contains(vpn.0 as int),
        ensures
            final(self).wf(),
            final(self).spec_root_ppn() == old(self).spec_root_ppn(),
            forall|w: int| final(self).spec_contains(w) <==> (old(self).spec_contains(w)
                && w != vpn.0 as int),
            forall|w: int| w != vpn.0 as int && old(self).spec_contains(w)
                ==> final(self).spec_at(w) == old(self).spec_at(w),
    {
        let r = self.find(vpn);
        let idx = match r {
            Some(i) => i,
            None => {
                proof {
                    assert(false);
                }
                0
            },
        };
        let ghost s_old = self.entries@;
        let ghost nidx = idx as int;
        self.entries.remove(idx);
        proof {
            let s = self.entries@;
            assert(s == s_old.remove(nidx));
            assert forall|i: int, j: int| 0 <= i < j < s.len() implies key(s[i]) != key(
                s[j],
            ) by {
                let i0: int = if i < nidx { i } else { i + 1 };
                let j0: int = if j < nidx { j } else { j + 1 };
                assert(s[i] == s_old[i0] && s[j] == s_old[j0]);
            }
            assert forall|w: int| final(self).spec_contains(w) implies (old(self).spec_contains(w)
                && w != vpn.0 as int) by {
                let i = choose|i: int| 0 <= i < s.len() && key(s[i]) == w;
                let i0: int = if i < nidx { i } else { i + 1 };
                assert(s[i] == s_old[i0]);
                lemma_choose_index(s_old, w, i0);
                if w == vpn.0 as int {
                    lemma_choose_index(s_old, w, nidx);
                }
            }
            assert forall|w: int| old(self).spec_contains(w) && w != vpn.0 as int
                implies final(self).spec_contains(w) && final(self).spec_at(w) == old(
                self).spec_at(w) by {
                let i0 = choose|i: int| 0 <= i < s_old.len() && key(s_old[i]) == w;
                lemma_choose_index(s_old, w, i0);
                if i0 != nidx {
                    let i: int = if i0 < nidx { i0 } else { i0 - 1 };
                    assert(s[i] == s_old[i0]);
                    lemma_choose_index(s, w, i);
                } else {
                    lemma_choose_index(s_old, vpn.0 as int, nidx);
                }
            }
        }
    }

    /// The translation of `vpn`, or `None` when the page is unmapped.
    pub fn translate(&self, vpn: VirtPageNum) -> (r: Option<PageTableEntry>)
        requires
            self.wf(),
        ensures
            r == if self.spec_contains(vpn.0 as int) {
                Some(self.spec_at(vpn.0 as int))
            } else {
                None::<PageTableEntry>
            },
    {
        match self.find(vpn) {
            Some(i) => Some(self.entries[i].1),
            None => None,
        }
    }
}

} // verus!
