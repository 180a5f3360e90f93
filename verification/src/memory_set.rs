//! Address spaces ([`MemorySet`]) and their mapped regions ([`MapArea`]).

use vstd::prelude::*;
use vstd::set_lib::{lemma_int_range, lemma_len_subset, lemma_set_disjoint_lens, set_int_range};

use crate::address::{lemma_vpn_order, vpn_ceil, vpn_floor, PhysPageNum, VPNRange, VirtAddr, VirtPageNum};
use crate::config::{trampoline_vpn, trap_context_vpn, MEMORY_END, PAGE_SIZE, TRAMPOLINE, TRAP_CONTEXT, USER_STACK_SIZE};
use crate::frame::{zero_page, FrameAllocator, FrameTracker};
use crate::elf::{read_u16, read_u32, read_u64};
use crate::page_table::{PTEFlags, PageTable, PageTableEntry};

verus! {

/// Mapping policy of a region: identity-mapped (virtual page number equals
/// physical page number, no frame ownership) or framed (each page backed by
/// one exclusively owned frame from the pool).
#[derive(Clone, Copy, PartialEq, Eq, Structural, Debug)]
pub enum MapType {
    Identical,
    Framed,
}

/// Permission set of a region: readable, writable, executable,
/// user-accessible.
#[derive(Clone, Copy, PartialEq, Eq, Structural, Debug)]
pub struct MapPermission {
    pub r: bool,
    pub w: bool,
    pub x: bool,
    pub u: bool,
}

/// The permission encoded by the low three bits of an `mmap` protection
/// argument (bit 0 read, bit 1 write, bit 2 execute), with the user bit
/// forced on.
pub open spec fn perm_from_prot(prot: int) -> MapPermission {
    MapPermission {
        r: prot % 2 == 1,
        w: (prot / 2) % 2 == 1,
        x: (prot / 4) % 2 == 1,
        u: true,
    }
}

impl MapPermission {
    /// Build the permission of a dynamically mapped region from a protection
    /// word whose bits above bit 2 are clear.
    pub fn from_prot(prot: usize) -> (p: MapPermission)
        ensures
            p == perm_from_prot(prot as int),
    {
        MapPermission {
            r: prot % 2 == 1,
            w: (prot / 2) % 2 == 1,
            x: (prot / 4) % 2 == 1,
            u: true,
        }
    }
}

/// Page-table flag encoding of a region permission: the same four bits plus
/// the valid bit.
pub open spec fn pte_flags_of(p: MapPermission) -> PTEFlags {
    PTEFlags { v: true, r: p.r, w: p.w, x: p.x, u: p.u }
}

fn pte_flags_for(p: MapPermission) -> (f: PTEFlags)
    ensures
        f == pte_flags_of(p),
{
    PTEFlags { v: true, r: p.r, w: p.w, x: p.x, u: p.u }
}

/// Key of one element of a region's frame collection.
pub open spec fn fkey(e: (VirtPageNum, FrameTracker)) -> int {
    e.0.0 as int
}

/// No virtual page number owns two frames.
pub open spec fn fkeys_unique(s: Seq<(VirtPageNum, FrameTracker)>) -> bool {
    forall|i: int, j: int| 0 <= i < j < s.len() ==> fkey(s[i]) != fkey(s[j])
}

/// With unique keys, the index chosen for a key is the only one holding it.
proof fn lemma_frame_choose(s: Seq<(VirtPageNum, FrameTracker)>, vpn: int, i: int)
    requires
        fkeys_unique(s),
        0 <= i < s.len(),
        fkey(s[i]) == vpn,
    ensures
        (choose|j: int| 0 <= j < s.len() && fkey(s[j]) == vpn) == i,
{
    let j = choose|j: int| 0 <= j < s.len() && fkey(s[j]) == vpn;
    assert(0 <= j < s.len() && fkey(s[j]) == vpn);
    if i < j {
        assert(fkey(s[i]) != fkey(s[j]));
    } else if j < i {
        assert(fkey(s[j]) != fkey(s[i]));
    }
}

/// A contiguous range of virtual pages with one mapping policy and one
/// permission set.  A framed region owns the physical frames backing its
/// mapped pages.
pub struct MapArea {
    vpn_range: VPNRange,
    data_frames: Vec<(VirtPageNum, FrameTracker)>,
    map_type: MapType,
    map_perm: MapPermission,
}

impl MapArea {
    /// First page of the region.
    pub closed spec fn spec_start(&self) -> int {
        self.vpn_range.l.0 as int
    }

    /// One past the last page of the region.
    pub closed spec fn spec_end(&self) -> int {
        self.vpn_range.r.0 as int
    }

    pub closed spec fn spec_map_type(&self) -> MapType {
        self.map_type
    }

    pub closed spec fn spec_map_perm(&self) -> MapPermission {
        self.map_perm
    }

    /// Whether `v` lies in the region's page range.
    pub open spec fn contains_vpn(&self, v: int) -> bool {
        self.spec_start() <= v < self.spec_end()
    }

    /// Whether the region currently owns a frame for page `v`.
    pub closed spec fn spec_has_frame(&self, v: int) -> bool {
        exists|i: int| 0 <= i < self.data_frames@.len() && fkey(self.data_frames@[i]) == v
    }

    /// The frame owned for page `v`, meaningful only under `spec_has_frame`.
    pub closed spec fn spec_frame(&self, v: int) -> FrameTracker {
        self.data_frames@[choose|i: int|
            0 <= i < self.data_frames@.len() && fkey(self.data_frames@[i]) == v].1
    }

    /// Content of the frame backing page `v`.
    pub open spec fn spec_frame_bytes(&self, v: int) -> Seq<u8> {
        self.spec_frame(v)@
    }

    /// Region well-formedness: an ordered range, unique frame keys, every
    /// frame one page large and inside the range, and no frames at all for an
    /// identity-mapped region.
    pub closed spec fn wf(&self) -> bool {
        &&& self.spec_start() <= self.spec_end()
        &&& fkeys_unique(self.data_frames@)
        &&& forall|i: int| 0 <= i < self.data_frames@.len()
            ==> (#[trigger] self.data_frames@[i]).1.wf()
        &&& forall|v: int| #[trigger] self.spec_has_frame(v) ==> self.contains_vpn(v)
        &&& self.map_type == MapType::Identical ==> forall|v: int| !(
        #[trigger] self.spec_has_frame(v))
    }

    /// The two regions have the same range, policy and permission.
    pub open spec fn same_shape(&self, other: &MapArea) -> bool {
        &&& self.spec_start() == other.spec_start()
        &&& self.spec_end() == other.spec_end()
        &&& self.spec_map_type() == other.spec_map_type()
        &&& self.spec_map_perm() == other.spec_map_perm()
    }

    /// The region's bookkeeping agrees with the page table: every page of the
    /// range is mapped with the region's permission, a framed page's
    /// translation points at the owned frame, and an identity-mapped page
    /// translates to itself.
    pub open spec fn mapped_in(&self, pt: &PageTable) -> bool {
        forall|v: int| self.contains_vpn(v) ==> {
            &&& #[trigger] pt.spec_contains(v)
            &&& pt.spec_at(v).flags == pte_flags_of(self.spec_map_perm())
            &&& (self.spec_map_type() == MapType::Framed ==> self.spec_has_frame(v)
                && pt.spec_at(v).ppn == self.spec_frame(v).ppn)
            &&& (self.spec_map_type() == MapType::Identical ==> pt.spec_at(v).ppn.0 == v)
        }
    }

    /// A fresh, unmapped region covering the pages that the byte interval
    /// `[start_va, end_va)` touches.
    pub fn new(start_va: VirtAddr, end_va: VirtAddr, map_type: MapType, map_perm: MapPermission)
        -> (a: MapArea)
        requires
            vpn_floor(start_va.0 as int) <= vpn_ceil(end_va.0 as int),
        ensures
            a.wf(),
            a.spec_start() == vpn_floor(start_va.0 as int),
            a.spec_end() == vpn_ceil(end_va.0 as int),
            a.spec_map_type() == map_type,
            a.spec_map_perm() == map_perm,
            forall|v: int| !(#[trigger] a.spec_has_frame(v)),
    {
        let start_vpn: VirtPageNum = start_va.floor();
        let end_vpn: VirtPageNum = end_va.ceil();
        MapArea {
            vpn_range: VPNRange::new(start_vpn, end_vpn),
            data_frames: Vec::new(),
            map_type,
            map_perm,
        }
    }

    /// An empty copy of `another`: same range, policy and permission, but no
    /// pages mapped and no frames owned yet.
    pub fn from_another(another: &MapArea) -> (a: MapArea)
        requires
            another.wf(),
        ensures
            a.wf(),
            a.same_shape(another),
            forall|v: int| !(#[trigger] a.spec_has_frame(v)),
    {
        MapArea {
            vpn_range: VPNRange::new(another.vpn_range.get_start(), another.vpn_range.get_end()),
            data_frames: Vec::new(),
            map_type: another.map_type,
            map_perm: another.map_perm,
        }
    }

    /// Index of the frame owned for `vpn`, if any.
    fn find_frame(&self, vpn: VirtPageNum) -> (r: Option<usize>)
        requires
            fkeys_unique(self.data_frames@),
        ensures
            match r {
                Some(i) => i < self.data_frames@.len() && fkey(self.data_frames@[i as int])
                    == vpn.0 && self.spec_has_frame(vpn.0 as int)
                    && self.spec_frame(vpn.0 as int) == self.data_frames@[i as int].1,
                None => !self.spec_has_frame(vpn.0 as int),
            },
    {
        let n = self.data_frames.len();
        let mut i: usize = 0;
        while i < n
            invariant
                n == self.data_frames@.len(),
                i <= n,
                fkeys_unique(self.data_frames@),
                forall|j: int| 0 <= j < i ==> fkey(self.data_frames@[j]) != vpn.0,
            decreases n - i,
        {
            if self.data_frames[i].0.0 == vpn.0 {
                proof {
                    lemma_frame_choose(self.data_frames@, vpn.0 as int, i as int);
                }
                return Some(i);
            }
            i = i + 1;
        }
        None
    }

    /// Byte `j` of the frame backing page `vpn`.
    pub fn read_frame_byte(&self, vpn: VirtPageNum, j: usize) -> (r: u8)
        requires
            self.wf(),
            self.spec_has_frame(vpn.0 as int),
            j < PAGE_SIZE,
        ensures
            r == self.spec_frame_bytes(vpn.0 as int)[j as int],
    {
        let idx = match self.find_frame(vpn) {
            Some(i) => i,
            None => {
                proof {
                    assert(false);
                }
                0
            },
        };
        proof {
            let k = choose|k: int|
                0 <= k < self.data_frames@.len() && fkey(self.data_frames@[k]) == vpn.0;
            assert(self.data_frames@[k].1.wf());
        }
        self.data_frames[idx].1.read_byte(j)
    }

    /// Overwrite byte `j` of the frame backing page `vpn`.
    pub fn write_frame_byte(&mut self, vpn: VirtPageNum, j: usize, b: u8)
        requires
            old(self).wf(),
            old(self).spec_has_frame(vpn.0 as int),
            j < PAGE_SIZE,
        ensures
            final(self).wf(),
            final(self).same_shape(old(self)),
            forall|w: int| final(self).spec_has_frame(w) == old(self).spec_has_frame(w),
            forall|w: int| w != vpn.0 as int && old(self).spec_has_frame(w)
                ==> final(self).spec_frame(w) == old(self).spec_frame(w),
            final(self).spec_frame(vpn.0 as int).ppn == old(self).spec_frame(vpn.0 as int).ppn,
            final(self).spec_frame_bytes(vpn.0 as int) == old(self).spec_frame_bytes(
                vpn.0 as int,
            ).update(j as int, b),
    {
        let idx = match self.find_frame(vpn) {
            Some(i) => i,
            None => {
                proof {
                    assert(false);
                }
                0
            },
        };
        let ghost s_old = self.data_frames@;
        let pair = &mut self.data_frames[idx];
        proof {
            assert(s_old[idx as int].1.wf());
        }
        pair.1.write_byte(j, b);
        proof {
            let s = self.data_frames@;
            let n = idx as int;
            assert(s == s_old.update(n, s[n]));
            assert(fkey(s[n]) == fkey(s_old[n]));
            assert forall|i: int, j2: int| 0 <= i < j2 < s.len() implies fkey(s[i]) != fkey(
                s[j2],
            ) by {
                assert(fkey(s[i]) == fkey(s_old[i]) && fkey(s[j2]) == fkey(s_old[j2]));
            }
            assert forall|w: int| final(self).spec_has_frame(w) == old(self).spec_has_frame(
                w,
            ) by {
                if old(self).spec_has_frame(w) {
                    let i = choose|i: int| 0 <= i < s_old.len() && fkey(s_old[i]) == w;
                    assert(fkey(s[i]) == w);
                }
                if final(self).spec_has_frame(w) {
                    let i = choose|i: int| 0 <= i < s.len() && fkey(s[i]) == w;
                    assert(fkey(s_old[i]) == w);
                }
            }
            assert forall|w: int| w != vpn.0 as int && old(self).spec_has_frame(w)
                implies final(self).spec_frame(w) == old(self).spec_frame(w) by {
                let i = choose|i: int| 0 <= i < s_old.len() && fkey(s_old[i]) == w;
                lemma_frame_choose(s_old, w, i);
                lemma_frame_choose(s, w, i);
                assert(i != n);
            }
            lemma_frame_choose(s_old, vpn.0 as int, n);
            lemma_frame_choose(s, vpn.0 as int, n);
        }
    }

    /// Map one page of the region: allocate and record a frame for a framed
    /// region, or install the identity translation, and write the page table
    /// entry with the region's permission.
    pub fn map_one(&mut self, page_table: &mut PageTable, fa: &mut FrameAllocator, vpn: VirtPageNum)
        requires
            old(self).wf(),
            old(page_table).wf(),
            old(self).contains_vpn(vpn.0 as int),
            !old(page_table).spec_contains(vpn.0 as int),
            !old(self).spec_has_frame(vpn.0 as int),
        ensures
            final(self).wf(),
            final(page_table).wf(),
            final(self).same_shape(old(self)),
            final(page_table).spec_root_ppn() == old(page_table).spec_root_ppn(),
            forall|w: int| final(page_table).spec_contains(w) <==> (old(
                page_table,
            ).spec_contains(w) || w == vpn.0 as int),
            forall|w: int| w != vpn.0 as int && old(page_table).spec_contains(w)
                ==> final(page_table).spec_at(w) == old(page_table).spec_at(w),
            final(page_table).spec_at(vpn.0 as int).flags == pte_flags_of(
                old(self).spec_map_perm(),
            ),
            forall|w: int| w != vpn.0 as int ==> (final(self).spec_has_frame(w) == old(
                self,
            ).spec_has_frame(w) && (old(self).spec_has_frame(w) ==> final(self).spec_frame(w)
                == old(self).spec_frame(w))),
            old(self).spec_map_type() == MapType::Framed ==> {
                &&& final(self).spec_has_frame(vpn.0 as int)
                &&& final(self).spec_frame_bytes(vpn.0 as int) == zero_page()
                &&& final(page_table).spec_at(vpn.0 as int).ppn == final(self).spec_frame(
                    vpn.0 as int,
                ).ppn
            },
            old(self).spec_map_type() == MapType::Identical ==> {
                &&& final(page_table).spec_at(vpn.0 as int).ppn.0 == vpn.0
                &&& forall|w: int| final(self).spec_has_frame(w) == old(self).spec_has_frame(w)
            },
    {
        let ppn: PhysPageNum;
        match self.map_type {
            MapType::Identical => {
                ppn = PhysPageNum(vpn.0);
            },
            MapType::Framed => {
                let frame = fa.allocate();
                ppn = frame.ppn;
                let ghost s_old = self.data_frames@;
                self.data_frames.push((vpn, frame));
                proof {
                    let s = self.data_frames@;
                    let n = s_old.len() as int;
                    assert(fkey(s[n]) == vpn.0 as int);
                    assert forall|i: int, j: int| 0 <= i < j < s.len() implies fkey(s[i]) != fkey(
                        s[j],
                    ) by {
                        if j == n {
                            assert(s[i] == s_old[i]);
                            if fkey(s[i]) == vpn.0 as int {
                                assert(old(self).spec_has_frame(vpn.0 as int));
                            }
                        }
                    }
                    lemma_frame_choose(s, vpn.0 as int, n);
                    assert forall|w: int| w != vpn.0 as int implies (self.spec_has_frame(w) == old(
                        self,
                    ).spec_has_frame(w)) by {
                        if old(self).spec_has_frame(w) {
                            let i = choose|i: int| 0 <= i < s_old.len() && fkey(s_old[i]) == w;
                            assert(fkey(s[i]) == w);
                        }
                        if self.spec_has_frame(w) {
                            let i = choose|i: int| 0 <= i < s.len() && fkey(s[i]) == w;
                            assert(i != n);
                            assert(fkey(s_old[i]) == w);
                        }
                    }
                    assert forall|w: int| w != vpn.0 as int && old(self).spec_has_frame(
                        w,
                    ) implies self.spec_frame(w) == old(self).spec_frame(w) by {
                        let i = choose|i: int| 0 <= i < s_old.len() && fkey(s_old[i]) == w;
                        lemma_frame_choose(s_old, w, i);
                        lemma_frame_choose(s, w, i);
                    }
                    assert forall|w: int| #[trigger] self.spec_has_frame(w) implies
                        self.contains_vpn(w) by {
                        if w != vpn.0 as int {
                            assert(old(self).spec_has_frame(w));
                        }
                    }
                }
            },
        }
        let pte_flags = pte_flags_for(self.map_perm);
        page_table.map(vpn, ppn, pte_flags);
    }

    /// Unmap one page of the region: drop the owned frame, if any, and remove
    /// the page table entry.
    pub fn unmap_one(&mut self, page_table: &mut PageTable, vpn: VirtPageNum)
        requires
            old(self).wf(),
            old(page_table).wf(),
            old(page_table).spec_contains(vpn.0 as int),
        ensures
            final(self).wf(),
            final(page_table).wf(),
            final(self).same_shape(old(self)),
            final(page_table).spec_root_ppn() == old(page_table).spec_root_ppn(),
            forall|w: int| final(page_table).spec_contains(w) <==> (old(
                page_table,
            ).spec_contains(w) && w != vpn.0 as int),
            forall|w: int| w != vpn.0 as int && old(page_table).spec_contains(w)
                ==> final(page_table).spec_at(w) == old(page_table).spec_at(w),
            forall|w: int| final(self).spec_has_frame(w) <==> (old(self).spec_has_frame(w) && w
                != vpn.0 as int),
            forall|w: int| w != vpn.0 as int && old(self).spec_has_frame(w)
                ==> final(self).spec_frame(w) == old(self).spec_frame(w),
    {
        match self.map_type {
            MapType::Framed => {
                match self.find_frame(vpn) {
                    Some(idx) => {
                        let ghost s_old = self.data_frames@;
                        let ghost nidx = idx as int;
                        self.data_frames.remove(idx);
                        proof {
                            let s = self.data_frames@;
                            assert(s == s_old.remove(nidx));
                            assert forall|i: int, j: int| 0 <= i < j < s.len() implies fkey(s[i])
                                != fkey(s[j]) by {
                                let i0: int = if i < nidx { i } else { i + 1 };
                                let j0: int = if j < nidx { j } else { j + 1 };
                                assert(s[i] == s_old[i0] && s[j] == s_old[j0]);
                            }
                            assert forall|w: int| self.spec_has_frame(w) implies (old(
                                self,
                            ).spec_has_frame(w) && w != vpn.0 as int) by {
                                let i = choose|i: int| 0 <= i < s.len() && fkey(s[i]) == w;
                                let i0: int = if i < nidx { i } else { i + 1 };
                                assert(s[i] == s_old[i0]);
                                lemma_frame_choose(s_old, w, i0);
                                if w == vpn.0 as int {
                                    lemma_frame_choose(s_old, w, nidx);
                                }
                            }
                            assert forall|w: int| old(self).spec_has_frame(w) && w != vpn.0 as int
                                implies self.spec_has_frame(w) && self.spec_frame(w) == old(
                                self,
                            ).spec_frame(w) by {
                                let i0 = choose|i: int|
                                    0 <= i < s_old.len() && fkey(s_old[i]) == w;
                                lemma_frame_choose(s_old, w, i0);
                                if i0 != nidx {
                                    let i: int = if i0 < nidx { i0 } else { i0 - 1 };
                                    assert(s[i] == s_old[i0]);
                                    lemma_frame_choose(s, w, i);
                                } else {
                                    lemma_frame_choose(s_old, vpn.0 as int, nidx);
                                }
                            }
                        }
                    },
                    None => {},
                }
            },
            MapType::Identical => {},
        }
        page_table.unmap(vpn);
    }

    /// Map every page of the region's range, which must be wholly unmapped.
    #[verifier::rlimit(60)]
    pub fn map(&mut self, page_table: &mut PageTable, fa: &mut FrameAllocator)
        requires
            old(self).wf(),
            old(page_table).wf(),
            forall|v: int| old(self).contains_vpn(v) ==> !old(page_table).spec_contains(v),
            forall|v: int| !old(self).spec_has_frame(v),
        ensures
            final(self).wf(),
            final(page_table).wf(),
            final(self).same_shape(old(self)),
            final(page_table).spec_root_ppn() == old(page_table).spec_root_ppn(),
            final(self).mapped_in(final(page_table)),
            forall|w: int| #[trigger] final(page_table).spec_contains(w) <==> (old(
                page_table,
            ).spec_contains(w) || old(self).contains_vpn(w)),
            forall|w: int| old(page_table).spec_contains(w) ==> final(page_table).spec_at(w)
                == old(page_table).spec_at(w),
            forall|w: int| #[trigger] final(self).spec_has_frame(w) ==> old(self).contains_vpn(w),
            old(self).spec_map_type() == MapType::Framed ==> forall|v: int|
                old(self).contains_vpn(v) ==> final(self).spec_frame_bytes(v) == zero_page(),
    {
        let l = self.vpn_range.l.0;
        let r = self.vpn_range.r.0;
        let mut cur: usize = l;
        while cur < r
            invariant
                l == self.spec_start(),
                r == self.spec_end(),
                l <= cur <= r,
                self.wf(),
                page_table.wf(),
                self.same_shape(old(self)),
                page_table.spec_root_ppn() == old(page_table).spec_root_ppn(),
                forall|v: int| old(self).contains_vpn(v) ==> !old(page_table).spec_contains(v),
                forall|w: int| #[trigger] page_table.spec_contains(w) <==> (old(
                    page_table,
                ).spec_contains(w) || (l <= w < cur)),
                forall|w: int| old(page_table).spec_contains(w) ==> page_table.spec_at(w)
                    == old(page_table).spec_at(w),
                forall|v: int| l <= v < cur ==> #[trigger] page_table.spec_at(v).flags
                    == pte_flags_of(old(self).spec_map_perm()),
                forall|w: int| #[trigger] self.spec_has_frame(w) <==> (self.spec_map_type()
                    == MapType::Framed && l <= w < cur),
                self.spec_map_type() == MapType::Framed ==> forall|v: int| l <= v < cur
                    ==> (#[trigger] self.spec_frame_bytes(v) == zero_page()
                    && page_table.spec_at(v).ppn == self.spec_frame(v).ppn),
                self.spec_map_type() == MapType::Identical ==> forall|v: int| l <= v < cur
                    ==> #[trigger] page_table.spec_at(v).ppn.0 == v,
            decreases r - cur,
        {
            let ghost prev = *self;
            let ghost pt_prev = *page_table;
            self.map_one(page_table, fa, VirtPageNum(cur));
            proof {
                assert forall|v: int| l <= v <= cur implies #[trigger] page_table.spec_at(
                    v,
                ).flags == pte_flags_of(old(self).spec_map_perm()) by {
                    if v < cur {
                        assert(page_table.spec_at(v) == pt_prev.spec_at(v));
                    }
                }
                if prev.spec_map_type() == MapType::Framed {
                    assert forall|v: int| l <= v <= cur implies (#[trigger] self.spec_frame_bytes(
                        v,
                    ) == zero_page() && page_table.spec_at(v).ppn == self.spec_frame(v).ppn) by {
                        if v < cur {
                            assert(prev.spec_frame_bytes(v) == zero_page());
                            assert(self.spec_frame(v) == prev.spec_frame(v));
                            assert(page_table.spec_at(v) == pt_prev.spec_at(v));
                        }
                    }
                }
                if prev.spec_map_type() == MapType::Identical {
                    assert forall|v: int| l <= v <= cur implies #[trigger] page_table.spec_at(
                        v,
                    ).ppn.0 == v by {
                        if v < cur {
                            assert(page_table.spec_at(v) == pt_prev.spec_at(v));
                        }
                    }
                }
            }
            cur = cur + 1;
        }
        proof {
            let ghost fs = *self;
            let ghost fpt = *page_table;
            assert forall|v: int| fs.contains_vpn(v) implies #[trigger] fpt.spec_contains(v) by {}
            assert forall|v: int| fs.contains_vpn(v) implies #[trigger] fpt.spec_at(v).flags
                == pte_flags_of(fs.spec_map_perm()) by {}
            if fs.spec_map_type() == MapType::Framed {
                assert forall|v: int| fs.contains_vpn(v) implies #[trigger] fs.spec_has_frame(v)
                    && fpt.spec_at(v).ppn == fs.spec_frame(v).ppn by {
                    assert(self.spec_frame_bytes(v) == zero_page());
                    assert(page_table.spec_at(v).ppn == self.spec_frame(v).ppn);
                }
            }
            if fs.spec_map_type() == MapType::Identical {
                assert forall|v: int| fs.contains_vpn(v) implies #[trigger] fpt.spec_at(
                    v,
                ).ppn.0 == v by {}
            }
            lemma_region_mapped_in(&fs, &fpt);
            assert(fs.mapped_in(&fpt));
        }
    }

    /// Unmap every page of the region's range, which must be wholly mapped.
    /// All owned frames are released.
    pub fn unmap(&mut self, page_table: &mut PageTable)
        requires
            old(self).wf(),
            old(page_table).wf(),
            forall|v: int| old(self).contains_vpn(v) ==> old(page_table).spec_contains(v),
        ensures
            final(self).wf(),
            final(page_table).wf(),
            final(self).same_shape(old(self)),
            final(page_table).spec_root_ppn() == old(page_table).spec_root_ppn(),
            forall|w: int| #[trigger] final(page_table).spec_contains(w) <==> (old(
                page_table,
            ).spec_contains(w) && !old(self).contains_vpn(w)),
            forall|w: int| old(page_table).spec_contains(w) && !old(self).contains_vpn(w)
                ==> final(page_table).spec_at(w) == old(page_table).spec_at(w),
            forall|w: int| !(#[trigger] final(self).spec_has_frame(w)),
    {
        let l = self.vpn_range.l.0;
        let r = self.vpn_range.r.0;
        let mut cur: usize = l;
        while cur < r
            invariant
                l == self.spec_start(),
                r == self.spec_end(),
                l <= cur <= r,
                self.wf(),
                page_table.wf(),
                self.same_shape(old(self)),
                page_table.spec_root_ppn() == old(page_table).spec_root_ppn(),
                forall|v: int| old(self).contains_vpn(v) ==> old(page_table).spec_contains(v),
                forall|w: int| #[trigger] page_table.spec_contains(w) <==> (old(
                    page_table,
                ).spec_contains(w) && !(l <= w < cur)),
                forall|w: int| old(page_table).spec_contains(w) && !(l <= w < cur)
                    ==> page_table.spec_at(w) == old(page_table).spec_at(w),
                forall|w: int| #[trigger] self.spec_has_frame(w) ==> (old(self).spec_has_frame(w)
                    && !(l <= w < cur)),
            decreases r - cur,
        {
            self.unmap_one(page_table, VirtPageNum(cur));
            cur = cur + 1;
        }
        proof {
            assert forall|w: int| !(#[trigger] self.spec_has_frame(w)) by {
                if self.spec_has_frame(w) {
                    assert(old(self).spec_has_frame(w));
                    assert(old(self).contains_vpn(w));
                }
            }
        }
    }

    /// The number of pages a buffer of `len` bytes is written into: at least
    /// one page is always touched, since writing starts on the first page.
    pub open spec fn pages_for_len(len: int) -> int {
        if len == 0 {
            1
        } else {
            vpn_ceil(len)
        }
    }

    /// Write `data` into the region's already-mapped pages, page by page from
    /// the region's first page.  Bytes beyond `data` keep their old content,
    /// so freshly allocated (zeroed) pages stay zero past the data.
    pub fn copy_data(&mut self, page_table: &mut PageTable, data: &[u8])
        requires
            old(self).wf(),
            old(page_table).wf(),
            old(self).spec_map_type() == MapType::Framed,
            forall|v: int| old(self).contains_vpn(v) ==> old(self).spec_has_frame(v),
            MapArea::pages_for_len(data@.len() as int) <= old(self).spec_end() - old(
                self,
            ).spec_start(),
        ensures
            final(self).wf(),
            final(page_table).wf(),
            *final(page_table) == *old(page_table),
            final(self).same_shape(old(self)),
            forall|w: int| final(self).spec_has_frame(w) == old(self).spec_has_frame(w),
            forall|w: int| old(self).spec_has_frame(w) ==> final(self).spec_frame(w).ppn
                == old(self).spec_frame(w).ppn,
            forall|v: int, j: int| old(self).spec_has_frame(v) && 0 <= j < PAGE_SIZE
                ==> final(self).spec_frame_bytes(v)[j] == (if (v - old(self).spec_start())
                    * PAGE_SIZE + j < data@.len() {
                    data@[(v - old(self).spec_start()) * PAGE_SIZE + j]
                } else {
                    old(self).spec_frame_bytes(v)[j]
                }),
    {
        let l = self.vpn_range.l.0;
        let len = data.len();
        let mut o: usize = 0;
        while o < len
            invariant
                l == self.spec_start(),
                o <= len,
                len == data@.len(),
                self.wf(),
                self.same_shape(old(self)),
                self.spec_map_type() == MapType::Framed,
                MapArea::pages_for_len(len as int) <= self.spec_end() - self.spec_start(),
                forall|v: int| self.contains_vpn(v) ==> old(self).spec_has_frame(v),
                forall|w: int| self.spec_has_frame(w) == old(self).spec_has_frame(w),
                forall|w: int| old(self).spec_has_frame(w) ==> self.spec_frame(w).ppn
                    == old(self).spec_frame(w).ppn,
                forall|v: int, j: int| old(self).spec_has_frame(v) && 0 <= j < PAGE_SIZE
                    ==> self.spec_frame_bytes(v)[j] == (if (v - l) * PAGE_SIZE + j < o {
                        data@[(v - l) * PAGE_SIZE + j]
                    } else {
                        old(self).spec_frame_bytes(v)[j]
                    }),
            decreases len - o,
        {
            let page: usize = o / PAGE_SIZE;
            let j: usize = o % PAGE_SIZE;
            proof {
                vstd::arithmetic::div_mod::lemma_fundamental_div_mod(o as int, PAGE_SIZE as int);
                vstd::arithmetic::div_mod::lemma_mod_bound(o as int, PAGE_SIZE as int);
                vstd::arithmetic::div_mod::lemma_div_is_ordered(
                    o as int,
                    len as int - 1,
                    PAGE_SIZE as int,
                );
                crate::address::lemma_ceil_shift(len as int);
                assert(page < MapArea::pages_for_len(len as int));
            }
            let v = VirtPageNum(l + page);
            let ghost prev = *self;
            let b = data[o];
            self.write_frame_byte(v, j, b);
            o = o + 1;
            proof {
                assert forall|v2: int, j2: int| old(self).spec_has_frame(v2) && 0 <= j2
                    < PAGE_SIZE implies self.spec_frame_bytes(v2)[j2] == (if (v2 - l) * PAGE_SIZE
                    + j2 < o {
                    data@[(v2 - l) * PAGE_SIZE + j2]
                } else {
                    old(self).spec_frame_bytes(v2)[j2]
                }) by {
                    if v2 == l + page {
                        assert(self.spec_frame_bytes(v2) == prev.spec_frame_bytes(v2).update(
                            j as int,
                            b,
                        ));
                        if j2 != j {
                            assert((v2 - l) * PAGE_SIZE + j2 != o - 1) by (nonlinear_arith)
                                requires
                                    v2 == l + page,
                                    j2 != j,
                                    (page as int) * (PAGE_SIZE as int) + j == o - 1,
                            ;
                        }
                    } else {
                        assert(self.spec_frame_bytes(v2) == prev.spec_frame_bytes(v2));
                        assert((v2 - l) * PAGE_SIZE + j2 != o - 1) by (nonlinear_arith)
                            requires
                                v2 != l + page,
                                0 <= j2 < PAGE_SIZE,
                                0 <= j < PAGE_SIZE,
                                (page as int) * (PAGE_SIZE as int) + j == o - 1,
                        ;
                    }
                }
            }
        }
    }

    /// Copy one page of `another` into this region's frame for the same
    /// page.
    fn copy_page_from(&mut self, another: &MapArea, vpn: VirtPageNum)
        requires
            old(self).wf(),
            another.wf(),
            old(self).spec_has_frame(vpn.0 as int),
            another.spec_has_frame(vpn.0 as int),
        ensures
            final(self).wf(),
            final(self).same_shape(old(self)),
            forall|w: int| final(self).spec_has_frame(w) == old(self).spec_has_frame(w),
            forall|w: int| old(self).spec_has_frame(w) ==> final(self).spec_frame(w).ppn
                == old(self).spec_frame(w).ppn,
            final(self).spec_frame_bytes(vpn.0 as int) == another.spec_frame_bytes(vpn.0 as int),
            forall|w: int| w != vpn.0 as int && old(self).spec_has_frame(w)
                ==> final(self).spec_frame(w) == old(self).spec_frame(w),
    {
        proof {
            let i = choose|i: int|
                0 <= i < old(self).data_frames@.len() && fkey(old(self).data_frames@[i])
                    == vpn.0 as int;
            assert(old(self).data_frames@[i].1.wf());
            let k = choose|k: int|
                0 <= k < another.data_frames@.len() && fkey(another.data_frames@[k])
                    == vpn.0 as int;
            assert(another.data_frames@[k].1.wf());
        }
        let mut j: usize = 0;
        while j < PAGE_SIZE
            invariant
                j <= PAGE_SIZE,
                self.wf(),
                another.wf(),
                self.same_shape(old(self)),
                self.spec_has_frame(vpn.0 as int),
                another.spec_has_frame(vpn.0 as int),
                self.spec_frame_bytes(vpn.0 as int).len() == PAGE_SIZE,
                another.spec_frame_bytes(vpn.0 as int).len() == PAGE_SIZE,
                forall|w: int| self.spec_has_frame(w) == old(self).spec_has_frame(w),
                forall|w: int| old(self).spec_has_frame(w) ==> self.spec_frame(w).ppn
                    == old(self).spec_frame(w).ppn,
                forall|w: int| w != vpn.0 as int && old(self).spec_has_frame(w)
                    ==> self.spec_frame(w) == old(self).spec_frame(w),
                forall|j2: int| 0 <= j2 < j ==> self.spec_frame_bytes(vpn.0 as int)[j2]
                    == another.spec_frame_bytes(vpn.0 as int)[j2],
            decreases PAGE_SIZE - j,
        {
            let b = another.read_frame_byte(vpn, j);
            self.write_frame_byte(vpn, j, b);
            j = j + 1;
        }
        proof {
            assert(self.spec_frame_bytes(vpn.0 as int) =~= another.spec_frame_bytes(
                vpn.0 as int,
            ));
        }
    }

    /// Fill this region's frames with a byte-for-byte copy of the frames of
    /// `another`, which must cover the same page range.
    pub fn copy_from(&mut self, another: &MapArea)
        requires
            old(self).wf(),
            another.wf(),
            old(self).spec_map_type() == MapType::Framed,
            another.spec_map_type() == MapType::Framed,
            old(self).spec_start() == another.spec_start(),
            old(self).spec_end() == another.spec_end(),
            forall|v: int| #[trigger] old(self).contains_vpn(v) ==> old(self).spec_has_frame(v)
                && another.spec_has_frame(v),
        ensures
            final(self).wf(),
            final(self).same_shape(old(self)),
            forall|w: int| final(self).spec_has_frame(w) == old(self).spec_has_frame(w),
            forall|w: int| old(self).spec_has_frame(w) ==> final(self).spec_frame(w).ppn
                == old(self).spec_frame(w).ppn,
            forall|v: int| old(self).contains_vpn(v) ==> final(self).spec_frame_bytes(v)
                == another.spec_frame_bytes(v),
    {
        let l = self.vpn_range.l.0;
        let r = self.vpn_range.r.0;
        proof {
            assert forall|v: int| l <= v < r implies (#[trigger] another.spec_has_frame(v) && old(
                self,
            ).spec_has_frame(v)) by {
                assert(old(self).contains_vpn(v));
            }
        }
        let mut cur: usize = l;
        while cur < r
            invariant
                l == self.spec_start(),
                r == self.spec_end(),
                l <= cur <= r,
                self.wf(),
                another.wf(),
                self.same_shape(old(self)),
                forall|v: int| l <= v < r ==> (#[trigger] another.spec_has_frame(v) && old(
                    self,
                ).spec_has_frame(v)),
                forall|w: int| self.spec_has_frame(w) == old(self).spec_has_frame(w),
                forall|w: int| old(self).spec_has_frame(w) ==> self.spec_frame(w).ppn
                    == old(self).spec_frame(w).ppn,
                forall|v: int| l <= v < cur ==> #[trigger] self.spec_frame_bytes(v)
                    == another.spec_frame_bytes(v),
                forall|v: int| cur <= v < r ==> #[trigger] self.spec_frame_bytes(v)
                    == old(self).spec_frame_bytes(v),
            decreases r - cur,
        {
            let ghost prev = *self;
            proof {
                assert(another.spec_has_frame(cur as int));
                assert(self.spec_has_frame(cur as int));
            }
            self.copy_page_from(another, VirtPageNum(cur));
            proof {
                assert forall|v: int| cur + 1 <= v < r implies #[trigger] self.spec_frame_bytes(
                    v,
                ) == old(self).spec_frame_bytes(v) by {
                    assert(another.spec_has_frame(v));
                    assert(old(self).spec_has_frame(v));
                    assert(prev.spec_has_frame(v));
                    assert(self.spec_frame(v) == prev.spec_frame(v));
                    assert(prev.spec_frame_bytes(v) == old(self).spec_frame_bytes(v));
                }
                assert forall|v: int| l <= v < cur + 1 implies #[trigger] self.spec_frame_bytes(
                    v,
                ) == another.spec_frame_bytes(v) by {
                    if v < cur {
                        assert(another.spec_has_frame(v));
                        assert(old(self).spec_has_frame(v));
                        assert(prev.spec_has_frame(v));
                        assert(self.spec_frame(v) == prev.spec_frame(v));
                        assert(prev.spec_frame_bytes(v) == another.spec_frame_bytes(v));
                    }
                }
            }
            cur = cur + 1;
        }
        proof {
            assert forall|v: int| old(self).contains_vpn(v) implies #[trigger] self.spec_frame_bytes(
                v,
            ) == another.spec_frame_bytes(v) by {}
        }
    }
}

/// A region whose every page is mapped with its permission, with the right
/// physical page for its policy, agrees with the page table.
proof fn lemma_region_mapped_in(a: &MapArea, pt: &PageTable)
    requires
        forall|v: int| a.contains_vpn(v) ==> #[trigger] pt.spec_contains(v),
        forall|v: int| a.contains_vpn(v) ==> #[trigger] pt.spec_at(v).flags == pte_flags_of(
            a.spec_map_perm(),
        ),
        a.spec_map_type() == MapType::Framed ==> forall|v: int| a.contains_vpn(v)
            ==> #[trigger] a.spec_has_frame(v) && pt.spec_at(v).ppn == a.spec_frame(v).ppn,
        a.spec_map_type() == MapType::Identical ==> forall|v: int| a.contains_vpn(v)
            ==> #[trigger] pt.spec_at(v).ppn.0 == v,
    ensures
        a.mapped_in(pt),
{
    assert forall|v: int| a.contains_vpn(v) implies {
        &&& pt.spec_contains(v)
        &&& pt.spec_at(v).flags == pte_flags_of(a.spec_map_perm())
        &&& (a.spec_map_type() == MapType::Framed ==> a.spec_has_frame(v) && pt.spec_at(v).ppn
            == a.spec_frame(v).ppn)
        &&& (a.spec_map_type() == MapType::Identical ==> pt.spec_at(v).ppn.0 == v)
    } by {
        assert(pt.spec_contains(v));
        assert(pt.spec_at(v).flags == pte_flags_of(a.spec_map_perm()));
        if a.spec_map_type() == MapType::Framed {
            assert(a.spec_has_frame(v) && pt.spec_at(v).ppn == a.spec_frame(v).ppn);
        }
        if a.spec_map_type() == MapType::Identical {
            assert(pt.spec_at(v).ppn.0 == v);
        }
    }
}

/// A region whose pages stay mapped with unchanged entries in a second page
/// table agrees with that table too.
proof fn lemma_mapped_in_preserved(a: &MapArea, pt1: &PageTable, pt2: &PageTable)
    requires
        a.mapped_in(pt1),
        forall|v: int| a.contains_vpn(v) ==> #[trigger] pt2.spec_contains(v),
        forall|v: int| a.contains_vpn(v) ==> #[trigger] pt2.spec_at(v) == pt1.spec_at(v),
    ensures
        a.mapped_in(pt2),
{
    assert forall|v: int| a.contains_vpn(v) implies {
        &&& pt2.spec_contains(v)
        &&& pt2.spec_at(v).flags == pte_flags_of(a.spec_map_perm())
        &&& (a.spec_map_type() == MapType::Framed ==> a.spec_has_frame(v) && pt2.spec_at(v).ppn
            == a.spec_frame(v).ppn)
        &&& (a.spec_map_type() == MapType::Identical ==> pt2.spec_at(v).ppn.0 == v)
    } by {
        assert(pt1.spec_contains(v));
        assert(pt2.spec_at(v) == pt1.spec_at(v));
    }
    lemma_region_mapped_in(a, pt2);
}

/// The page ranges of `a` and `b` share no page: they are ordered one way or
/// the other, or one of them is empty.
pub open spec fn ranges_disjoint(a: MapArea, b: MapArea) -> bool {
    ||| a.spec_end() <= b.spec_start()
    ||| b.spec_end() <= a.spec_start()
    ||| a.spec_start() == a.spec_end()
    ||| b.spec_start() == b.spec_end()
}

/// An address space: one page table plus the ordered collection of regions
/// mapped through it, and the frame pool that serves this space.
pub struct MemorySet {
    page_table: PageTable,
    areas: Vec<MapArea>,
    frame_allocator: FrameAllocator,
}

impl MemorySet {
    /// The regions of this space, in insertion order.
    pub closed spec fn spec_areas(&self) -> Seq<MapArea> {
        self.areas@
    }

    /// Whether virtual page `v` currently translates.
    pub closed spec fn spec_mapped(&self, v: int) -> bool {
        self.page_table.spec_contains(v)
    }

    /// The translation of page `v`, meaningful only under `spec_mapped`.
    pub closed spec fn spec_entry(&self, v: int) -> PageTableEntry {
        self.page_table.spec_at(v)
    }

    /// The space's activation token.
    pub closed spec fn spec_token(&self) -> int {
        self.page_table.spec_root_ppn()
    }

    /// Page `v` lies in some region's range.
    pub open spec fn in_some_area(&self, v: int) -> bool {
        exists|i: int| 0 <= i < self.spec_areas().len() && (#[trigger] self.spec_areas()[i]).contains_vpn(v)
    }

    /// Every region is well formed, agrees with the page table, and lies
    /// below the trampoline page.
    pub closed spec fn inv_areas(&self) -> bool {
        forall|i: int| 0 <= i < self.areas@.len() ==> {
            &&& (#[trigger] self.areas@[i]).wf()
            &&& self.areas@[i].mapped_in(&self.page_table)
            &&& self.areas@[i].spec_end() <= trampoline_vpn()
        }
    }

    /// No two regions share a page.
    pub closed spec fn inv_disjoint(&self) -> bool {
        forall|i: int, j: int| 0 <= i < j < self.areas@.len() ==> ranges_disjoint(
            #[trigger] self.areas@[i],
            #[trigger] self.areas@[j],
        )
    }

    /// Every mapped page other than the trampoline belongs to a region.
    pub closed spec fn inv_complete(&self) -> bool {
        forall|v: int| #[trigger] self.page_table.spec_contains(v) ==> v == trampoline_vpn()
            || self.in_some_area(v)
    }

    /// The address-space invariant: the region list and the page table are
    /// two views of the same mapping.
    pub closed spec fn inv(&self) -> bool {
        &&& self.page_table.wf()
        &&& self.inv_areas()
        &&& self.inv_disjoint()
        &&& self.inv_complete()
    }

    /// The trampoline page translates, read-execute and not user-accessible.
    pub open spec fn trampoline_ok(&self) -> bool {
        &&& self.spec_mapped(trampoline_vpn())
        &&& self.spec_entry(trampoline_vpn()).flags == (PTEFlags {
            v: true,
            r: true,
            w: false,
            x: true,
            u: false,
        })
    }

    /// An empty address space: empty page table, no regions.
    pub fn new_bare() -> (ms: MemorySet)
        ensures
            ms.inv(),
            ms.spec_areas().len() == 0,
            forall|v: int| !(#[trigger] ms.spec_mapped(v)),
    {
        let mut frame_allocator = FrameAllocator::new();
        let page_table = PageTable::new(&mut frame_allocator);
        MemorySet { page_table, areas: Vec::new(), frame_allocator }
    }

    /// The opaque identifier of this space's page table root, used to
    /// activate the space.
    pub fn token(&self) -> (r: usize)
        ensures
            r == self.spec_token(),
    {
        self.page_table.token()
    }

    /// The translation of `vpn`, or `None` when the page is unmapped.
    pub fn translate(&self, vpn: VirtPageNum) -> (r: Option<PageTableEntry>)
        requires
            self.inv(),
        ensures
            r == if self.spec_mapped(vpn.0 as int) {
                Some(self.spec_entry(vpn.0 as int))
            } else {
                None::<PageTableEntry>
            },
    {
        self.page_table.translate(vpn)
    }

    /// Install the trampoline translation.  The trampoline is deliberately
    /// not tracked as a region, so no removal path can ever unmap it.
    fn map_trampoline(&mut self, strampoline_ppn: PhysPageNum)
        requires
            old(self).inv(),
            !old(self).spec_mapped(trampoline_vpn()),
        ensures
            final(self).inv(),
            final(self).trampoline_ok(),
            final(self).spec_entry(trampoline_vpn()).ppn == strampoline_ppn,
            final(self).spec_token() == old(self).spec_token(),
            final(self).spec_areas() == old(self).spec_areas(),
            forall|w: int| w != trampoline_vpn() ==> #[trigger] final(self).spec_mapped(w)
                == old(self).spec_mapped(w),
            forall|w: int| w != trampoline_vpn() && old(self).spec_mapped(w)
                ==> final(self).spec_entry(w) == old(self).spec_entry(w),
    {
        let ghost pt_prev = self.page_table;
        let tramp = VirtAddr(crate::config::TRAMPOLINE).floor();
        self.page_table.map(
            tramp,
            strampoline_ppn,
            PTEFlags { v: true, r: true, w: false, x: true, u: false },
        );
        proof {
            assert(tramp.0 == trampoline_vpn());
            assert forall|i: int| 0 <= i < self.areas@.len() implies {
                &&& (#[trigger] self.areas@[i]).wf()
                &&& self.areas@[i].mapped_in(&self.page_table)
                &&& self.areas@[i].spec_end() <= trampoline_vpn()
            } by {
                let a = self.areas@[i];
                assert forall|v: int| a.contains_vpn(v) implies #[trigger] self.page_table.spec_contains(
                    v,
                ) by {
                    assert(pt_prev.spec_contains(v));
                }
                assert forall|v: int| a.contains_vpn(v) implies #[trigger] self.page_table.spec_at(
                    v,
                ) == pt_prev.spec_at(v) by {
                    assert(pt_prev.spec_contains(v));
                    assert(v < trampoline_vpn());
                }
                lemma_mapped_in_preserved(&a, &pt_prev, &self.page_table);
            }
            assert forall|v: int| #[trigger] self.page_table.spec_contains(v) implies v
                == trampoline_vpn() || self.in_some_area(v) by {
                if v != trampoline_vpn() {
                    assert(pt_prev.spec_contains(v));
                    assert(old(self).in_some_area(v));
                    let i = choose|i: int|
                        0 <= i < old(self).spec_areas().len() && (#[trigger] old(
                            self,
                        ).spec_areas()[i]).contains_vpn(v);
                    assert((self.spec_areas()[i]).contains_vpn(v));
                }
            }
        }
    }

    /// Map a region into this space and record it, filling its pages from
    /// `data` when given.  The caller guarantees the region does not overlap
    /// any existing region.
    #[verifier::rlimit(80)]
    fn push(&mut self, map_area: MapArea, data: Option<&[u8]>)
        requires
            old(self).inv(),
            map_area.wf(),
            forall|v: int| !(#[trigger] map_area.spec_has_frame(v)),
            map_area.spec_end() <= trampoline_vpn(),
            forall|i: int| 0 <= i < old(self).spec_areas().len() ==> ranges_disjoint(
                #[trigger] old(self).spec_areas()[i],
                map_area,
            ),
            data matches Some(d) ==> map_area.spec_map_type() == MapType::Framed
                && MapArea::pages_for_len(d@.len() as int) <= map_area.spec_end()
                - map_area.spec_start(),
        ensures
            final(self).inv(),
            final(self).spec_token() == old(self).spec_token(),
            final(self).spec_areas().len() == old(self).spec_areas().len() + 1,
            forall|i: int| 0 <= i < old(self).spec_areas().len()
                ==> final(self).spec_areas()[i] == old(self).spec_areas()[i],
            final(self).spec_areas().last().same_shape(&map_area),
            forall|v: int| map_area.contains_vpn(v) ==> #[trigger] final(self).spec_mapped(v)
                && final(self).spec_entry(v).flags == pte_flags_of(map_area.spec_map_perm()),
            forall|v: int| !map_area.contains_vpn(v) ==> #[trigger] final(self).spec_mapped(v)
                == old(self).spec_mapped(v),
            forall|v: int| !map_area.contains_vpn(v) && old(self).spec_mapped(v)
                ==> final(self).spec_entry(v) == old(self).spec_entry(v),
            map_area.spec_map_type() == MapType::Framed ==> forall|v: int, j: int|
                map_area.contains_vpn(v) && 0 <= j < PAGE_SIZE
                    ==> final(self).spec_areas().last().spec_frame_bytes(v)[j] == (match data {
                    Some(d) => if (v - map_area.spec_start()) * PAGE_SIZE + j < d@.len() {
                        d@[(v - map_area.spec_start()) * PAGE_SIZE + j]
                    } else {
                        0u8
                    },
                    None => 0u8,
                }),
            map_area.spec_map_type() == MapType::Identical ==> forall|v: int|
                map_area.contains_vpn(v) ==> #[trigger] final(self).spec_entry(v).ppn.0 == v,
    {
        let mut area = map_area;
        proof {
            assert forall|v: int| area.contains_vpn(v) implies !self.page_table.spec_contains(
                v,
            ) by {
                if self.page_table.spec_contains(v) {
                    assert(v != trampoline_vpn());
                    assert(old(self).in_some_area(v));
                    let i = choose|i: int|
                        0 <= i < old(self).spec_areas().len() && (#[trigger] old(
                            self,
                        ).spec_areas()[i]).contains_vpn(v);
                    assert(ranges_disjoint(old(self).spec_areas()[i], map_area));
                }
            }
        }
        let ghost pt0 = self.page_table;
        area.map(&mut self.page_table, &mut self.frame_allocator);
        match data {
            Some(d) => {
                proof {
                    assert forall|v: int| area.contains_vpn(v) implies #[trigger] area.spec_has_frame(
                        v,
                    ) by {
                        assert(self.page_table.spec_contains(v));
                    }
                }
                area.copy_data(&mut self.page_table, d);
            },
            None => {},
        }
        let ghost new_area = area;
        let ghost pt1 = self.page_table;
        let ghost areas0 = self.areas@;
        self.areas.push(area);
        proof {
            let n = areas0.len() as int;
            assert(self.areas@ == areas0.push(new_area));
            assert(self.areas@.len() == n + 1);
            assert forall|i: int| 0 <= i < n implies self.areas@[i] == areas0[i] by {}
            // frame content of the new region
            if new_area.spec_map_type() == MapType::Framed {
                assert forall|v: int, j: int| new_area.contains_vpn(v) && 0 <= j < PAGE_SIZE
                    implies self.spec_areas().last().spec_frame_bytes(v)[j] == (match data {
                    Some(d) => if (v - map_area.spec_start()) * PAGE_SIZE + j < d@.len() {
                        d@[(v - map_area.spec_start()) * PAGE_SIZE + j]
                    } else {
                        0u8
                    },
                    None => 0u8,
                }) by {
                    assert(self.spec_areas().last() == new_area);
                    assert(zero_page()[j] == 0u8);
                }
            }
            // invariant: each old region still agrees with the table
            assert forall|i: int| 0 <= i < self.areas@.len() implies {
                &&& (#[trigger] self.areas@[i]).wf()
                &&& self.areas@[i].mapped_in(&self.page_table)
                &&& self.areas@[i].spec_end() <= trampoline_vpn()
            } by {
                let a = self.areas@[i];
                if i < n {
                    assert(a == areas0[i]);
                    assert(ranges_disjoint(old(self).spec_areas()[i], map_area));
                    assert forall|v: int| a.contains_vpn(v) implies
                        #[trigger] self.page_table.spec_contains(v) by {
                        assert(pt0.spec_contains(v));
                    }
                    assert forall|v: int| a.contains_vpn(v) implies
                        #[trigger] self.page_table.spec_at(v) == pt0.spec_at(v) by {
                        assert(pt0.spec_contains(v));
                        assert(!map_area.contains_vpn(v));
                    }
                    lemma_mapped_in_preserved(&a, &pt0, &self.page_table);
                } else {
                    assert(a == new_area);
                }
            }
            // invariant: disjointness, including the new region
            assert forall|i: int, j: int| 0 <= i < j < self.areas@.len() implies ranges_disjoint(
                #[trigger] self.areas@[i],
                #[trigger] self.areas@[j],
            ) by {
                if j < n {
                    assert(self.areas@[i] == areas0[i] && self.areas@[j] == areas0[j]);
                } else {
                    assert(self.areas@[j] == new_area);
                    assert(self.areas@[i] == areas0[i]);
                    assert(ranges_disjoint(old(self).spec_areas()[i], map_area));
                }
            }
            // invariant: completeness
            assert forall|v: int| #[trigger] self.page_table.spec_contains(v) implies v
                == trampoline_vpn() || self.in_some_area(v) by {
                if v != trampoline_vpn() {
                    if pt0.spec_contains(v) {
                        assert(old(self).in_some_area(v));
                        let i = choose|i: int|
                            0 <= i < old(self).spec_areas().len() && (#[trigger] old(
                                self,
                            ).spec_areas()[i]).contains_vpn(v);
                        assert((self.spec_areas()[i]).contains_vpn(v));
                    } else {
                        assert(new_area.contains_vpn(v));
                        assert((self.spec_areas()[n]).contains_vpn(v));
                    }
                }
            }
            // the new region is mapped with its permission
            assert forall|v: int| map_area.contains_vpn(v) implies #[trigger] self.spec_mapped(v)
                && self.spec_entry(v).flags == pte_flags_of(map_area.spec_map_perm()) by {
                assert(new_area.contains_vpn(v));
                assert(self.page_table.spec_contains(v));
            }
            if new_area.spec_map_type() == MapType::Identical {
                assert forall|v: int| map_area.contains_vpn(v) implies
                    #[trigger] self.spec_entry(v).ppn.0 == v by {
                    assert(new_area.contains_vpn(v));
                    assert(self.page_table.spec_contains(v));
                    assert(new_area.mapped_in(&self.page_table));
                }
            }
        }
    }

    /// Map a new framed region over `[start_va, end_va)` with the given
    /// permission.  The caller guarantees the range conflicts with no
    /// existing region and lies below the trampoline.
    pub fn insert_framed_area(
        &mut self,
        start_va: VirtAddr,
        end_va: VirtAddr,
        permission: MapPermission,
    )
        requires
            old(self).inv(),
            vpn_floor(start_va.0 as int) <= vpn_ceil(end_va.0 as int),
            vpn_ceil(end_va.0 as int) <= trampoline_vpn(),
            forall|i: int| 0 <= i < old(self).spec_areas().len() ==> ((#[trigger] old(
                self,
            ).spec_areas()[i]).spec_end() <= vpn_floor(start_va.0 as int) || vpn_ceil(
                end_va.0 as int,
            ) <= old(self).spec_areas()[i].spec_start() || old(self).spec_areas()[i].spec_start()
                == old(self).spec_areas()[i].spec_end() || vpn_floor(start_va.0 as int)
                == vpn_ceil(end_va.0 as int)),
        ensures
            final(self).inv(),
            final(self).spec_token() == old(self).spec_token(),
            final(self).spec_areas().len() == old(self).spec_areas().len() + 1,
            forall|i: int| 0 <= i < old(self).spec_areas().len()
                ==> final(self).spec_areas()[i] == old(self).spec_areas()[i],
            final(self).spec_areas().last().spec_start() == vpn_floor(start_va.0 as int),
            final(self).spec_areas().last().spec_end() == vpn_ceil(end_va.0 as int),
            final(self).spec_areas().last().spec_map_type() == MapType::Framed,
            final(self).spec_areas().last().spec_map_perm() == permission,
            forall|v: int| vpn_floor(start_va.0 as int) <= v < vpn_ceil(end_va.0 as int)
                ==> #[trigger] final(self).spec_mapped(v) && final(self).spec_entry(v).flags
                == pte_flags_of(permission),
            forall|v: int| !(vpn_floor(start_va.0 as int) <= v < vpn_ceil(end_va.0 as int))
                ==> #[trigger] final(self).spec_mapped(v) == old(self).spec_mapped(v),
            forall|v: int| !(vpn_floor(start_va.0 as int) <= v < vpn_ceil(end_va.0 as int))
                && old(self).spec_mapped(v) ==> final(self).spec_entry(v) == old(
                self,
            ).spec_entry(v),
            forall|v: int, j: int| vpn_floor(start_va.0 as int) <= v < vpn_ceil(end_va.0 as int)
                && 0 <= j < PAGE_SIZE ==> final(self).spec_areas().last().spec_frame_bytes(
                v,
            )[j] == 0u8,
    {
        let area = MapArea::new(start_va, end_va, MapType::Framed, permission);
        let ghost garea = area;
        proof {
            assert forall|i: int| 0 <= i < old(self).spec_areas().len() implies ranges_disjoint(
                #[trigger] old(self).spec_areas()[i],
                area,
            ) by {}
        }
        self.push(area, None);
        proof {
            assert forall|v: int| !(vpn_floor(start_va.0 as int) <= v < vpn_ceil(
                end_va.0 as int,
            )) && old(self).spec_mapped(v) implies self.spec_entry(v) == old(self).spec_entry(
                v,
            ) by {
                assert(!garea.contains_vpn(v));
                assert(self.spec_mapped(v) == old(self).spec_mapped(v));
            }
        }
    }
}


/// Some non-empty region of `areas` intersects the page range `[l, r)`:
/// the conflict test of the dynamic remap path.
pub open spec fn range_conflicts(areas: Seq<MapArea>, l: int, r: int) -> bool {
    exists|i: int| 0 <= i < areas.len() && (#[trigger] areas[i]).spec_end()
        > areas[i].spec_start() && l < areas[i].spec_end() && r > areas[i].spec_start()
}

impl MemorySet {
    /// Dynamically map `[start, end)` as a framed, user-accessible region
    /// with the permission encoded by `prot` (bit 0 read, bit 1 write,
    /// bit 2 execute).  Fails with -1, changing nothing, when the page range
    /// intersects any existing region; otherwise the whole range is mapped.
    /// Callers keep the range below the trampoline page and the protection
    /// word to its low three bits, as the syscall wrapper validates; the
    /// page table refuses remapping, so this boundary is the caller's to
    /// hold.
    pub fn mmap(&mut self, start: usize, end: usize, prot: usize) -> (r: isize)
        requires
            old(self).inv(),
            prot <= 7,
            vpn_floor(start as int) <= vpn_ceil(end as int),
            vpn_ceil(end as int) <= trampoline_vpn(),
        ensures
            final(self).inv(),
            final(self).spec_token() == old(self).spec_token(),
            r == 0 || r == -1,
            (r == -1) <==> range_conflicts(
                old(self).spec_areas(),
                vpn_floor(start as int),
                vpn_ceil(end as int),
            ),
            r == -1 ==> *final(self) == *old(self),
            r == 0 ==> {
                &&& final(self).spec_areas().len() == old(self).spec_areas().len() + 1
                &&& (forall|i: int| 0 <= i < old(self).spec_areas().len()
                    ==> final(self).spec_areas()[i] == old(self).spec_areas()[i])
                &&& final(self).spec_areas().last().spec_start() == vpn_floor(start as int)
                &&& final(self).spec_areas().last().spec_end() == vpn_ceil(end as int)
                &&& final(self).spec_areas().last().spec_map_type() == MapType::Framed
                &&& final(self).spec_areas().last().spec_map_perm() == perm_from_prot(prot as int)
                &&& (forall|v: int| vpn_floor(start as int) <= v < vpn_ceil(end as int)
                    ==> #[trigger] final(self).spec_mapped(v) && final(self).spec_entry(v).flags
                    == pte_flags_of(perm_from_prot(prot as int)))
                &&& (forall|v: int| !(vpn_floor(start as int) <= v < vpn_ceil(end as int))
                    ==> #[trigger] final(self).spec_mapped(v) == old(self).spec_mapped(v))
                &&& (forall|v: int| !(vpn_floor(start as int) <= v < vpn_ceil(end as int))
                    && old(self).spec_mapped(v) ==> final(self).spec_entry(v) == old(
                    self,
                ).spec_entry(v))
            },
    {
        let lvpn = VirtAddr(start).floor();
        let rvpn = VirtAddr(end).ceil();
        let n = self.areas.len();
        let mut i: usize = 0;
        while i < n
            invariant
                *self == *old(self),
                self.inv(),
                i <= n,
                n == self.areas@.len(),
                lvpn.0 == vpn_floor(start as int),
                rvpn.0 == vpn_ceil(end as int),
                forall|k: int| 0 <= k < i ==> ((#[trigger] self.areas@[k]).spec_end()
                    <= self.areas@[k].spec_start() || lvpn.0 >= self.areas@[k].spec_end()
                    || rvpn.0 <= self.areas@[k].spec_start()),
            decreases n - i,
        {
            let a_start = self.areas[i].vpn_range.l.0;
            let a_end = self.areas[i].vpn_range.r.0;
            if a_end > a_start && lvpn.0 < a_end && rvpn.0 > a_start {
                proof {
                    assert((#[trigger] self.areas@[i as int]).spec_end()
                        > self.areas@[i as int].spec_start() && lvpn.0
                        < self.areas@[i as int].spec_end() && rvpn.0
                        > self.areas@[i as int].spec_start());
                }
                return -1;
            }
            i = i + 1;
        }
        proof {
            if range_conflicts(old(self).spec_areas(), lvpn.0 as int, rvpn.0 as int) {
                let k = choose|k: int|
                    0 <= k < old(self).spec_areas().len() && (#[trigger] old(
                        self,
                    ).spec_areas()[k]).spec_end() > old(self).spec_areas()[k].spec_start()
                        && lvpn.0 < old(self).spec_areas()[k].spec_end() && rvpn.0 > old(
                        self,
                    ).spec_areas()[k].spec_start();
                assert(self.areas@[k] == old(self).spec_areas()[k]);
                assert(false);
            }
        }
        let permission = MapPermission::from_prot(prot);
        proof {
            let p = PAGE_SIZE as int;
            vstd::arithmetic::mul::lemma_mul_inequality(
                lvpn.0 as int,
                trampoline_vpn(),
                p,
            );
            vstd::arithmetic::mul::lemma_mul_inequality(
                rvpn.0 as int,
                trampoline_vpn(),
                p,
            );
            assert(trampoline_vpn() * p <= usize::MAX as int);
            vstd::arithmetic::div_mod::lemma_div_multiples_vanish(lvpn.0 as int, p);
            assert(vpn_floor((lvpn.0 * PAGE_SIZE) as int) == lvpn.0 as int);
            vstd::arithmetic::div_mod::lemma_div_multiples_vanish_fancy(rvpn.0 as int, p - 1, p);
            assert(vpn_ceil((rvpn.0 * PAGE_SIZE) as int) == rvpn.0 as int);
        }
        self.insert_framed_area(
            VirtAddr(lvpn.0 * PAGE_SIZE),
            VirtAddr(rvpn.0 * PAGE_SIZE),
            permission,
        );
        0
    }
}


/// A region lies wholly inside the page range `[l, r)`.
pub open spec fn area_contained_in(a: MapArea, l: int, r: int) -> bool {
    l <= a.spec_start() && a.spec_end() <= r
}

/// The pages of the regions wholly contained in `[l, r)`, among the first
/// `n` regions of `areas`.
pub open spec fn contained_pages_upto(areas: Seq<MapArea>, l: int, r: int, n: int) -> Set<int> {
    Set::new(
        |v: int|
            exists|j: int|
                0 <= j < n && area_contained_in(#[trigger] areas[j], l, r)
                    && areas[j].contains_vpn(v),
    )
}

/// The pages of the regions wholly contained in `[l, r)`.
pub open spec fn contained_pages(areas: Seq<MapArea>, l: int, r: int) -> Set<int> {
    contained_pages_upto(areas, l, r, areas.len() as int)
}

/// The regions an unmap of `[l, r)` keeps: those neither emptied (wholly
/// inside the range) nor empty already.
pub open spec fn munmap_keep(l: int, r: int) -> spec_fn(MapArea) -> bool {
    |a: MapArea| a.spec_start() < a.spec_end() && !area_contained_in(a, l, r)
}

/// What the keep predicate says of one region.
proof fn lemma_munmap_keep(l: int, r: int, a: MapArea)
    ensures
        munmap_keep(l, r)(a) == (a.spec_start() < a.spec_end() && !area_contained_in(a, l, r)),
{
}

impl MemorySet {
    /// Unmap the page range `[start, end)`.  Succeeds exactly when the range
    /// is tiled by regions wholly contained in it: the coverage test adds up
    /// the page counts of the contained regions and compares them with the
    /// range's length, which with disjoint regions is the same thing.  Then
    /// each contained region is unmapped and dropped (as is every
    /// already-empty region), and no page of the range translates
    /// afterwards.  A region only partially overlapping the range is neither
    /// split nor touched: the request fails with -1 and nothing changes.
    pub fn munmap(&mut self, start: usize, end: usize) -> (r: isize)
        requires
            old(self).inv(),
            vpn_floor(start as int) <= vpn_ceil(end as int),
        ensures
            final(self).inv(),
            final(self).spec_token() == old(self).spec_token(),
            r == 0 || r == -1,
            (r == 0) <==> set_int_range(vpn_floor(start as int), vpn_ceil(end as int)).subset_of(
                contained_pages(
                    old(self).spec_areas(),
                    vpn_floor(start as int),
                    vpn_ceil(end as int),
                ),
            ),
            r == -1 ==> *final(self) == *old(self),
            r == 0 ==> {
                &&& (forall|v: int| vpn_floor(start as int) <= v < vpn_ceil(end as int) ==> !(
                #[trigger] final(self).spec_mapped(v)))
                &&& (forall|v: int| !(vpn_floor(start as int) <= v < vpn_ceil(end as int))
                    ==> #[trigger] final(self).spec_mapped(v) == old(self).spec_mapped(v))
                &&& (forall|v: int| !(vpn_floor(start as int) <= v < vpn_ceil(end as int)) && old(
                    self,
                ).spec_mapped(v) ==> final(self).spec_entry(v) == old(self).spec_entry(v))
                &&& final(self).spec_areas() == old(self).spec_areas().filter(
                    munmap_keep(vpn_floor(start as int), vpn_ceil(end as int)),
                )
            },
    {
        let lvpn = VirtAddr(start).floor();
        let rvpn = VirtAddr(end).ceil();
        let ghost gl = lvpn.0 as int;
        let ghost gr = rvpn.0 as int;
        let ghost areas0 = self.areas@;
        let n = self.areas.len();
        let mut sum: usize = 0;
        let mut i: usize = 0;
        proof {
            lemma_int_range(gl, gr);
            assert(contained_pages_upto(areas0, gl, gr, 0) =~= Set::<int>::empty());
        }
        while i < n
            invariant
                *self == *old(self),
                self.inv(),
                i <= n,
                n == areas0.len(),
                areas0 == self.areas@,
                gl == vpn_floor(start as int),
                gr == vpn_ceil(end as int),
                lvpn.0 == gl,
                rvpn.0 == gr,
                gl <= gr,
                contained_pages_upto(areas0, gl, gr, i as int).finite(),
                sum == contained_pages_upto(areas0, gl, gr, i as int).len(),
                contained_pages_upto(areas0, gl, gr, i as int).subset_of(set_int_range(gl, gr)),
            decreases n - i,
        {
            let s_i = self.areas[i].vpn_range.l.0;
            let e_i = self.areas[i].vpn_range.r.0;
            let ghost cp0 = contained_pages_upto(areas0, gl, gr, i as int);
            let ghost cp1 = contained_pages_upto(areas0, gl, gr, i as int + 1);
            proof {
                assert((#[trigger] self.areas@[i as int]).wf());
                assert(s_i == areas0[i as int].spec_start());
                assert(e_i == areas0[i as int].spec_end());
            }
            if lvpn.0 <= s_i && e_i <= rvpn.0 {
                proof {
                    let pg = set_int_range(s_i as int, e_i as int);
                    lemma_int_range(s_i as int, e_i as int);
                    lemma_int_range(gl, gr);
                    assert(area_contained_in(areas0[i as int], gl, gr));
                    assert forall|v: int| cp1.contains(v) implies cp0.contains(v) || pg.contains(
                        v,
                    ) by {
                        let j = choose|j: int|
                            0 <= j < i as int + 1 && area_contained_in(
                                #[trigger] areas0[j],
                                gl,
                                gr,
                            ) && areas0[j].contains_vpn(v);
                        if j < i as int {
                            assert(cp0.contains(v));
                        }
                    }
                    assert forall|v: int| cp0.contains(v) || pg.contains(v) implies cp1.contains(
                        v,
                    ) by {
                        if cp0.contains(v) {
                            let j = choose|j: int|
                                0 <= j < i as int && area_contained_in(
                                    #[trigger] areas0[j],
                                    gl,
                                    gr,
                                ) && areas0[j].contains_vpn(v);
                            assert(0 <= j < i as int + 1 && area_contained_in(areas0[j], gl, gr)
                                && areas0[j].contains_vpn(v));
                        } else {
                            assert(s_i <= v < e_i);
                            let gi = i as int;
                            assert(areas0[gi].contains_vpn(v));
                            assert(0 <= gi && gi < gi + 1 && area_contained_in(areas0[gi], gl, gr)
                                && areas0[gi].contains_vpn(v));
                        }
                    }
                    assert(cp1 =~= cp0.union(pg));
                    assert forall|v: int| !(cp0.contains(v) && pg.contains(v)) by {
                        if cp0.contains(v) && pg.contains(v) {
                            let j = choose|j: int|
                                0 <= j < i as int && area_contained_in(
                                    #[trigger] areas0[j],
                                    gl,
                                    gr,
                                ) && areas0[j].contains_vpn(v);
                            assert(ranges_disjoint(areas0[j], areas0[i as int]));
                        }
                    }
                    assert(cp0.disjoint(pg));
                    lemma_set_disjoint_lens(cp0, pg);
                    assert(cp1.subset_of(set_int_range(gl, gr)));
                    lemma_len_subset(cp1, set_int_range(gl, gr));
                    assert(cp1.len() == sum + (e_i - s_i) <= gr - gl);
                }
                sum = sum + (e_i - s_i);
            } else {
                proof {
                    assert forall|v: int| cp1.contains(v) implies cp0.contains(v) by {
                        let j = choose|j: int|
                            0 <= j < i as int + 1 && area_contained_in(
                                #[trigger] areas0[j],
                                gl,
                                gr,
                            ) && areas0[j].contains_vpn(v);
                        assert(j != i as int);
                    }
                    assert forall|v: int| cp0.contains(v) implies cp1.contains(v) by {
                        let j = choose|j: int|
                            0 <= j < i as int && area_contained_in(#[trigger] areas0[j], gl, gr)
                                && areas0[j].contains_vpn(v);
                        assert(0 <= j < i as int + 1 && area_contained_in(areas0[j], gl, gr)
                            && areas0[j].contains_vpn(v));
                    }
                    assert(cp1 =~= cp0);
                }
            }
            i = i + 1;
        }
        let ghost cp = contained_pages(areas0, gl, gr);
        proof {
            assert(cp == contained_pages_upto(areas0, gl, gr, n as int));
            lemma_int_range(gl, gr);
        }
        if sum < rvpn.0 - lvpn.0 {
            proof {
                if set_int_range(gl, gr).subset_of(cp) {
                    assert(cp =~= set_int_range(gl, gr));
                }
            }
            return -1;
        }
        proof {
            lemma_len_subset(cp, set_int_range(gl, gr));
            assert(cp.len() == gr - gl);
            assert forall|v: int| gl <= v < gr implies cp.contains(v) by {
                if !cp.contains(v) {
                    cp.lemma_subset_not_in_lt(set_int_range(gl, gr), v);
                }
            }
            assert(set_int_range(gl, gr).subset_of(cp));
        }
        let ghost pt0 = self.page_table;
        let mut kept: Vec<MapArea> = Vec::new();
        let ghost mut k: int = 0;
        proof {
            assert(areas0.subrange(0, 0).filter(munmap_keep(gl, gr)) =~= Seq::<MapArea>::empty());
            assert(contained_pages_upto(areas0, gl, gr, 0) =~= Set::<int>::empty());
            assert(self.areas@ =~= areas0.subrange(0, areas0.len() as int));
        }
        while self.areas.len() > 0
            invariant
                0 <= k <= areas0.len(),
                gl <= gr,
                lvpn.0 == gl,
                rvpn.0 == gr,
                gl == vpn_floor(start as int),
                gr == vpn_ceil(end as int),
                self.areas@ == areas0.subrange(k, areas0.len() as int),
                kept@ == areas0.subrange(0, k).filter(munmap_keep(gl, gr)),
                self.page_table.wf(),
                self.page_table.spec_root_ppn() == pt0.spec_root_ppn(),
                forall|i2: int, j2: int| 0 <= i2 < j2 < areas0.len() ==> ranges_disjoint(
                    #[trigger] areas0[i2],
                    #[trigger] areas0[j2],
                ),
                forall|w: int| #[trigger] self.page_table.spec_contains(w) <==> (
                pt0.spec_contains(w) && !contained_pages_upto(areas0, gl, gr, k).contains(w)),
                forall|w: int| #[trigger] self.page_table.spec_contains(w)
                    ==> self.page_table.spec_at(w) == pt0.spec_at(w),
                forall|idx: int| 0 <= idx < self.areas@.len() ==> {
                    &&& (#[trigger] self.areas@[idx]).wf()
                    &&& self.areas@[idx].mapped_in(&self.page_table)
                    &&& self.areas@[idx].spec_end() <= trampoline_vpn()
                },
                forall|idx: int| 0 <= idx < kept@.len() ==> {
                    &&& (#[trigger] kept@[idx]).wf()
                    &&& kept@[idx].mapped_in(&self.page_table)
                    &&& kept@[idx].spec_end() <= trampoline_vpn()
                },
                forall|i2: int, j2: int| 0 <= i2 < j2 < kept@.len() ==> ranges_disjoint(
                    #[trigger] kept@[i2],
                    #[trigger] kept@[j2],
                ),
                forall|i2: int, j2: int| 0 <= i2 < kept@.len() && 0 <= j2 < self.areas@.len()
                    ==> ranges_disjoint(#[trigger] kept@[i2], #[trigger] self.areas@[j2]),
                forall|w: int| #[trigger] self.page_table.spec_contains(w) ==> w
                    == trampoline_vpn() || (exists|i2: int|
                    0 <= i2 < kept@.len() && (#[trigger] kept@[i2]).contains_vpn(w)) || (
                exists|i2: int|
                    0 <= i2 < self.areas@.len() && (#[trigger] self.areas@[i2]).contains_vpn(w)),
            decreases self.areas@.len(),
        {
            let ghost areas_pre = self.areas@;
            let ghost pt_pre = self.page_table;
            let ghost kept_pre = kept@;
            let mut a = self.areas.remove(0);
            proof {
                assert(a == areas0[k]);
                assert(self.areas@ =~= areas0.subrange(k + 1, areas0.len() as int));
                assert(areas0.subrange(0, k + 1) =~= areas0.subrange(0, k).push(a));
                assert forall|idx: int| 0 <= idx < self.areas@.len() implies self.areas@[idx]
                    == areas_pre[idx + 1] by {}
            }
            let s_a = a.vpn_range.l.0;
            let e_a = a.vpn_range.r.0;
            proof {
                assert(s_a == a.spec_start() && e_a == a.spec_end());
                assert(a.wf());
            }
            let ghost cpk0 = contained_pages_upto(areas0, gl, gr, k);
            let ghost cpk1 = contained_pages_upto(areas0, gl, gr, k + 1);
            if lvpn.0 <= s_a && e_a <= rvpn.0 {
                proof {
                    assert(a.mapped_in(&self.page_table));
                    assert forall|v: int| a.contains_vpn(v) implies
                        self.page_table.spec_contains(v) by {}
                }
                a.unmap(&mut self.page_table);
                proof {
                    k = k + 1;
                    areas0.subrange(0, k - 1).lemma_filter_push(areas0[k - 1], munmap_keep(gl, gr));
                    lemma_munmap_keep(gl, gr, areas0[k - 1]);
                    assert(area_contained_in(areas0[k - 1], gl, gr));
                    assert(!(munmap_keep(gl, gr)(areas0[k - 1])));
                    assert(areas0.subrange(0, k) =~= areas0.subrange(0, k - 1).push(
                        areas0[k - 1],
                    ));
                    assert(kept@ == areas0.subrange(0, k).filter(munmap_keep(gl, gr)));
                    // pages of regions contained so far now include this region's pages
                    assert forall|v: int| cpk1.contains(v) implies cpk0.contains(v)
                        || a.contains_vpn(v) by {
                        let j = choose|j: int|
                            0 <= j < k && area_contained_in(#[trigger] areas0[j], gl, gr)
                                && areas0[j].contains_vpn(v);
                        if j < k - 1 {
                            assert(cpk0.contains(v));
                        }
                    }
                    assert forall|v: int| cpk0.contains(v) || a.contains_vpn(v) implies
                        cpk1.contains(v) by {
                        if cpk0.contains(v) {
                            let j = choose|j: int|
                                0 <= j < k - 1 && area_contained_in(#[trigger] areas0[j], gl, gr)
                                    && areas0[j].contains_vpn(v);
                            assert(0 <= j < k && area_contained_in(areas0[j], gl, gr)
                                && areas0[j].contains_vpn(v));
                        } else {
                            assert(area_contained_in(areas0[k - 1], gl, gr) && areas0[k
                                - 1].contains_vpn(v));
                        }
                    }
                    assert forall|w: int| #[trigger] self.page_table.spec_contains(w) <==> (
                    pt0.spec_contains(w) && !cpk1.contains(w)) by {
                        assert(self.page_table.spec_contains(w) <==> (pt_pre.spec_contains(w)
                            && !a.contains_vpn(w)));
                    }
                    // other regions keep their pages: each is disjoint from this one
                    assert forall|idx: int| 0 <= idx < self.areas@.len() implies {
                        &&& (#[trigger] self.areas@[idx]).wf()
                        &&& self.areas@[idx].mapped_in(&self.page_table)
                        &&& self.areas@[idx].spec_end() <= trampoline_vpn()
                    } by {
                        let b = self.areas@[idx];
                        assert(b == areas_pre[idx + 1]);
                        assert(b == areas0[k + idx]);
                        assert(ranges_disjoint(areas0[k - 1], areas0[k + idx]));
                        assert(b.mapped_in(&pt_pre));
                        assert forall|v: int| b.contains_vpn(v) implies
                            #[trigger] self.page_table.spec_contains(v) by {
                            assert(pt_pre.spec_contains(v));
                            assert(!a.contains_vpn(v));
                        }
                        assert forall|v: int| b.contains_vpn(v) implies
                            #[trigger] self.page_table.spec_at(v) == pt_pre.spec_at(v) by {
                            assert(pt_pre.spec_contains(v));
                            assert(!a.contains_vpn(v));
                        }
                        lemma_mapped_in_preserved(&b, &pt_pre, &self.page_table);
                    }
                    assert forall|idx: int| 0 <= idx < kept@.len() implies {
                        &&& (#[trigger] kept@[idx]).wf()
                        &&& kept@[idx].mapped_in(&self.page_table)
                        &&& kept@[idx].spec_end() <= trampoline_vpn()
                    } by {
                        let b = kept@[idx];
                        assert(b == kept_pre[idx]);
                        assert(ranges_disjoint(kept_pre[idx], areas_pre[0]));
                        assert(b.mapped_in(&pt_pre));
                        assert forall|v: int| b.contains_vpn(v) implies
                            #[trigger] self.page_table.spec_contains(v) by {
                            assert(pt_pre.spec_contains(v));
                            assert(!a.contains_vpn(v));
                        }
                        assert forall|v: int| b.contains_vpn(v) implies
                            #[trigger] self.page_table.spec_at(v) == pt_pre.spec_at(v) by {
                            assert(pt_pre.spec_contains(v));
                            assert(!a.contains_vpn(v));
                        }
                        lemma_mapped_in_preserved(&b, &pt_pre, &self.page_table);
                    }
                    // completeness
                    assert forall|w: int| #[trigger] self.page_table.spec_contains(w) implies w
                        == trampoline_vpn() || (exists|i2: int|
                        0 <= i2 < kept@.len() && (#[trigger] kept@[i2]).contains_vpn(w)) || (
                    exists|i2: int|
                        0 <= i2 < self.areas@.len() && (#[trigger] self.areas@[i2]).contains_vpn(
                            w,
                        )) by {
                        assert(pt_pre.spec_contains(w));
                        if w != trampoline_vpn() && !(exists|i2: int|
                            0 <= i2 < kept_pre.len() && (#[trigger] kept_pre[i2]).contains_vpn(
                                w,
                            ))
                        {
                            let i2 = choose|i2: int|
                                0 <= i2 < areas_pre.len() && (
                                #[trigger] areas_pre[i2]).contains_vpn(w);
                            if i2 == 0 {
                                assert(a.contains_vpn(w));
                                assert(!self.page_table.spec_contains(w));
                            } else {
                                assert((self.areas@[i2 - 1]).contains_vpn(w));
                            }
                        } else {
                            if w != trampoline_vpn() {
                                let i2 = choose|i2: int|
                                    0 <= i2 < kept_pre.len() && (
                                    #[trigger] kept_pre[i2]).contains_vpn(w);
                                assert((kept@[i2]).contains_vpn(w));
                            }
                        }
                    }
                }
            } else if s_a < e_a {
                kept.push(a);
                proof {
                    k = k + 1;
                    areas0.subrange(0, k - 1).lemma_filter_push(a, munmap_keep(gl, gr));
                    lemma_munmap_keep(gl, gr, a);
                    assert(!area_contained_in(a, gl, gr));
                    assert(munmap_keep(gl, gr)(a));
                    assert(kept@ == areas0.subrange(0, k).filter(munmap_keep(gl, gr)));
                    assert forall|v: int| cpk1.contains(v) implies cpk0.contains(v) by {
                        let j = choose|j: int|
                            0 <= j < k && area_contained_in(#[trigger] areas0[j], gl, gr)
                                && areas0[j].contains_vpn(v);
                        assert(j != k - 1);
                    }
                    assert forall|v: int| cpk0.contains(v) implies cpk1.contains(v) by {
                        let j = choose|j: int|
                            0 <= j < k - 1 && area_contained_in(#[trigger] areas0[j], gl, gr)
                                && areas0[j].contains_vpn(v);
                        assert(0 <= j < k && area_contained_in(areas0[j], gl, gr)
                            && areas0[j].contains_vpn(v));
                    }
                    assert(cpk1 =~= cpk0);
                    assert forall|i2: int, j2: int| 0 <= i2 < j2 < kept@.len() implies
                        ranges_disjoint(#[trigger] kept@[i2], #[trigger] kept@[j2]) by {
                        if j2 < kept_pre.len() {
                        } else {
                            assert(kept@[j2] == a);
                            assert(ranges_disjoint(kept_pre[i2], areas_pre[0]));
                        }
                    }
                    assert forall|i2: int, j2: int| 0 <= i2 < kept@.len() && 0 <= j2
                        < self.areas@.len() implies ranges_disjoint(
                        #[trigger] kept@[i2],
                        #[trigger] self.areas@[j2],
                    ) by {
                        if i2 < kept_pre.len() {
                            assert(kept@[i2] == kept_pre[i2]);
                            assert(self.areas@[j2] == areas_pre[j2 + 1]);
                        } else {
                            assert(kept@[i2] == a);
                            assert(a == areas0[k - 1]);
                            assert(self.areas@[j2] == areas0[k + j2]);
                            assert(ranges_disjoint(areas0[k - 1], areas0[k + j2]));
                        }
                    }
                    assert forall|w: int| #[trigger] self.page_table.spec_contains(w) implies w
                        == trampoline_vpn() || (exists|i2: int|
                        0 <= i2 < kept@.len() && (#[trigger] kept@[i2]).contains_vpn(w)) || (
                    exists|i2: int|
                        0 <= i2 < self.areas@.len() && (#[trigger] self.areas@[i2]).contains_vpn(
                            w,
                        )) by {
                        if w != trampoline_vpn() && !(exists|i2: int|
                            0 <= i2 < kept_pre.len() && (#[trigger] kept_pre[i2]).contains_vpn(
                                w,
                            ))
                        {
                            let i2 = choose|i2: int|
                                0 <= i2 < areas_pre.len() && (
                                #[trigger] areas_pre[i2]).contains_vpn(w);
                            if i2 == 0 {
                                assert((kept@[kept@.len() - 1]).contains_vpn(w));
                            } else {
                                assert((self.areas@[i2 - 1]).contains_vpn(w));
                            }
                        } else {
                            if w != trampoline_vpn() {
                                let i2 = choose|i2: int|
                                    0 <= i2 < kept_pre.len() && (
                                    #[trigger] kept_pre[i2]).contains_vpn(w);
                                assert((kept@[i2]).contains_vpn(w));
                            }
                        }
                    }
                }
            } else {
                proof {
                    k = k + 1;
                    areas0.subrange(0, k - 1).lemma_filter_push(a, munmap_keep(gl, gr));
                    lemma_munmap_keep(gl, gr, a);
                    assert(!(munmap_keep(gl, gr)(a)));
                    assert(kept@ == areas0.subrange(0, k).filter(munmap_keep(gl, gr)));
                    assert forall|v: int| cpk1.contains(v) implies cpk0.contains(v) by {
                        let j = choose|j: int|
                            0 <= j < k && area_contained_in(#[trigger] areas0[j], gl, gr)
                                && areas0[j].contains_vpn(v);
                        if j == k - 1 {
                            assert(a.contains_vpn(v));
                            assert(false);
                        }
                    }
                    assert forall|v: int| cpk0.contains(v) implies cpk1.contains(v) by {
                        let j = choose|j: int|
                            0 <= j < k - 1 && area_contained_in(#[trigger] areas0[j], gl, gr)
                                && areas0[j].contains_vpn(v);
                        assert(0 <= j < k && area_contained_in(areas0[j], gl, gr)
                            && areas0[j].contains_vpn(v));
                    }
                    assert(cpk1 =~= cpk0);
                    assert forall|w: int| #[trigger] self.page_table.spec_contains(w) implies w
                        == trampoline_vpn() || (exists|i2: int|
                        0 <= i2 < kept@.len() && (#[trigger] kept@[i2]).contains_vpn(w)) || (
                    exists|i2: int|
                        0 <= i2 < self.areas@.len() && (#[trigger] self.areas@[i2]).contains_vpn(
                            w,
                        )) by {
                        if w != trampoline_vpn() && !(exists|i2: int|
                            0 <= i2 < kept_pre.len() && (#[trigger] kept_pre[i2]).contains_vpn(
                                w,
                            ))
                        {
                            let i2 = choose|i2: int|
                                0 <= i2 < areas_pre.len() && (
                                #[trigger] areas_pre[i2]).contains_vpn(w);
                            if i2 == 0 {
                                assert(a.contains_vpn(w));
                                assert(false);
                            } else {
                                assert((self.areas@[i2 - 1]).contains_vpn(w));
                            }
                        } else {
                            if w != trampoline_vpn() {
                                let i2 = choose|i2: int|
                                    0 <= i2 < kept_pre.len() && (
                                    #[trigger] kept_pre[i2]).contains_vpn(w);
                                assert((kept@[i2]).contains_vpn(w));
                            }
                        }
                    }
                }
            }
        }
        proof {
            assert(k == areas0.len());
            assert(areas0.subrange(0, areas0.len() as int) =~= areas0);
        }
        self.areas = kept;
        proof {
            // the invariant holds of the final state
            assert forall|i2: int| 0 <= i2 < self.areas@.len() implies {
                &&& (#[trigger] self.areas@[i2]).wf()
                &&& self.areas@[i2].mapped_in(&self.page_table)
                &&& self.areas@[i2].spec_end() <= trampoline_vpn()
            } by {}
            assert forall|w: int| #[trigger] self.page_table.spec_contains(w) implies w
                == trampoline_vpn() || self.in_some_area(w) by {
                if w != trampoline_vpn() {
                    let i2 = choose|i2: int|
                        0 <= i2 < self.areas@.len() && (#[trigger] self.areas@[i2]).contains_vpn(
                            w,
                        );
                    assert((self.spec_areas()[i2]).contains_vpn(w));
                }
            }
            // every page of the range is gone, pages outside are untouched
            assert forall|v: int| gl <= v < gr implies !(#[trigger] self.spec_mapped(v)) by {
                assert(cp.contains(v));
                assert(contained_pages_upto(areas0, gl, gr, areas0.len() as int).contains(v));
            }
            assert forall|v: int| !(gl <= v < gr) implies #[trigger] self.spec_mapped(v) == old(
                self,
            ).spec_mapped(v) by {
                if contained_pages_upto(areas0, gl, gr, areas0.len() as int).contains(v) {
                    let j = choose|j: int|
                        0 <= j < areas0.len() && area_contained_in(#[trigger] areas0[j], gl, gr)
                            && areas0[j].contains_vpn(v);
                    assert(gl <= v < gr);
                }
            }
            assert forall|v: int| !(gl <= v < gr) && old(self).spec_mapped(v) implies
                self.spec_entry(v) == old(self).spec_entry(v) by {
                assert(self.spec_mapped(v) == old(self).spec_mapped(v));
                assert(self.page_table.spec_contains(v));
            }
        }
        0
    }
}


/// A region whose frames keep their page numbers and domain still agrees
/// with the page table, whatever happened to the bytes inside the frames.
proof fn lemma_mapped_in_frames_preserved(a1: &MapArea, a2: &MapArea, pt: &PageTable)
    requires
        a1.mapped_in(pt),
        a2.same_shape(a1),
        forall|w: int| a2.spec_has_frame(w) == a1.spec_has_frame(w),
        forall|w: int| a1.spec_has_frame(w) ==> a2.spec_frame(w).ppn == a1.spec_frame(w).ppn,
    ensures
        a2.mapped_in(pt),
{
    assert(a2.spec_map_perm() == a1.spec_map_perm());
    assert(a2.spec_map_type() == a1.spec_map_type());
    assert forall|v: int| a2.contains_vpn(v) implies #[trigger] pt.spec_contains(v) by {
        assert(a1.contains_vpn(v));
    }
    assert forall|v: int| a2.contains_vpn(v) implies #[trigger] pt.spec_at(v).flags
        == pte_flags_of(a2.spec_map_perm()) by {
        assert(a1.contains_vpn(v));
        assert(pt.spec_contains(v));
        assert(pt.spec_at(v).flags == pte_flags_of(a1.spec_map_perm()));
    }
    if a2.spec_map_type() == MapType::Framed {
        assert forall|v: int| a2.contains_vpn(v) implies #[trigger] a2.spec_has_frame(v)
            && pt.spec_at(v).ppn == a2.spec_frame(v).ppn by {
            assert(a1.contains_vpn(v));
            assert(pt.spec_contains(v));
            assert(a1.spec_has_frame(v) && pt.spec_at(v).ppn == a1.spec_frame(v).ppn);
        }
    }
    if a2.spec_map_type() == MapType::Identical {
        assert forall|v: int| a2.contains_vpn(v) implies #[trigger] pt.spec_at(v).ppn.0 == v by {
            assert(a1.contains_vpn(v));
            assert(pt.spec_contains(v));
            assert(a1.spec_map_type() == MapType::Identical);
        }
    }
    lemma_region_mapped_in(a2, pt);
}

impl MemorySet {
    /// Drop every region, releasing all owned frames, but keep the page
    /// table object itself.  The table still holds its entries afterwards;
    /// it is about to be discarded wholesale with the process.
    pub fn recycle_data_pages(&mut self)
        ensures
            final(self).spec_areas().len() == 0,
            final(self).spec_token() == old(self).spec_token(),
            forall|v: int| #[trigger] final(self).spec_mapped(v) == old(self).spec_mapped(v),
            forall|v: int| old(self).spec_mapped(v) ==> final(self).spec_entry(v) == old(
                self,
            ).spec_entry(v),
    {
        self.areas.clear();
    }

    /// Unmap and drop the region whose range starts exactly at `start_vpn`,
    /// if any; otherwise do nothing.
    pub fn remove_area_with_start_vpn(&mut self, start_vpn: VirtPageNum)
        requires
            old(self).inv(),
        ensures
            final(self).inv(),
            final(self).spec_token() == old(self).spec_token(),
            (forall|i: int| 0 <= i < old(self).spec_areas().len() ==> (#[trigger] old(
                self,
            ).spec_areas()[i]).spec_start() != start_vpn.0 as int) ==> *final(self) == *old(self),
            (exists|i: int| 0 <= i < old(self).spec_areas().len() && (#[trigger] old(
                self,
            ).spec_areas()[i]).spec_start() == start_vpn.0 as int) ==> (exists|i: int| {
                &&& 0 <= i < old(self).spec_areas().len()
                &&& (#[trigger] old(self).spec_areas()[i]).spec_start() == start_vpn.0 as int
                &&& final(self).spec_areas() == old(self).spec_areas().remove(i)
                &&& (forall|v: int| old(self).spec_areas()[i].contains_vpn(v) ==> !(
                #[trigger] final(self).spec_mapped(v)))
                &&& (forall|v: int| !old(self).spec_areas()[i].contains_vpn(v)
                    ==> #[trigger] final(self).spec_mapped(v) == old(self).spec_mapped(v))
                &&& (forall|v: int| !old(self).spec_areas()[i].contains_vpn(v) && old(
                    self,
                ).spec_mapped(v) ==> final(self).spec_entry(v) == old(self).spec_entry(v))
            }),
    {
        let n = self.areas.len();
        let mut idx: usize = 0;
        let mut found: bool = false;
        while idx < n && !found
            invariant
                *self == *old(self),
                self.inv(),
                idx <= n,
                n == self.areas@.len(),
                found ==> idx < n && self.areas@[idx as int].spec_start() == start_vpn.0 as int,
                !found ==> forall|j: int| 0 <= j < idx ==> (
                #[trigger] self.areas@[j]).spec_start() != start_vpn.0 as int,
            decreases n - idx + (if found { 0int } else { 1int }),
        {
            if self.areas[idx].vpn_range.l.0 == start_vpn.0 {
                found = true;
            } else {
                idx = idx + 1;
            }
        }
        if !found {
            proof {
                assert forall|i: int| 0 <= i < old(self).spec_areas().len() implies (
                #[trigger] old(self).spec_areas()[i]).spec_start() != start_vpn.0 as int by {}
            }
            return;
        }
        let ghost areas0 = self.areas@;
        let ghost gidx = idx as int;
        let ghost pt_pre = self.page_table;
        let mut a = self.areas.remove(idx);
        proof {
            assert(a == areas0[gidx]);
            assert(a.mapped_in(&self.page_table));
            assert forall|v: int| a.contains_vpn(v) implies self.page_table.spec_contains(v) by {}
        }
        a.unmap(&mut self.page_table);
        proof {
            let areas1 = self.areas@;
            assert(areas1 == areas0.remove(gidx));
            // each remaining region keeps its mapping: it is disjoint from the
            // removed one
            assert forall|i2: int| 0 <= i2 < areas1.len() implies {
                &&& (#[trigger] areas1[i2]).wf()
                &&& areas1[i2].mapped_in(&self.page_table)
                &&& areas1[i2].spec_end() <= trampoline_vpn()
            } by {
                let i0: int = if i2 < gidx {
                    i2
                } else {
                    i2 + 1
                };
                assert(areas1[i2] == areas0[i0]);
                let b = areas0[i0];
                assert(ranges_disjoint_sym(areas0, gidx, i0));
                assert(b.mapped_in(&pt_pre));
                assert forall|v: int| b.contains_vpn(v) implies
                    #[trigger] self.page_table.spec_contains(v) by {
                    assert(pt_pre.spec_contains(v));
                    assert(!areas0[gidx].contains_vpn(v));
                }
                assert forall|v: int| b.contains_vpn(v) implies
                    #[trigger] self.page_table.spec_at(v) == pt_pre.spec_at(v) by {
                    assert(pt_pre.spec_contains(v));
                    assert(!areas0[gidx].contains_vpn(v));
                }
                lemma_mapped_in_preserved(&b, &pt_pre, &self.page_table);
            }
            assert forall|i2: int, j2: int| 0 <= i2 < j2 < areas1.len() implies ranges_disjoint(
                #[trigger] areas1[i2],
                #[trigger] areas1[j2],
            ) by {
                let i0: int = if i2 < gidx {
                    i2
                } else {
                    i2 + 1
                };
                let j0: int = if j2 < gidx {
                    j2
                } else {
                    j2 + 1
                };
                assert(areas1[i2] == areas0[i0] && areas1[j2] == areas0[j0]);
            }
            assert forall|w: int| #[trigger] self.page_table.spec_contains(w) implies w
                == trampoline_vpn() || self.in_some_area(w) by {
                if w != trampoline_vpn() {
                    assert(pt_pre.spec_contains(w));
                    assert(old(self).in_some_area(w));
                    let j = choose|j: int|
                        0 <= j < areas0.len() && (#[trigger] areas0[j]).contains_vpn(w);
                    if j == gidx {
                        assert(!self.page_table.spec_contains(w));
                    } else {
                        let j1: int = if j < gidx {
                            j
                        } else {
                            j - 1
                        };
                        assert((self.spec_areas()[j1]).contains_vpn(w));
                    }
                }
            }
            // the witness for the postcondition
            assert(old(self).spec_areas()[gidx].spec_start() == start_vpn.0 as int);
            assert(self.spec_areas() == old(self).spec_areas().remove(gidx));
            assert forall|v: int| old(self).spec_areas()[gidx].contains_vpn(v) implies !(
            #[trigger] self.spec_mapped(v)) by {}
            assert forall|v: int| !old(self).spec_areas()[gidx].contains_vpn(v) implies
                #[trigger] self.spec_mapped(v) == old(self).spec_mapped(v) by {}
            assert forall|v: int| !old(self).spec_areas()[gidx].contains_vpn(v) && old(
                self,
            ).spec_mapped(v) implies self.spec_entry(v) == old(self).spec_entry(v) by {
                assert(self.page_table.spec_contains(v));
            }
        }
    }

    /// Byte `offset` of the frame backing page `vpn`, when a framed region
    /// holds that page.
    pub fn read_byte(&self, vpn: VirtPageNum, offset: usize) -> (r: Option<u8>)
        requires
            self.inv(),
            offset < PAGE_SIZE,
        ensures
            (match r {
                Some(b) => exists|i: int|
                    0 <= i < self.spec_areas().len() && (
                    #[trigger] self.spec_areas()[i]).contains_vpn(vpn.0 as int)
                        && self.spec_areas()[i].spec_map_type() == MapType::Framed && b
                        == self.spec_areas()[i].spec_frame_bytes(vpn.0 as int)[offset as int],
                None => forall|i: int| 0 <= i < self.spec_areas().len() ==> !((
                #[trigger] self.spec_areas()[i]).contains_vpn(vpn.0 as int)
                    && self.spec_areas()[i].spec_map_type() == MapType::Framed),
            }),
    {
        let n = self.areas.len();
        let mut i: usize = 0;
        while i < n
            invariant
                self.inv(),
                i <= n,
                n == self.areas@.len(),
                offset < PAGE_SIZE,
                forall|j: int| 0 <= j < i ==> !((#[trigger] self.areas@[j]).contains_vpn(
                    vpn.0 as int,
                ) && self.areas@[j].spec_map_type() == MapType::Framed),
            decreases n - i,
        {
            let a = &self.areas[i];
            if a.vpn_range.l.0 <= vpn.0 && vpn.0 < a.vpn_range.r.0 {
                match a.map_type {
                    MapType::Framed => {
                        proof {
                            assert(self.areas@[i as int].mapped_in(&self.page_table));
                            assert(self.page_table.spec_contains(vpn.0 as int));
                            assert(self.areas@[i as int].spec_has_frame(vpn.0 as int));
                        }
                        return Some(a.read_frame_byte(vpn, offset));
                    },
                    MapType::Identical => {
                    },
                }
            }
            i = i + 1;
        }
        None
    }

    /// Overwrite byte `offset` of the frame backing page `vpn`, when a
    /// framed region holds that page.  Returns whether a write happened.
    pub fn write_byte(&mut self, vpn: VirtPageNum, offset: usize, b: u8) -> (r: bool)
        requires
            old(self).inv(),
            offset < PAGE_SIZE,
        ensures
            final(self).inv(),
            final(self).spec_token() == old(self).spec_token(),
            forall|v: int| #[trigger] final(self).spec_mapped(v) == old(self).spec_mapped(v),
            forall|v: int| old(self).spec_mapped(v) ==> final(self).spec_entry(v) == old(
                self,
            ).spec_entry(v),
            !r ==> *final(self) == *old(self),
            r ==> exists|i: int| {
                &&& 0 <= i < old(self).spec_areas().len()
                &&& (#[trigger] old(self).spec_areas()[i]).contains_vpn(vpn.0 as int)
                &&& old(self).spec_areas()[i].spec_map_type() == MapType::Framed
                &&& final(self).spec_areas() == old(self).spec_areas().update(
                    i,
                    final(self).spec_areas()[i],
                )
                &&& final(self).spec_areas()[i].same_shape(&old(self).spec_areas()[i])
                &&& final(self).spec_areas()[i].spec_frame_bytes(vpn.0 as int) == old(
                    self,
                ).spec_areas()[i].spec_frame_bytes(vpn.0 as int).update(offset as int, b)
                &&& (forall|w: int| w != vpn.0 as int && old(self).spec_areas()[i].spec_has_frame(
                    w,
                ) ==> final(self).spec_areas()[i].spec_frame_bytes(w) == old(
                    self,
                ).spec_areas()[i].spec_frame_bytes(w))
            },
    {
        let n = self.areas.len();
        let mut i: usize = 0;
        while i < n
            invariant
                *self == *old(self),
                self.inv(),
                i <= n,
                n == self.areas@.len(),
                offset < PAGE_SIZE,
            decreases n - i,
        {
            let hit = {
                let a = &self.areas[i];
                a.vpn_range.l.0 <= vpn.0 && vpn.0 < a.vpn_range.r.0 && matches!(
                    a.map_type,
                    MapType::Framed,
                )
            };
            if hit {
                let ghost areas0 = self.areas@;
                let ghost pt0 = self.page_table;
                let ghost gi = i as int;
                proof {
                    assert(areas0[gi].mapped_in(&self.page_table));
                    assert(self.page_table.spec_contains(vpn.0 as int));
                    assert(areas0[gi].spec_has_frame(vpn.0 as int));
                }
                let aref = &mut self.areas[i];
                aref.write_frame_byte(vpn, offset, b);
                proof {
                    let areas1 = self.areas@;
                    assert(areas1 == areas0.update(gi, areas1[gi]));
                    assert forall|i2: int| 0 <= i2 < areas1.len() implies {
                        &&& (#[trigger] areas1[i2]).wf()
                        &&& areas1[i2].mapped_in(&self.page_table)
                        &&& areas1[i2].spec_end() <= trampoline_vpn()
                    } by {
                        if i2 != gi {
                            assert(areas1[i2] == areas0[i2]);
                            assert(areas0[i2].mapped_in(&pt0));
                        } else {
                            assert(areas0[gi].mapped_in(&pt0));
                            lemma_mapped_in_frames_preserved(
                                &areas0[gi],
                                &areas1[gi],
                                &self.page_table,
                            );
                        }
                    }
                    assert forall|i2: int, j2: int| 0 <= i2 < j2 < areas1.len() implies
                        ranges_disjoint(#[trigger] areas1[i2], #[trigger] areas1[j2]) by {
                        assert(ranges_disjoint(areas0[i2], areas0[j2]));
                    }
                    assert forall|w: int| #[trigger] self.page_table.spec_contains(w) implies w
                        == trampoline_vpn() || self.in_some_area(w) by {
                        if w != trampoline_vpn() {
                            assert(old(self).in_some_area(w));
                            let j = choose|j: int|
                                0 <= j < areas0.len() && (#[trigger] areas0[j]).contains_vpn(w);
                            assert((self.spec_areas()[j]).contains_vpn(w));
                        }
                    }
                }
                return true;
            }
            i = i + 1;
        }
        false
    }
}

/// Disjointness of two regions of a list, whichever order the indices come
/// in.
pub open spec fn ranges_disjoint_sym(areas: Seq<MapArea>, i: int, j: int) -> bool {
    i != j ==> ranges_disjoint(areas[i], areas[j])
}


/// Link-time layout of the kernel image: byte bounds of its sections, the
/// ceiling of usable physical memory, and the physical address of the
/// trampoline code page.  The bootstrap environment supplies these values.
#[derive(Clone, Copy, PartialEq, Eq, Structural, Debug)]
pub struct KernelLayout {
    pub stext: usize,
    pub etext: usize,
    pub srodata: usize,
    pub erodata: usize,
    pub sdata: usize,
    pub edata: usize,
    pub sbss_with_stack: usize,
    pub ebss: usize,
    pub ekernel: usize,
    pub strampoline: usize,
}

impl KernelLayout {
    /// The sections are non-empty, in order, on distinct pages, and below
    /// the physical-memory ceiling.
    pub open spec fn wf(&self) -> bool {
        &&& 0 < self.stext < self.etext < MEMORY_END
        &&& vpn_ceil(self.etext as int) <= vpn_floor(self.srodata as int)
        &&& self.srodata < self.erodata < MEMORY_END
        &&& vpn_ceil(self.erodata as int) <= vpn_floor(self.sdata as int)
        &&& self.sdata < self.edata < MEMORY_END
        &&& vpn_ceil(self.edata as int) <= vpn_floor(self.sbss_with_stack as int)
        &&& self.sbss_with_stack < self.ebss < MEMORY_END
        &&& vpn_ceil(self.ebss as int) <= vpn_floor(self.ekernel as int)
        &&& self.ekernel < MEMORY_END
    }
}

/// Every page of `[lo, hi)` is identity-mapped with flags `f`.
pub open spec fn section_mapped(ms: &MemorySet, lo: int, hi: int, f: PTEFlags) -> bool {
    forall|v: int| lo <= v < hi ==> #[trigger] ms.spec_mapped(v) && ms.spec_entry(v).flags == f
        && ms.spec_entry(v).ppn.0 == v
}

/// Folding the pages-of-a-section fact into its named form.
proof fn lemma_fold_section(ms: &MemorySet, lo: int, hi: int, f: PTEFlags)
    requires
        forall|v: int| lo <= v < hi ==> #[trigger] ms.spec_mapped(v) && ms.spec_entry(v).flags
            == f && ms.spec_entry(v).ppn.0 == v,
    ensures
        section_mapped(ms, lo, hi, f),
{
}

/// The translations a kernel space owes to its layout: every section is
/// identity-mapped with its section permission, text read-execute, read-only
/// data read-only, data and zero-initialized storage read-write, and the
/// remaining physical memory read-write.
pub open spec fn kernel_mappings(ms: &MemorySet, layout: &KernelLayout) -> bool {
    &&& section_mapped(
        ms,
        vpn_floor(layout.stext as int),
        vpn_ceil(layout.etext as int),
        PTEFlags { v: true, r: true, w: false, x: true, u: false },
    )
    &&& section_mapped(
        ms,
        vpn_floor(layout.srodata as int),
        vpn_ceil(layout.erodata as int),
        PTEFlags { v: true, r: true, w: false, x: false, u: false },
    )
    &&& section_mapped(
        ms,
        vpn_floor(layout.sdata as int),
        vpn_ceil(layout.edata as int),
        PTEFlags { v: true, r: true, w: true, x: false, u: false },
    )
    &&& section_mapped(
        ms,
        vpn_floor(layout.sbss_with_stack as int),
        vpn_ceil(layout.ebss as int),
        PTEFlags { v: true, r: true, w: true, x: false, u: false },
    )
    &&& section_mapped(
        ms,
        vpn_floor(layout.ekernel as int),
        vpn_ceil(MEMORY_END as int),
        PTEFlags { v: true, r: true, w: true, x: false, u: false },
    )
}

impl MemorySet {
    /// The kernel's own address space: the trampoline plus five
    /// identity-mapped regions covering the kernel image and the rest of
    /// physical memory.  Kernel stacks are not included.
    #[verifier::rlimit(100)]
    pub fn new_kernel(layout: &KernelLayout) -> (ms: MemorySet)
        requires
            layout.wf(),
        ensures
            ms.inv(),
            ms.trampoline_ok(),
            ms.spec_areas().len() == 5,
            kernel_mappings(&ms, layout),
    {
        proof {
            lemma_vpn_order(layout.stext as int, layout.etext as int);
            lemma_vpn_order(layout.srodata as int, layout.erodata as int);
            lemma_vpn_order(layout.sdata as int, layout.edata as int);
            lemma_vpn_order(layout.sbss_with_stack as int, layout.ebss as int);
            lemma_vpn_order(layout.ekernel as int, MEMORY_END as int);
            assert(vpn_ceil(MEMORY_END as int) <= trampoline_vpn());
        }
        let f_rx = PTEFlags { v: true, r: true, w: false, x: true, u: false };
        let f_ro = PTEFlags { v: true, r: true, w: false, x: false, u: false };
        let f_rw = PTEFlags { v: true, r: true, w: true, x: false, u: false };
        let ghost lo1 = vpn_floor(layout.stext as int);
        let ghost hi1 = vpn_ceil(layout.etext as int);
        let ghost lo2 = vpn_floor(layout.srodata as int);
        let ghost hi2 = vpn_ceil(layout.erodata as int);
        let ghost lo3 = vpn_floor(layout.sdata as int);
        let ghost hi3 = vpn_ceil(layout.edata as int);
        let ghost lo4 = vpn_floor(layout.sbss_with_stack as int);
        let ghost hi4 = vpn_ceil(layout.ebss as int);
        let ghost lo5 = vpn_floor(layout.ekernel as int);
        let ghost hi5 = vpn_ceil(MEMORY_END as int);
        let mut memory_set = Self::new_bare();
        memory_set.map_trampoline(PhysPageNum(layout.strampoline / PAGE_SIZE));
        let ghost ms0 = memory_set;
        let rx = MapPermission { r: true, w: false, x: true, u: false };
        let ro = MapPermission { r: true, w: false, x: false, u: false };
        let rw = MapPermission { r: true, w: true, x: false, u: false };
        let a1 = MapArea::new(VirtAddr(layout.stext), VirtAddr(layout.etext), MapType::Identical, rx);
        let ghost ga1 = a1;
        memory_set.push(a1, None);
        let ghost ms1 = memory_set;
        let a2 = MapArea::new(
            VirtAddr(layout.srodata),
            VirtAddr(layout.erodata),
            MapType::Identical,
            ro,
        );
        let ghost ga2 = a2;
        memory_set.push(a2, None);
        let ghost ms2 = memory_set;
        let a3 = MapArea::new(VirtAddr(layout.sdata), VirtAddr(layout.edata), MapType::Identical, rw);
        let ghost ga3 = a3;
        memory_set.push(a3, None);
        let ghost ms3 = memory_set;
        let a4 = MapArea::new(
            VirtAddr(layout.sbss_with_stack),
            VirtAddr(layout.ebss),
            MapType::Identical,
            rw,
        );
        let ghost ga4 = a4;
        memory_set.push(a4, None);
        let ghost ms4 = memory_set;
        let a5 = MapArea::new(VirtAddr(layout.ekernel), VirtAddr(MEMORY_END), MapType::Identical, rw);
        let ghost ga5 = a5;
        memory_set.push(a5, None);
        let ghost ms5 = memory_set;
        proof {
            let tv = trampoline_vpn();
            assert(!ga1.contains_vpn(tv) && !ga2.contains_vpn(tv) && !ga3.contains_vpn(tv)
                && !ga4.contains_vpn(tv) && !ga5.contains_vpn(tv));
            assert(ms1.spec_mapped(tv) == ms0.spec_mapped(tv) && ms1.spec_entry(tv)
                == ms0.spec_entry(tv));
            assert(ms2.spec_mapped(tv) == ms1.spec_mapped(tv) && ms2.spec_entry(tv)
                == ms1.spec_entry(tv));
            assert(ms3.spec_mapped(tv) == ms2.spec_mapped(tv) && ms3.spec_entry(tv)
                == ms2.spec_entry(tv));
            assert(ms4.spec_mapped(tv) == ms3.spec_mapped(tv) && ms4.spec_entry(tv)
                == ms3.spec_entry(tv));
            assert(ms5.spec_mapped(tv) == ms4.spec_mapped(tv) && ms5.spec_entry(tv)
                == ms4.spec_entry(tv));
            assert(memory_set.trampoline_ok());
            assert forall|v: int| lo1 <= v < hi1 implies #[trigger] memory_set.spec_mapped(v)
                && memory_set.spec_entry(v).flags == f_rx && memory_set.spec_entry(v).ppn.0
                == v by {
                assert(ga1.contains_vpn(v));
                assert(ms1.spec_mapped(v));
                assert(ms1.spec_entry(v).flags == pte_flags_of(rx));
                assert(ms1.spec_entry(v).ppn.0 == v);
                assert(!ga2.contains_vpn(v) && !ga3.contains_vpn(v) && !ga4.contains_vpn(v)
                    && !ga5.contains_vpn(v));
                assert(ms2.spec_mapped(v) == ms1.spec_mapped(v));
                assert(ms2.spec_entry(v) == ms1.spec_entry(v));
                assert(ms3.spec_mapped(v) == ms2.spec_mapped(v));
                assert(ms3.spec_entry(v) == ms2.spec_entry(v));
                assert(ms4.spec_mapped(v) == ms3.spec_mapped(v));
                assert(ms4.spec_entry(v) == ms3.spec_entry(v));
                assert(ms5.spec_mapped(v) == ms4.spec_mapped(v));
                assert(ms5.spec_entry(v) == ms4.spec_entry(v));
            }
            lemma_fold_section(&memory_set, lo1, hi1, f_rx);
            assert forall|v: int| lo2 <= v < hi2 implies #[trigger] memory_set.spec_mapped(v)
                && memory_set.spec_entry(v).flags == f_ro && memory_set.spec_entry(v).ppn.0
                == v by {
                assert(ga2.contains_vpn(v));
                assert(ms2.spec_mapped(v));
                assert(ms2.spec_entry(v).flags == pte_flags_of(ro));
                assert(ms2.spec_entry(v).ppn.0 == v);
                assert(!ga3.contains_vpn(v) && !ga4.contains_vpn(v) && !ga5.contains_vpn(v));
                assert(ms3.spec_mapped(v) == ms2.spec_mapped(v));
                assert(ms3.spec_entry(v) == ms2.spec_entry(v));
                assert(ms4.spec_mapped(v) == ms3.spec_mapped(v));
                assert(ms4.spec_entry(v) == ms3.spec_entry(v));
                assert(ms5.spec_mapped(v) == ms4.spec_mapped(v));
                assert(ms5.spec_entry(v) == ms4.spec_entry(v));
            }
            lemma_fold_section(&memory_set, lo2, hi2, f_ro);
            assert forall|v: int| lo3 <= v < hi3 implies #[trigger] memory_set.spec_mapped(v)
                && memory_set.spec_entry(v).flags == f_rw && memory_set.spec_entry(v).ppn.0
                == v by {
                assert(ga3.contains_vpn(v));
                assert(ms3.spec_mapped(v));
                assert(ms3.spec_entry(v).flags == pte_flags_of(rw));
                assert(ms3.spec_entry(v).ppn.0 == v);
                assert(!ga4.contains_vpn(v) && !ga5.contains_vpn(v));
                assert(ms4.spec_mapped(v) == ms3.spec_mapped(v));
                assert(ms4.spec_entry(v) == ms3.spec_entry(v));
                assert(ms5.spec_mapped(v) == ms4.spec_mapped(v));
                assert(ms5.spec_entry(v) == ms4.spec_entry(v));
            }
            lemma_fold_section(&memory_set, lo3, hi3, f_rw);
            assert forall|v: int| lo4 <= v < hi4 implies #[trigger] memory_set.spec_mapped(v)
                && memory_set.spec_entry(v).flags == f_rw && memory_set.spec_entry(v).ppn.0
                == v by {
                assert(ga4.contains_vpn(v));
                assert(ms4.spec_mapped(v));
                assert(ms4.spec_entry(v).flags == pte_flags_of(rw));
                assert(ms4.spec_entry(v).ppn.0 == v);
                assert(!ga5.contains_vpn(v));
                assert(ms5.spec_mapped(v) == ms4.spec_mapped(v));
                assert(ms5.spec_entry(v) == ms4.spec_entry(v));
            }
            lemma_fold_section(&memory_set, lo4, hi4, f_rw);
            assert forall|v: int| lo5 <= v < hi5 implies #[trigger] memory_set.spec_mapped(v)
                && memory_set.spec_entry(v).flags == f_rw && memory_set.spec_entry(v).ppn.0
                == v by {
                assert(ga5.contains_vpn(v));
                assert(ms5.spec_mapped(v));
                assert(ms5.spec_entry(v).flags == pte_flags_of(rw));
                assert(ms5.spec_entry(v).ppn.0 == v);
            }
            lemma_fold_section(&memory_set, lo5, hi5, f_rw);
        }
        memory_set
    }
}

/// The self-check of the kernel space: the middle of the text section must
/// not be writable, and the middles of the read-only-data and data sections
/// must not be writable and not be executable, respectively.  It holds of
/// every kernel space built from a well-formed layout.
pub fn remap_test(kernel_space: &MemorySet, layout: &KernelLayout) -> (r: bool)
    requires
        kernel_space.inv(),
        layout.wf(),
        kernel_mappings(kernel_space, layout),
    ensures
        r,
{
    let mid_text = layout.stext + (layout.etext - layout.stext) / 2;
    let mid_rodata = layout.srodata + (layout.erodata - layout.srodata) / 2;
    let mid_data = layout.sdata + (layout.edata - layout.sdata) / 2;
    proof {
        lemma_mid_in_range(layout.stext as int, layout.etext as int);
        lemma_mid_in_range(layout.srodata as int, layout.erodata as int);
        lemma_mid_in_range(layout.sdata as int, layout.edata as int);
    }
    proof {
        lemma_vpn_of_inner(layout.stext as int, layout.etext as int, mid_text as int);
        lemma_vpn_of_inner(layout.srodata as int, layout.erodata as int, mid_rodata as int);
        lemma_vpn_of_inner(layout.sdata as int, layout.edata as int, mid_data as int);
    }
    let ok_text = match kernel_space.translate(VirtAddr(mid_text).floor()) {
        Some(pte) => !pte.writable(),
        None => false,
    };
    let ok_rodata = match kernel_space.translate(VirtAddr(mid_rodata).floor()) {
        Some(pte) => !pte.writable(),
        None => false,
    };
    let ok_data = match kernel_space.translate(VirtAddr(mid_data).floor()) {
        Some(pte) => !pte.executable(),
        None => false,
    };
    ok_text && ok_rodata && ok_data
}

/// The midpoint of a non-empty interval lies inside it.
proof fn lemma_mid_in_range(s: int, e: int)
    requires
        0 <= s < e,
    ensures
        s <= s + (e - s) / 2 < e,
{
    assert(s <= s + (e - s) / 2 < e) by (nonlinear_arith)
        requires
            0 <= s < e,
    ;
}

/// The page of an address inside an interval lies in the interval's page
/// range.
proof fn lemma_vpn_of_inner(s: int, e: int, m: int)
    requires
        0 <= s <= m < e,
    ensures
        vpn_floor(s) <= vpn_floor(m) < vpn_ceil(e),
{
    crate::address::lemma_vpn_order(s, m);
    crate::address::lemma_vpn_order(m, e - 1);
    crate::address::lemma_ceil_shift(e);
}

/// Validate and apply a dynamic map request from a running process: a zero
/// length succeeds trivially; the start must be page-aligned and the
/// protection word must have no bits above the low three and at least one of
/// them set; the checked request is then applied to the space.
pub fn mmap(ms: &mut MemorySet, start: usize, len: usize, prot: usize) -> (r: isize)
    requires
        old(ms).inv(),
        len > 0 && prot % 8 == prot && prot != 0 && start % PAGE_SIZE == 0 ==> start + len
            <= TRAMPOLINE,
    ensures
        final(ms).inv(),
        r == 0 || r == -1,
        len == 0 ==> r == 0 && *final(ms) == *old(ms),
        len > 0 && !(prot % 8 == prot && prot != 0 && start % PAGE_SIZE == 0) ==> r == -1
            && *final(ms) == *old(ms),
        len > 0 && prot % 8 == prot && prot != 0 && start % PAGE_SIZE == 0 ==> {
            &&& ((r == -1) <==> range_conflicts(
                old(ms).spec_areas(),
                vpn_floor(start as int),
                vpn_ceil((start + len) as int),
            ))
            &&& (r == -1 ==> *final(ms) == *old(ms))
            &&& (r == 0 ==> (forall|v: int|
                vpn_floor(start as int) <= v < vpn_ceil((start + len) as int)
                    ==> #[trigger] final(ms).spec_mapped(v) && final(ms).spec_entry(v).flags
                    == pte_flags_of(perm_from_prot(prot as int))))
            &&& (r == 0 ==> (forall|v: int|
                !(vpn_floor(start as int) <= v < vpn_ceil((start + len) as int))
                    ==> #[trigger] final(ms).spec_mapped(v) == old(ms).spec_mapped(v)))
        },
    {
        if len == 0 {
            return 0;
        }
        if prot / 8 != 0 || prot % 8 == 0 || start % PAGE_SIZE != 0 {
            return -1;
        }
        let end = start + len;
        proof {
            crate::address::lemma_vpn_order(start as int, end as int);
            crate::address::lemma_vpn_order(end as int, TRAMPOLINE as int);
            assert(vpn_ceil(TRAMPOLINE as int) == trampoline_vpn());
        }
        let r = ms.mmap(start, end, prot);
        proof {
            assert(end as int == (start + len) as int);
        }
        r
    }

/// Validate and apply a dynamic unmap request from a running process: a zero
/// length succeeds trivially; the start must be page-aligned; the checked
/// request is then applied to the space.
pub fn munmap(ms: &mut MemorySet, start: usize, len: usize) -> (r: isize)
    requires
        old(ms).inv(),
        len > 0 && start % PAGE_SIZE == 0 ==> start + len <= usize::MAX,
    ensures
        final(ms).inv(),
        r == 0 || r == -1,
        len == 0 ==> r == 0 && *final(ms) == *old(ms),
        len > 0 && start % PAGE_SIZE != 0 ==> r == -1 && *final(ms) == *old(ms),
        len > 0 && start % PAGE_SIZE == 0 ==> {
            &&& ((r == 0) <==> set_int_range(
                vpn_floor(start as int),
                vpn_ceil((start + len) as int),
            ).subset_of(
                contained_pages(
                    old(ms).spec_areas(),
                    vpn_floor(start as int),
                    vpn_ceil((start + len) as int),
                ),
            ))
            &&& (r == -1 ==> *final(ms) == *old(ms))
            &&& (r == 0 ==> (forall|v: int|
                vpn_floor(start as int) <= v < vpn_ceil((start + len) as int) ==> !(
                #[trigger] final(ms).spec_mapped(v))))
            &&& (r == 0 ==> (forall|v: int|
                !(vpn_floor(start as int) <= v < vpn_ceil((start + len) as int))
                    ==> #[trigger] final(ms).spec_mapped(v) == old(ms).spec_mapped(v)))
        },
    {
        if len == 0 {
            return 0;
        }
        if start % PAGE_SIZE != 0 {
            return -1;
        }
        let end = start + len;
        proof {
            crate::address::lemma_vpn_order(start as int, end as int);
        }
        ms.munmap(start, end)
    }


impl MemorySet {
    /// An independent, initially identical copy of an existing user space:
    /// the trampoline is shared read-only by construction, every region is
    /// re-created with the same range, policy and permission, and every
    /// framed page's bytes are copied eagerly into freshly allocated frames.
    /// No frame is ever shared between the two spaces.
    pub fn from_existed_user(user_space: &MemorySet) -> (ms: MemorySet)
        requires
            user_space.inv(),
            user_space.trampoline_ok(),
        ensures
            ms.inv(),
            ms.trampoline_ok(),
            ms.spec_entry(trampoline_vpn()).ppn == user_space.spec_entry(trampoline_vpn()).ppn,
            ms.spec_areas().len() == user_space.spec_areas().len(),
            forall|j: int| 0 <= j < user_space.spec_areas().len() ==> (
            #[trigger] ms.spec_areas()[j]).same_shape(&user_space.spec_areas()[j]),
            forall|j: int, v: int| 0 <= j < user_space.spec_areas().len() && #[trigger] user_space.spec_areas()[j].contains_vpn(v) ==> ms.spec_mapped(v)
                && ms.spec_entry(v).flags == pte_flags_of(
                user_space.spec_areas()[j].spec_map_perm(),
            ),
            forall|j: int, v: int| 0 <= j < user_space.spec_areas().len() && #[trigger] user_space.spec_areas()[j].contains_vpn(v) && user_space.spec_areas()[j].spec_map_type()
                == MapType::Framed ==> ms.spec_areas()[j].spec_frame_bytes(v)
                == user_space.spec_areas()[j].spec_frame_bytes(v),
    {
        let mut memory_set = Self::new_bare();
        let tramp = VirtAddr(crate::config::TRAMPOLINE).floor();
        let tramp_ppn = match user_space.translate(tramp) {
            Some(pte) => pte.ppn(),
            None => {
                proof {
                    assert(false);
                }
                PhysPageNum(0)
            },
        };
        memory_set.map_trampoline(tramp_ppn);
        let n = user_space.areas.len();
        let mut i: usize = 0;
        while i < n
            invariant
                user_space.inv(),
                user_space.trampoline_ok(),
                n == user_space.spec_areas().len(),
                i <= n,
                memory_set.inv(),
                memory_set.trampoline_ok(),
                memory_set.spec_entry(trampoline_vpn()).ppn == user_space.spec_entry(
                    trampoline_vpn(),
                ).ppn,
                memory_set.spec_areas().len() == i,
                forall|j: int| 0 <= j < i ==> (#[trigger] memory_set.spec_areas()[j]).same_shape(
                    &user_space.spec_areas()[j],
                ),
                forall|j: int, v: int| 0 <= j < i && #[trigger] user_space.spec_areas()[j].contains_vpn(v) ==> memory_set.spec_mapped(v) && memory_set.spec_entry(v).flags
                    == pte_flags_of(user_space.spec_areas()[j].spec_map_perm()),
                forall|j: int, v: int| 0 <= j < i && #[trigger] user_space.spec_areas()[j].contains_vpn(v) && user_space.spec_areas()[j].spec_map_type() == MapType::Framed
                    ==> memory_set.spec_areas()[j].spec_frame_bytes(v)
                    == user_space.spec_areas()[j].spec_frame_bytes(v),
            decreases n - i,
        {
            let ghost gi = i as int;
            let src_is_framed = matches!(user_space.areas[i].map_type, MapType::Framed);
            let new_area = MapArea::from_another(&user_space.areas[i]);
            let ghost ga = new_area;
            proof {
                assert(user_space.spec_areas()[gi].wf());
                assert(ga.spec_end() <= trampoline_vpn());
                assert forall|j: int| 0 <= j < memory_set.spec_areas().len() implies
                    ranges_disjoint(#[trigger] memory_set.spec_areas()[j], new_area) by {
                    assert(memory_set.spec_areas()[j].same_shape(&user_space.spec_areas()[j]));
                    assert(ranges_disjoint(
                        user_space.spec_areas()[j],
                        user_space.spec_areas()[gi],
                    ));
                }
            }
            let ghost ms_pre = memory_set;
            memory_set.push(new_area, None);
            let ghost ms_mid = memory_set;
            proof {
                assert(!ga.contains_vpn(trampoline_vpn()));
                assert(ms_mid.spec_mapped(trampoline_vpn()) == ms_pre.spec_mapped(
                    trampoline_vpn(),
                ));
                assert(ms_mid.spec_entry(trampoline_vpn()) == ms_pre.spec_entry(
                    trampoline_vpn(),
                ));
            }
            if src_is_framed {
                proof {
                    assert(memory_set.spec_areas()[gi].same_shape(&ga));
                    assert(memory_set.spec_areas()[gi].wf());
                    assert(memory_set.spec_areas()[gi].mapped_in(&memory_set.page_table));
                    assert(user_space.spec_areas()[gi].mapped_in(&user_space.page_table));
                    assert forall|v: int| #[trigger] memory_set.spec_areas()[gi].contains_vpn(
                        v,
                    ) implies memory_set.spec_areas()[gi].spec_has_frame(v)
                        && user_space.spec_areas()[gi].spec_has_frame(v) by {
                        assert(memory_set.page_table.spec_contains(v));
                        assert(user_space.spec_areas()[gi].contains_vpn(v));
                        assert(user_space.page_table.spec_contains(v));
                    }
                }
                let last = memory_set.areas.len() - 1;
                let ghost areas_mid = memory_set.areas@;
                let ghost pt_mid = memory_set.page_table;
                let aref = &mut memory_set.areas[last];
                aref.copy_from(&user_space.areas[i]);
                proof {
                    let areas_now = memory_set.areas@;
                    assert(areas_now == areas_mid.update(gi, areas_now[gi]));
                    assert forall|i2: int| 0 <= i2 < areas_now.len() implies {
                        &&& (#[trigger] areas_now[i2]).wf()
                        &&& areas_now[i2].mapped_in(&memory_set.page_table)
                        &&& areas_now[i2].spec_end() <= trampoline_vpn()
                    } by {
                        if i2 != gi {
                            assert(areas_now[i2] == areas_mid[i2]);
                            assert(areas_mid[i2].mapped_in(&pt_mid));
                        } else {
                            assert(areas_mid[gi].mapped_in(&pt_mid));
                            lemma_mapped_in_frames_preserved(
                                &areas_mid[gi],
                                &areas_now[gi],
                                &memory_set.page_table,
                            );
                        }
                    }
                    assert forall|i2: int, j2: int| 0 <= i2 < j2 < areas_now.len() implies
                        ranges_disjoint(#[trigger] areas_now[i2], #[trigger] areas_now[j2]) by {
                        assert(ranges_disjoint(areas_mid[i2], areas_mid[j2]));
                    }
                    assert forall|w: int| #[trigger] memory_set.page_table.spec_contains(
                        w,
                    ) implies w == trampoline_vpn() || memory_set.in_some_area(w) by {
                        if w != trampoline_vpn() {
                            assert(ms_mid.in_some_area(w));
                            let j = choose|j: int|
                                0 <= j < areas_mid.len() && (#[trigger] areas_mid[j]).contains_vpn(
                                    w,
                                );
                            assert((memory_set.spec_areas()[j]).contains_vpn(w));
                        }
                    }
                }
            }
            proof {
                assert forall|j: int| 0 <= j < gi + 1 implies (
                #[trigger] memory_set.spec_areas()[j]).same_shape(&user_space.spec_areas()[j]) by {
                    if j < gi {
                        assert(ms_pre.spec_areas()[j].same_shape(&user_space.spec_areas()[j]));
                        assert(ms_mid.spec_areas()[j] == ms_pre.spec_areas()[j]);
                    }
                }
                assert forall|j: int, v: int| 0 <= j < gi + 1
                    && #[trigger] user_space.spec_areas()[j].contains_vpn(v) implies
                    memory_set.spec_mapped(v) && memory_set.spec_entry(v).flags == pte_flags_of(
                    user_space.spec_areas()[j].spec_map_perm(),
                ) by {
                    if j < gi {
                        assert(ms_pre.spec_mapped(v) && ms_pre.spec_entry(v).flags
                            == pte_flags_of(user_space.spec_areas()[j].spec_map_perm()));
                        assert(ranges_disjoint(
                            user_space.spec_areas()[j],
                            user_space.spec_areas()[gi],
                        ));
                        assert(!ga.contains_vpn(v));
                        assert(ms_mid.spec_mapped(v) == ms_pre.spec_mapped(v));
                        assert(ms_mid.spec_entry(v) == ms_pre.spec_entry(v));
                    } else {
                        assert(user_space.spec_areas()[gi].contains_vpn(v));
                        assert(ga.same_shape(&user_space.spec_areas()[gi]));
                        assert(ga.contains_vpn(v));
                        assert(ms_mid.spec_mapped(v));
                        assert(ms_mid.spec_entry(v).flags == pte_flags_of(ga.spec_map_perm()));
                        assert(memory_set.spec_mapped(v) == ms_mid.spec_mapped(v));
                        assert(memory_set.spec_entry(v) == ms_mid.spec_entry(v));
                    }
                }
                assert forall|j: int, v: int| 0 <= j < gi + 1
                    && #[trigger] user_space.spec_areas()[j].contains_vpn(v)
                    && user_space.spec_areas()[j].spec_map_type() == MapType::Framed implies
                    memory_set.spec_areas()[j].spec_frame_bytes(v)
                    == user_space.spec_areas()[j].spec_frame_bytes(v) by {
                    if j < gi {
                        assert(ms_pre.spec_areas()[j].spec_frame_bytes(v)
                            == user_space.spec_areas()[j].spec_frame_bytes(v));
                        assert(ms_mid.spec_areas()[j] == ms_pre.spec_areas()[j]);
                        assert(memory_set.spec_areas()[j] == ms_mid.spec_areas()[j]);
                    } else {
                        assert(user_space.spec_areas()[gi].contains_vpn(v));
                    }
                }
            }
            i = i + 1;
        }
        memory_set
    }
}


/// Below the last loadable segment's end, or zero pages when none is
/// loadable: the start of every loadable segment at or after `n` bounds it.
proof fn lemma_max_end_le_start(d: Seq<u8>, n: int, j: int)
    requires
        crate::elf::segs_ordered(d),
        0 <= n <= j < crate::elf::elf_phnum(d),
        crate::elf::is_load(d, j),
    ensures
        crate::elf::max_end_vpn_upto(d, n) <= crate::elf::seg_start_vpn(d, j),
    decreases n,
{
    lemma_vpn_order(crate::elf::ph_vaddr(d, j), crate::elf::ph_vaddr(d, j));
    if n > 0 {
        if crate::elf::is_load(d, n - 1) {
            assert(crate::elf::seg_end_vpn(d, n - 1) <= crate::elf::seg_start_vpn(d, j));
        } else {
            lemma_max_end_le_start(d, n - 1, j);
        }
    }
}

impl MemorySet {
    /// Number of regions currently tracked.
    pub fn area_count(&self) -> (r: usize)
        ensures
            r == self.spec_areas().len(),
    {
        self.areas.len()
    }

    /// Build a process's address space from an executable image: the
    /// trampoline, one framed user-accessible region per loadable segment
    /// filled with the segment's bytes, a guard page, a fixed-size user
    /// stack, and the trap context page below the trampoline.  Returns the
    /// space, the initial stack pointer, and the image's entry address.
    #[verifier::rlimit(100)]
    pub fn from_elf(elf_data: &[u8], trampoline: PhysPageNum) -> (res: (MemorySet, usize, usize))
        requires
            crate::elf::elf_wf(elf_data@),
        ensures
            res.0.inv(),
            res.0.trampoline_ok(),
            res.2 == crate::elf::elf_entry(elf_data@),
            res.1 == (crate::elf::max_end_vpn_upto(elf_data@, crate::elf::elf_phnum(elf_data@))
                + 1) * PAGE_SIZE + USER_STACK_SIZE,
            res.0.spec_areas().len() == crate::elf::count_load_upto(
                elf_data@,
                crate::elf::elf_phnum(elf_data@),
            ) + 2,
            forall|j: int| 0 <= j < res.0.spec_areas().len() ==> (
            #[trigger] res.0.spec_areas()[j]).spec_map_type() == MapType::Framed,
            forall|i2: int, v: int| 0 <= i2 < crate::elf::elf_phnum(elf_data@)
                && crate::elf::is_load(elf_data@, i2) && #[trigger] crate::elf::seg_page(
                elf_data@,
                i2,
                v,
            ) ==> res.0.spec_mapped(v) && res.0.spec_entry(v).flags == pte_flags_of(
                crate::elf::seg_perm(elf_data@, i2),
            ),
            forall|v: int| crate::elf::max_end_vpn_upto(
                elf_data@,
                crate::elf::elf_phnum(elf_data@),
            ) + 1 <= v < crate::elf::max_end_vpn_upto(
                elf_data@,
                crate::elf::elf_phnum(elf_data@),
            ) + 3 ==> #[trigger] res.0.spec_mapped(v) && res.0.spec_entry(v).flags
                == pte_flags_of(MapPermission { r: true, w: true, x: false, u: true }),
            forall|v: int| trap_context_vpn() <= v < trampoline_vpn()
                ==> #[trigger] res.0.spec_mapped(v) && res.0.spec_entry(v).flags == pte_flags_of(
                MapPermission { r: true, w: true, x: false, u: false },
            ),
            forall|i2: int, v: int| 0 <= i2 < crate::elf::elf_phnum(elf_data@)
                && crate::elf::is_load(elf_data@, i2) && #[trigger] crate::elf::seg_page(
                elf_data@,
                i2,
                v,
            ) ==> (exists|k: int|
                0 <= k < res.0.spec_areas().len() && (#[trigger] res.0.spec_areas()[k]).contains_vpn(
                    v,
                ) && res.0.spec_areas()[k].spec_map_type() == MapType::Framed
                    && res.0.spec_areas()[k].spec_frame_bytes(v) == crate::elf::seg_page_bytes(
                    elf_data@,
                    i2,
                    v,
                )),
            forall|v: int| #[trigger] res.0.spec_mapped(v) ==> v == trampoline_vpn() || (
            exists|i2: int|
                0 <= i2 < crate::elf::elf_phnum(elf_data@) && crate::elf::is_load(elf_data@, i2)
                    && #[trigger] crate::elf::seg_page(elf_data@, i2, v)) || (crate::elf::max_end_vpn_upto(
                elf_data@,
                crate::elf::elf_phnum(elf_data@),
            ) + 1 <= v < crate::elf::max_end_vpn_upto(
                elf_data@,
                crate::elf::elf_phnum(elf_data@),
            ) + 3) || (trap_context_vpn() <= v < trampoline_vpn()),
    {
        let ghost d = elf_data@;
        proof {
            vstd::slice::axiom_spec_len(elf_data);
        }
        let mut memory_set = Self::new_bare();
        memory_set.map_trampoline(trampoline);
        let ph_count = read_u16(elf_data, 56) as usize;
        let phoff64 = read_u64(elf_data, 32);
        proof {
            vstd::arithmetic::mul::lemma_mul_nonnegative(56, crate::elf::elf_phnum(d));
            assert(phoff64 as int <= usize::MAX as int);
        }
        let phoff = phoff64 as usize;
        let entry64 = read_u64(elf_data, 24);
        let entry = entry64 as usize;
        let mut max_end_vpn: usize = 0;
        let mut i: usize = 0;
        while i < ph_count
            invariant
                d == elf_data@,
                crate::elf::elf_wf(d),
                ph_count as int == crate::elf::elf_phnum(d),
                phoff as int == crate::elf::elf_phoff(d),
                i <= ph_count,
                memory_set.inv(),
                memory_set.trampoline_ok(),
                memory_set.spec_areas().len() == crate::elf::count_load_upto(d, i as int),
                max_end_vpn as int == crate::elf::max_end_vpn_upto(d, i as int),
                max_end_vpn as int + 3 <= trap_context_vpn(),
                forall|j: int| 0 <= j < memory_set.spec_areas().len() ==> (
                #[trigger] memory_set.spec_areas()[j]).spec_end() <= max_end_vpn as int,
                forall|j: int| 0 <= j < memory_set.spec_areas().len() ==> (
                #[trigger] memory_set.spec_areas()[j]).spec_map_type() == MapType::Framed,
                forall|i2: int, v: int| 0 <= i2 < i && crate::elf::is_load(d, i2)
                    && #[trigger] crate::elf::seg_page(d, i2, v) ==> memory_set.spec_mapped(v)
                    && memory_set.spec_entry(v).flags == pte_flags_of(
                    crate::elf::seg_perm(d, i2),
                ),
                forall|v: int| #[trigger] memory_set.spec_mapped(v) ==> v == trampoline_vpn()
                    || (exists|i2: int|
                    0 <= i2 < i && crate::elf::is_load(d, i2) && #[trigger] crate::elf::seg_page(
                        d,
                        i2,
                        v,
                    )),
                forall|i2: int, v: int| 0 <= i2 < i && crate::elf::is_load(d, i2)
                    && #[trigger] crate::elf::seg_page(d, i2, v) ==> (exists|k: int|
                    0 <= k < memory_set.spec_areas().len() && (
                    #[trigger] memory_set.spec_areas()[k]).contains_vpn(v)
                        && memory_set.spec_areas()[k].spec_map_type() == MapType::Framed
                        && memory_set.spec_areas()[k].spec_frame_bytes(v)
                        == crate::elf::seg_page_bytes(d, i2, v)),
            decreases ph_count - i,
        {
            let ghost gi = i as int;
            proof {
                vstd::arithmetic::mul::lemma_mul_inequality(gi + 1, ph_count as int, 56);
                vstd::arithmetic::mul::lemma_mul_nonnegative(56, gi);
                assert(56 * (gi + 1) == 56 * gi + 56);
                assert((i * 56) as int == 56 * gi);
                assert(phoff as int + 56 * gi + 56 <= elf_data@.len());
                assert(elf_data@.len() <= usize::MAX as int) by {
                    vstd::slice::axiom_spec_len(elf_data);
                }
            }
            let pho = phoff + i * 56;
            proof {
                assert(pho as int == crate::elf::ph_off(d, gi));
                assert(pho as int + 56 <= elf_data@.len());
            }
            let ptype = read_u32(elf_data, pho);
            if ptype == 1 {
                proof {
                    assert(crate::elf::is_load(d, gi));
                    assert(crate::elf::seg_ok(d, gi));
                }
                let flags = read_u32(elf_data, pho + 4);
                let offset64 = read_u64(elf_data, pho + 8);
                let vaddr64 = read_u64(elf_data, pho + 16);
                let filesz64 = read_u64(elf_data, pho + 32);
                let memsz64 = read_u64(elf_data, pho + 40);
                proof {
                    assert(offset64 as int <= usize::MAX as int);
                    assert(vaddr64 as int <= usize::MAX as int);
                    assert(filesz64 as int <= usize::MAX as int);
                    assert(memsz64 as int <= usize::MAX as int);
                }
                let offset = offset64 as usize;
                let vaddr = vaddr64 as usize;
                let filesz = filesz64 as usize;
                let memsz = memsz64 as usize;
                let map_perm = MapPermission {
                    r: (flags / 4) % 2 == 1,
                    w: (flags / 2) % 2 == 1,
                    x: flags % 2 == 1,
                    u: true,
                };
                proof {
                    assert(map_perm == crate::elf::seg_perm(d, gi));
                    lemma_vpn_order(vaddr as int, vaddr as int + memsz as int);
                }
                let map_area = MapArea::new(
                    VirtAddr(vaddr),
                    VirtAddr(vaddr + memsz),
                    MapType::Framed,
                    map_perm,
                );
                let ghost ga = map_area;
                max_end_vpn = map_area.vpn_range.get_end().0;
                let mut seg_data: Vec<u8> = Vec::new();
                let mut t: usize = 0;
                while t < filesz
                    invariant
                        t <= filesz,
                        seg_data@.len() == t,
                        d == elf_data@,
                        offset + filesz <= d.len(),
                        d.len() <= usize::MAX as int,
                        forall|k2: int| 0 <= k2 < t ==> #[trigger] seg_data@[k2] == d[offset
                            + k2],
                    decreases filesz - t,
                {
                    seg_data.push(elf_data[offset + t]);
                    t = t + 1;
                }
                proof {
                    lemma_max_end_le_start(d, gi, gi);
                    assert forall|j: int| 0 <= j < memory_set.spec_areas().len() implies
                        ranges_disjoint(#[trigger] memory_set.spec_areas()[j], map_area) by {
                        assert(memory_set.spec_areas()[j].spec_end() <= crate::elf::max_end_vpn_upto(
                            d,
                            gi,
                        ));
                    }
                    assert(ga.spec_end() == crate::elf::seg_end_vpn(d, gi));
                    assert(ga.spec_end() <= trampoline_vpn());
                    assert(MapArea::pages_for_len(seg_data@.len() as int) <= ga.spec_end()
                        - ga.spec_start());
                }
                let ghost ms_pre = memory_set;
                memory_set.push(map_area, Some(seg_data.as_slice()));
                proof {
                    assert(!ga.contains_vpn(trampoline_vpn()));
                    assert(memory_set.spec_mapped(trampoline_vpn()) == ms_pre.spec_mapped(
                        trampoline_vpn(),
                    ));
                    assert(memory_set.spec_entry(trampoline_vpn()) == ms_pre.spec_entry(
                        trampoline_vpn(),
                    ));
                    assert(memory_set.trampoline_ok());
                    assert forall|i2: int, v: int| 0 <= i2 < gi + 1 && crate::elf::is_load(d, i2)
                        && #[trigger] crate::elf::seg_page(d, i2, v) implies
                        memory_set.spec_mapped(v) && memory_set.spec_entry(v).flags
                        == pte_flags_of(crate::elf::seg_perm(d, i2)) by {
                        if i2 < gi {
                            assert(crate::elf::seg_page(d, i2, v));
                            assert(ms_pre.spec_mapped(v));
                            assert(ms_pre.spec_entry(v).flags == pte_flags_of(
                                crate::elf::seg_perm(d, i2),
                            ));
                            assert(crate::elf::seg_end_vpn(d, i2) <= crate::elf::seg_start_vpn(
                                d,
                                gi,
                            ));
                            assert(!ga.contains_vpn(v));
                            assert(memory_set.spec_mapped(v) == ms_pre.spec_mapped(v));
                            assert(memory_set.spec_entry(v) == ms_pre.spec_entry(v));
                        } else {
                            assert(ga.contains_vpn(v));
                            assert(memory_set.spec_mapped(v));
                            assert(memory_set.spec_entry(v).flags == pte_flags_of(
                                ga.spec_map_perm(),
                            ));
                        }
                    }
                    assert forall|v: int| #[trigger] memory_set.spec_mapped(v) implies v
                        == trampoline_vpn() || (exists|i2: int|
                        0 <= i2 < gi + 1 && crate::elf::is_load(d, i2)
                            && #[trigger] crate::elf::seg_page(d, i2, v)) by {
                        if v != trampoline_vpn() {
                            if ga.contains_vpn(v) {
                                assert(crate::elf::seg_page(d, gi, v));
                            } else {
                                assert(ms_pre.spec_mapped(v));
                            }
                        }
                    }
                    assert forall|i2: int, v: int| 0 <= i2 < gi + 1 && crate::elf::is_load(d, i2)
                        && #[trigger] crate::elf::seg_page(d, i2, v) implies (exists|k: int|
                        0 <= k < memory_set.spec_areas().len() && (
                        #[trigger] memory_set.spec_areas()[k]).contains_vpn(v)
                            && memory_set.spec_areas()[k].spec_map_type() == MapType::Framed
                            && memory_set.spec_areas()[k].spec_frame_bytes(v)
                            == crate::elf::seg_page_bytes(d, i2, v)) by {
                        if i2 < gi {
                            assert(crate::elf::seg_page(d, i2, v));
                            let k = choose|k: int|
                                0 <= k < ms_pre.spec_areas().len() && (
                                #[trigger] ms_pre.spec_areas()[k]).contains_vpn(v)
                                    && ms_pre.spec_areas()[k].spec_map_type() == MapType::Framed
                                    && ms_pre.spec_areas()[k].spec_frame_bytes(v)
                                    == crate::elf::seg_page_bytes(d, i2, v);
                            assert(memory_set.spec_areas()[k] == ms_pre.spec_areas()[k]);
                            assert((memory_set.spec_areas()[k]).contains_vpn(v));
                        } else {
                            let k = ms_pre.spec_areas().len() as int;
                            assert(ga.contains_vpn(v));
                            assert(memory_set.spec_areas().last()
                                == memory_set.spec_areas()[k]);
                            assert(memory_set.spec_areas()[k].wf());
                            assert(memory_set.spec_areas()[k].mapped_in(
                                &memory_set.page_table,
                            ));
                            assert(memory_set.page_table.spec_contains(v));
                            assert(memory_set.spec_areas()[k].spec_has_frame(v));
                            let fi = choose|fi: int|
                                0 <= fi < memory_set.spec_areas()[k].data_frames@.len() && fkey(
                                    memory_set.spec_areas()[k].data_frames@[fi],
                                ) == v;
                            assert(memory_set.spec_areas()[k].data_frames@[fi].1.wf());
                            assert(memory_set.spec_areas()[k].spec_frame_bytes(v).len()
                                == PAGE_SIZE);
                            assert forall|j: int| 0 <= j < PAGE_SIZE implies
                                memory_set.spec_areas()[k].spec_frame_bytes(v)[j]
                                == crate::elf::seg_page_bytes(d, gi, v)[j] by {
                                assert(memory_set.spec_areas().last().spec_frame_bytes(v)[j] == (
                                if (v - ga.spec_start()) * PAGE_SIZE + j < seg_data@.len() {
                                    seg_data@[(v - ga.spec_start()) * PAGE_SIZE + j]
                                } else {
                                    0u8
                                }));
                                if (v - ga.spec_start()) * PAGE_SIZE + j < filesz {
                                    assert(seg_data@[(v - ga.spec_start()) * PAGE_SIZE + j]
                                        == d[offset + (v - ga.spec_start()) * PAGE_SIZE + j]);
                                }
                            }
                            assert(memory_set.spec_areas()[k].spec_frame_bytes(v)
                                =~= crate::elf::seg_page_bytes(d, gi, v));
                        }
                    }
                }
            } else {
                proof {
                    assert(!crate::elf::is_load(d, gi));
                    assert(crate::elf::count_load_upto(d, gi + 1) == crate::elf::count_load_upto(
                        d,
                        gi,
                    ));
                    assert(crate::elf::max_end_vpn_upto(d, gi + 1) == crate::elf::max_end_vpn_upto(
                        d,
                        gi,
                    ));
                }
            }
            i = i + 1;
        }
        let ghost n_ph = crate::elf::elf_phnum(d);
        proof {
            vstd::arithmetic::mul::lemma_mul_inequality(
                max_end_vpn as int + 1,
                trap_context_vpn(),
                PAGE_SIZE as int,
            );
            assert(trap_context_vpn() * PAGE_SIZE as int == TRAP_CONTEXT as int);
            vstd::arithmetic::div_mod::lemma_div_multiples_vanish(
                max_end_vpn as int + 1,
                PAGE_SIZE as int,
            );
            vstd::arithmetic::div_mod::lemma_div_multiples_vanish_fancy(
                max_end_vpn as int + 3,
                PAGE_SIZE as int - 1,
                PAGE_SIZE as int,
            );
            assert((max_end_vpn as int + 1) * PAGE_SIZE + USER_STACK_SIZE == (max_end_vpn as int
                + 3) * PAGE_SIZE) by (nonlinear_arith);
        }
        let user_stack_bottom = (max_end_vpn + 1) * PAGE_SIZE;
        let user_stack_top = user_stack_bottom + USER_STACK_SIZE;
        let stack_area = MapArea::new(
            VirtAddr(user_stack_bottom),
            VirtAddr(user_stack_top),
            MapType::Framed,
            MapPermission { r: true, w: true, x: false, u: true },
        );
        let ghost gstack = stack_area;
        proof {
            assert(gstack.spec_start() == max_end_vpn as int + 1);
            assert(gstack.spec_end() == max_end_vpn as int + 3);
            assert forall|j: int| 0 <= j < memory_set.spec_areas().len() implies ranges_disjoint(
                #[trigger] memory_set.spec_areas()[j],
                stack_area,
            ) by {}
        }
        let ghost ms_a = memory_set;
        memory_set.push(stack_area, None);
        let ghost ms_b = memory_set;
        proof {
            assert(!gstack.contains_vpn(trampoline_vpn()));
            assert(ms_b.spec_mapped(trampoline_vpn()) == ms_a.spec_mapped(trampoline_vpn()));
            assert(ms_b.spec_entry(trampoline_vpn()) == ms_a.spec_entry(trampoline_vpn()));
        }
        let trap_area = MapArea::new(
            VirtAddr(crate::config::TRAP_CONTEXT),
            VirtAddr(crate::config::TRAMPOLINE),
            MapType::Framed,
            MapPermission { r: true, w: true, x: false, u: false },
        );
        let ghost gtrap = trap_area;
        proof {
            assert(vpn_floor(crate::config::TRAP_CONTEXT as int) == trap_context_vpn());
            assert(vpn_ceil(crate::config::TRAMPOLINE as int) == trampoline_vpn());
            assert(gtrap.spec_start() == trap_context_vpn());
            assert(gtrap.spec_end() == trampoline_vpn());
            assert forall|j: int| 0 <= j < memory_set.spec_areas().len() implies ranges_disjoint(
                #[trigger] memory_set.spec_areas()[j],
                trap_area,
            ) by {
                if j < memory_set.spec_areas().len() - 1 {
                    assert(memory_set.spec_areas()[j] == ms_a.spec_areas()[j]);
                }
            }
        }
        memory_set.push(trap_area, None);
        let ghost ms_c = memory_set;
        proof {
            assert(!gtrap.contains_vpn(trampoline_vpn()));
            assert(ms_c.spec_mapped(trampoline_vpn()) == ms_b.spec_mapped(trampoline_vpn()));
            assert(ms_c.spec_entry(trampoline_vpn()) == ms_b.spec_entry(trampoline_vpn()));
            assert(memory_set.trampoline_ok());
            // segment mappings survive the stack and trap pushes
            assert forall|i2: int, v: int| 0 <= i2 < n_ph && crate::elf::is_load(d, i2)
                && #[trigger] crate::elf::seg_page(d, i2, v) implies memory_set.spec_mapped(v)
                && memory_set.spec_entry(v).flags == pte_flags_of(
                crate::elf::seg_perm(d, i2),
            ) by {
                assert(crate::elf::seg_page(d, i2, v));
                assert(ms_a.spec_mapped(v));
                assert(ms_a.spec_entry(v).flags == pte_flags_of(crate::elf::seg_perm(d, i2)));
                assert(crate::elf::seg_end_vpn(d, i2) <= crate::elf::max_end_vpn_upto(d, n_ph))
                    by {
                    lemma_seg_end_le_max(d, i2, n_ph);
                }
                assert(!gstack.contains_vpn(v));
                assert(ms_b.spec_mapped(v) == ms_a.spec_mapped(v));
                assert(ms_b.spec_entry(v) == ms_a.spec_entry(v));
                assert(!gtrap.contains_vpn(v));
                assert(ms_c.spec_mapped(v) == ms_b.spec_mapped(v));
                assert(ms_c.spec_entry(v) == ms_b.spec_entry(v));
            }
            // the stack region is mapped
            assert forall|v: int| max_end_vpn as int + 1 <= v < max_end_vpn as int + 3 implies
                #[trigger] memory_set.spec_mapped(v) && memory_set.spec_entry(v).flags
                == pte_flags_of(MapPermission { r: true, w: true, x: false, u: true }) by {
                assert(gstack.contains_vpn(v));
                assert(ms_b.spec_mapped(v));
                assert(ms_b.spec_entry(v).flags == pte_flags_of(gstack.spec_map_perm()));
                assert(!gtrap.contains_vpn(v));
                assert(ms_c.spec_mapped(v) == ms_b.spec_mapped(v));
                assert(ms_c.spec_entry(v) == ms_b.spec_entry(v));
            }
            // the trap-context region is mapped
            assert forall|v: int| trap_context_vpn() <= v < trampoline_vpn() implies
                #[trigger] memory_set.spec_mapped(v) && memory_set.spec_entry(v).flags
                == pte_flags_of(MapPermission { r: true, w: true, x: false, u: false }) by {
                assert(gtrap.contains_vpn(v));
                assert(ms_c.spec_mapped(v));
                assert(ms_c.spec_entry(v).flags == pte_flags_of(gtrap.spec_map_perm()));
            }
            // segment content survives the stack and trap pushes
            assert forall|i2: int, v: int| 0 <= i2 < n_ph && crate::elf::is_load(d, i2)
                && #[trigger] crate::elf::seg_page(d, i2, v) implies (exists|k: int|
                0 <= k < memory_set.spec_areas().len() && (
                #[trigger] memory_set.spec_areas()[k]).contains_vpn(v)
                    && memory_set.spec_areas()[k].spec_map_type() == MapType::Framed
                    && memory_set.spec_areas()[k].spec_frame_bytes(v)
                    == crate::elf::seg_page_bytes(d, i2, v)) by {
                assert(crate::elf::seg_page(d, i2, v));
                let k = choose|k: int|
                    0 <= k < ms_a.spec_areas().len() && (#[trigger] ms_a.spec_areas()[k]).contains_vpn(
                        v,
                    ) && ms_a.spec_areas()[k].spec_map_type() == MapType::Framed
                        && ms_a.spec_areas()[k].spec_frame_bytes(v) == crate::elf::seg_page_bytes(
                        d,
                        i2,
                        v,
                    );
                assert(ms_b.spec_areas()[k] == ms_a.spec_areas()[k]);
                assert(memory_set.spec_areas()[k] == ms_b.spec_areas()[k]);
                assert((memory_set.spec_areas()[k]).contains_vpn(v));
            }
            // nothing else is mapped
            assert forall|v: int| #[trigger] memory_set.spec_mapped(v) implies v
                == trampoline_vpn() || (exists|i2: int|
                0 <= i2 < n_ph && crate::elf::is_load(d, i2) && #[trigger] crate::elf::seg_page(
                    d,
                    i2,
                    v,
                )) || (max_end_vpn as int + 1
                <= v < max_end_vpn as int + 3) || (trap_context_vpn() <= v < trampoline_vpn()) by {
                if v != trampoline_vpn() && !gtrap.contains_vpn(v) {
                    assert(ms_b.spec_mapped(v));
                    if !gstack.contains_vpn(v) {
                        assert(ms_a.spec_mapped(v));
                    }
                }
            }
        }
        (memory_set, user_stack_top, entry)
    }
}

/// A loadable segment's end is bounded by the running maximum once seen.
proof fn lemma_seg_end_le_max(d: Seq<u8>, i: int, n: int)
    requires
        crate::elf::segs_ordered(d),
        0 <= i < n <= crate::elf::elf_phnum(d),
        crate::elf::is_load(d, i),
    ensures
        crate::elf::seg_end_vpn(d, i) <= crate::elf::max_end_vpn_upto(d, n),
    decreases n,
{
    if i == n - 1 {
        assert(crate::elf::max_end_vpn_upto(d, n) == crate::elf::seg_end_vpn(d, i));
    } else {
        lemma_seg_end_le_max(d, i, n - 1);
        if crate::elf::is_load(d, n - 1) {
            assert(crate::elf::seg_end_vpn(d, i) <= crate::elf::seg_start_vpn(d, n - 1));
            lemma_vpn_order(
                crate::elf::ph_vaddr(d, n - 1),
                crate::elf::ph_vaddr(d, n - 1) + crate::elf::ph_memsz(d, n - 1),
            );
        }
    }
}


impl MemorySet {
    /// Validate an executable image and, when the loader accepts it, build
    /// the process's address space from it.  Returns `None`, touching
    /// nothing, exactly when the image is rejected.
    pub fn from_elf_checked(elf_data: &[u8], trampoline: PhysPageNum) -> (res: Option<
        (MemorySet, usize, usize),
    >)
        ensures
            res is Some <==> crate::elf::elf_wf(elf_data@),
            (match res {
                Some(t) => {
                    &&& t.0.inv()
                    &&& t.0.trampoline_ok()
                    &&& t.2 == crate::elf::elf_entry(elf_data@)
                    &&& t.1 == (crate::elf::max_end_vpn_upto(
                        elf_data@,
                        crate::elf::elf_phnum(elf_data@),
                    ) + 1) * PAGE_SIZE + USER_STACK_SIZE
                    &&& t.0.spec_areas().len() == crate::elf::count_load_upto(
                        elf_data@,
                        crate::elf::elf_phnum(elf_data@),
                    ) + 2
                },
                None => true,
            }),
    {
        if crate::elf::elf_check(elf_data) {
            Some(Self::from_elf(elf_data, trampoline))
        } else {
            None
        }
    }
}


} // verus!
