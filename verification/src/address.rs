//! Virtual and physical addresses and page numbers.

use vstd::prelude::*;

use crate::config::PAGE_SIZE;

verus! {

/// A byte address in the virtual address space.
#[derive(Clone, Copy, PartialEq, Eq, Structural, Debug)]
pub struct VirtAddr(pub usize);

/// A virtual page number: a page-aligned virtual address divided by the page
/// size.
#[derive(Clone, Copy, PartialEq, Eq, Structural, Debug)]
pub struct VirtPageNum(pub usize);

/// A physical page number.
#[derive(Clone, Copy, PartialEq, Eq, Structural, Debug)]
pub struct PhysPageNum(pub usize);

/// Page number of the page holding `addr`.
pub open spec fn vpn_floor(addr: int) -> int {
    addr / PAGE_SIZE as int
}

/// Page number of the first page boundary at or above `addr`.
pub open spec fn vpn_ceil(addr: int) -> int {
    (addr + PAGE_SIZE - 1) / PAGE_SIZE as int
}

impl VirtAddr {
    /// Page number of the page this address falls in.
    pub fn floor(self) -> (r: VirtPageNum)
        ensures
            r.0 == vpn_floor(self.0 as int),
    {
        VirtPageNum(self.0 / PAGE_SIZE)
    }

    /// Page number of the first page boundary at or above this address.
    pub fn ceil(self) -> (r: VirtPageNum)
        ensures
            r.0 == vpn_ceil(self.0 as int),
    {
        if self.0 == 0 {
            VirtPageNum(0)
        } else {
            proof {
                lemma_ceil_shift(self.0 as int);
            }
            VirtPageNum((self.0 - 1) / PAGE_SIZE + 1)
        }
    }
}

/// For a positive address, rounding up can be computed without overflowing:
/// `(a + P - 1) / P == (a - 1) / P + 1`.
pub proof fn lemma_ceil_shift(a: int)
    requires
        a >= 1,
    ensures
        vpn_ceil(a) == (a - 1) / PAGE_SIZE as int + 1,
{
    let p = PAGE_SIZE as int;
    vstd::arithmetic::div_mod::lemma_div_plus_one(a - 1, p);
    assert(p + (a - 1) == a + p - 1);
}

/// Page rounding is monotone, and rounding down never exceeds rounding up.
pub proof fn lemma_vpn_order(a: int, b: int)
    requires
        0 <= a <= b,
    ensures
        vpn_floor(a) <= vpn_floor(b),
        vpn_ceil(a) <= vpn_ceil(b),
        vpn_floor(a) <= vpn_ceil(a),
        vpn_floor(b) <= vpn_ceil(b),
        0 <= vpn_floor(a),
{
    let p = PAGE_SIZE as int;
    vstd::arithmetic::div_mod::lemma_div_is_ordered(a, b, p);
    vstd::arithmetic::div_mod::lemma_div_is_ordered(a + p - 1, b + p - 1, p);
    vstd::arithmetic::div_mod::lemma_div_is_ordered(a, a + p - 1, p);
    vstd::arithmetic::div_mod::lemma_div_is_ordered(b, b + p - 1, p);
    vstd::arithmetic::div_mod::lemma_div_is_ordered(0, a, p);
    assert(0int / 0x1000 == 0);
}

impl VirtPageNum {
    /// First byte address of this page.  The page must lie below the top of
    /// the address space.
    pub fn addr(self) -> (r: VirtAddr)
        requires
            self.0 * PAGE_SIZE <= usize::MAX,
        ensures
            r.0 == self.0 * PAGE_SIZE,
    {
        VirtAddr(self.0 * PAGE_SIZE)
    }
}

/// A half-open interval `[l, r)` of virtual page numbers.
#[derive(Clone, Copy, PartialEq, Eq, Structural, Debug)]
pub struct VPNRange {
    pub l: VirtPageNum,
    pub r: VirtPageNum,
}

impl VPNRange {
    pub fn new(start: VirtPageNum, end: VirtPageNum) -> (rg: VPNRange)
        requires
            start.0 <= end.0,
        ensures
            rg.l == start,
            rg.r == end,
    {
        VPNRange { l: start, r: end }
    }

    pub fn get_start(self) -> (r: VirtPageNum)
        ensures
            r == self.l,
    {
        self.l
    }

    pub fn get_end(self) -> (r: VirtPageNum)
        ensures
            r == self.r,
    {
        self.r
    }
}

} // verus!
