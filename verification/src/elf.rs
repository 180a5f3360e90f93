//! Verified reading of the executable-image format the loader consumes: a
//! 64-bit little-endian image with a fixed 64-byte header and fixed-size
//! program headers.  Every field is an integer at a fixed offset, and each
//! reader's contract states exactly which bytes it decodes.

use vstd::prelude::*;

use crate::address::{vpn_ceil, vpn_floor};
use crate::config::{trap_context_vpn, PAGE_SIZE, USER_STACK_SIZE};
use crate::memory_set::MapPermission;

verus! {

/// The little-endian 16-bit integer at `off`.
pub open spec fn le_u16(d: Seq<u8>, off: int) -> int {
    d[off] + 0x100 * d[off + 1]
}

/// The little-endian 32-bit integer at `off`.
pub open spec fn le_u32(d: Seq<u8>, off: int) -> int {
    le_u16(d, off) + 0x1_0000 * le_u16(d, off + 2)
}

/// The little-endian 64-bit integer at `off`.
pub open spec fn le_u64(d: Seq<u8>, off: int) -> int {
    le_u32(d, off) + 0x1_0000_0000 * le_u32(d, off + 4)
}

/// The image's declared entry virtual address.
pub open spec fn elf_entry(d: Seq<u8>) -> int {
    le_u64(d, 24)
}

/// Byte offset of the program-header table.
pub open spec fn elf_phoff(d: Seq<u8>) -> int {
    le_u64(d, 32)
}

/// Declared size of one program header.
pub open spec fn elf_phentsize(d: Seq<u8>) -> int {
    le_u16(d, 54)
}

/// Number of program headers.
pub open spec fn elf_phnum(d: Seq<u8>) -> int {
    le_u16(d, 56)
}

/// Byte offset of program header `i`.
pub open spec fn ph_off(d: Seq<u8>, i: int) -> int {
    elf_phoff(d) + 56 * i
}

/// Type tag of program header `i`; loadable segments carry tag 1.
pub open spec fn ph_type(d: Seq<u8>, i: int) -> int {
    le_u32(d, ph_off(d, i))
}

/// Whether program header `i` describes a loadable segment.
pub open spec fn is_load(d: Seq<u8>, i: int) -> bool {
    ph_type(d, i) == 1
}

/// Permission flag bits of program header `i` (bit 0 execute, bit 1 write,
/// bit 2 read).
pub open spec fn ph_flags(d: Seq<u8>, i: int) -> int {
    le_u32(d, ph_off(d, i) + 4)
}

/// File offset of segment `i`'s content.
pub open spec fn ph_offset(d: Seq<u8>, i: int) -> int {
    le_u64(d, ph_off(d, i) + 8)
}

/// Virtual address where segment `i` is loaded.
pub open spec fn ph_vaddr(d: Seq<u8>, i: int) -> int {
    le_u64(d, ph_off(d, i) + 16)
}

/// Size of segment `i`'s content in the file.
pub open spec fn ph_filesz(d: Seq<u8>, i: int) -> int {
    le_u64(d, ph_off(d, i) + 32)
}

/// Size of segment `i` in memory.
pub open spec fn ph_memsz(d: Seq<u8>, i: int) -> int {
    le_u64(d, ph_off(d, i) + 40)
}

/// First page of segment `i`.
pub open spec fn seg_start_vpn(d: Seq<u8>, i: int) -> int {
    vpn_floor(ph_vaddr(d, i))
}

/// One past the last page of segment `i`.
pub open spec fn seg_end_vpn(d: Seq<u8>, i: int) -> int {
    vpn_ceil(ph_vaddr(d, i) + ph_memsz(d, i))
}

/// Page `v` lies in segment `i`'s page range.
pub open spec fn seg_page(d: Seq<u8>, i: int, v: int) -> bool {
    seg_start_vpn(d, i) <= v < seg_end_vpn(d, i)
}

/// The bytes page `v` of segment `i` holds after loading: the segment's
/// file content, laid out page by page from the segment's first page, with
/// zeroes past the content.
pub open spec fn seg_page_bytes(d: Seq<u8>, i: int, v: int) -> Seq<u8> {
    Seq::new(
        PAGE_SIZE as nat,
        |j: int|
            if (v - seg_start_vpn(d, i)) * PAGE_SIZE + j < ph_filesz(d, i) {
                d[ph_offset(d, i) + (v - seg_start_vpn(d, i)) * PAGE_SIZE + j]
            } else {
                0u8
            },
    )
}

/// The region permission a segment's flags ask for: its read/write/execute
/// bits, with the user bit forced on.
pub open spec fn seg_perm(d: Seq<u8>, i: int) -> MapPermission {
    MapPermission {
        r: (ph_flags(d, i) / 4) % 2 == 1,
        w: (ph_flags(d, i) / 2) % 2 == 1,
        x: ph_flags(d, i) % 2 == 1,
        u: true,
    }
}

/// The fixed header is sound: magic, 64-bit class, little-endian data, the
/// declared program-header size, a table that lies inside the image, and an
/// entry address that fits the machine word.
pub open spec fn elf_header_wf(d: Seq<u8>) -> bool {
    &&& d.len() >= 64
    &&& d[0] == 0x7fu8
    &&& d[1] == 0x45u8
    &&& d[2] == 0x4cu8
    &&& d[3] == 0x46u8
    &&& d[4] == 2u8
    &&& d[5] == 1u8
    &&& elf_phentsize(d) == 56
    &&& elf_phoff(d) + 56 * elf_phnum(d) <= d.len()
    &&& elf_entry(d) <= usize::MAX
}

/// A loadable segment the loader can map: its file content lies inside the
/// image, its addresses fit the machine word, its content fits the pages of
/// its range, and its pages leave room for the guard page, the user stack
/// and the trap context below the trampoline.
pub open spec fn seg_ok(d: Seq<u8>, i: int) -> bool {
    &&& ph_offset(d, i) + ph_filesz(d, i) <= d.len()
    &&& ph_vaddr(d, i) + ph_memsz(d, i) <= usize::MAX
    &&& (if ph_filesz(d, i) == 0 {
        1int
    } else {
        vpn_ceil(ph_filesz(d, i))
    }) <= seg_end_vpn(d, i) - seg_start_vpn(d, i)
    &&& seg_end_vpn(d, i) + 1 + USER_STACK_SIZE / PAGE_SIZE <= trap_context_vpn()
}

/// The loadable segments come in ascending page order, no two on a common
/// page.
pub open spec fn segs_ordered(d: Seq<u8>) -> bool {
    forall|i: int, j: int| 0 <= i < j < elf_phnum(d) && is_load(d, i) && is_load(d, j)
        ==> #[trigger] seg_end_vpn(d, i) <= #[trigger] seg_start_vpn(d, j)
}

/// An image the loader accepts.
pub open spec fn elf_wf(d: Seq<u8>) -> bool {
    &&& elf_header_wf(d)
    &&& (forall|i: int| 0 <= i < elf_phnum(d) && is_load(d, i) ==> #[trigger] seg_ok(d, i))
    &&& segs_ordered(d)
}

/// Page range of the last loadable segment seen among the first `n`
/// headers: its end, or zero when none is loadable.
pub open spec fn max_end_vpn_upto(d: Seq<u8>, n: int) -> int
    decreases n,
{
    if n <= 0 {
        0
    } else if is_load(d, n - 1) {
        seg_end_vpn(d, n - 1)
    } else {
        max_end_vpn_upto(d, n - 1)
    }
}

/// Number of loadable segments among the first `n` headers.
pub open spec fn count_load_upto(d: Seq<u8>, n: int) -> int
    decreases n,
{
    if n <= 0 {
        0
    } else {
        count_load_upto(d, n - 1) + if is_load(d, n - 1) {
            1int
        } else {
            0int
        }
    }
}

/// Read the little-endian 16-bit integer at `off`.
pub fn read_u16(data: &[u8], off: usize) -> (r: u16)
    requires
        off + 2 <= data@.len(),
    ensures
        r as int == le_u16(data@, off as int),
{
    proof {
        vstd::slice::axiom_spec_len(data);
    }
    (data[off] as u16) + (data[off + 1] as u16) * 0x100
}

/// Read the little-endian 32-bit integer at `off`.
pub fn read_u32(data: &[u8], off: usize) -> (r: u32)
    requires
        off + 4 <= data@.len(),
    ensures
        r as int == le_u32(data@, off as int),
{
    proof {
        vstd::slice::axiom_spec_len(data);
    }
    (read_u16(data, off) as u32) + (read_u16(data, off + 2) as u32) * 0x1_0000
}

/// Read the little-endian 64-bit integer at `off`.
pub fn read_u64(data: &[u8], off: usize) -> (r: u64)
    requires
        off + 8 <= data@.len(),
    ensures
        r as int == le_u64(data@, off as int),
{
    proof {
        vstd::slice::axiom_spec_len(data);
    }
    (read_u32(data, off) as u64) + (read_u32(data, off + 4) as u64) * 0x1_0000_0000
}

/// When the running maximum is not zero, some loadable segment attained it.
proof fn lemma_max_end_witness(d: Seq<u8>, n: int)
    requires
        0 <= n,
    ensures
        max_end_vpn_upto(d, n) == 0 || exists|j: int|
            0 <= j < n && is_load(d, j) && #[trigger] seg_end_vpn(d, j) == max_end_vpn_upto(d, n),
    decreases n,
{
    if n > 0 && !is_load(d, n - 1) {
        lemma_max_end_witness(d, n - 1);
    }
}

/// Decide whether the loader accepts this image: the header is sound and
/// every loadable segment can be mapped, in ascending page order.
pub fn elf_check(data: &[u8]) -> (r: bool)
    ensures
        r == elf_wf(data@),
{
    proof {
        vstd::slice::axiom_spec_len(data);
    }
    let ghost d = data@;
    let n = data.len();
    if n < 64 {
        return false;
    }
    if !(data[0] == 0x7f && data[1] == 0x45 && data[2] == 0x4c && data[3] == 0x46 && data[4] == 2
        && data[5] == 1) {
        return false;
    }
    if read_u16(data, 54) != 56 {
        return false;
    }
    let phoff = read_u64(data, 32);
    let phnum = read_u16(data, 56);
    if phoff > n as u64 || (56u64 * (phnum as u64)) > (n as u64) - phoff {
        return false;
    }
    if read_u64(data, 24) > usize::MAX as u64 {
        return false;
    }
    proof {
        assert(elf_header_wf(d));
    }
    let phoffu = phoff as usize;
    let mut last_end: usize = 0;
    let mut i: usize = 0;
    while i < phnum as usize
        invariant
            d == data@,
            elf_header_wf(d),
            n == d.len(),
            d.len() <= usize::MAX as int,
            phnum as int == elf_phnum(d),
            phoffu as int == elf_phoff(d),
            i <= phnum as usize,
            forall|i2: int| 0 <= i2 < i && is_load(d, i2) ==> #[trigger] seg_ok(d, i2),
            last_end as int == max_end_vpn_upto(d, i as int),
            forall|i2: int| 0 <= i2 < i && is_load(d, i2) ==> #[trigger] seg_end_vpn(d, i2)
                <= last_end as int,
            forall|a: int, b: int| 0 <= a < b < i && is_load(d, a) && is_load(d, b)
                ==> #[trigger] seg_end_vpn(d, a) <= #[trigger] seg_start_vpn(d, b),
        decreases phnum as usize - i,
    {
        let ghost gi = i as int;
        proof {
            vstd::arithmetic::mul::lemma_mul_inequality(gi + 1, phnum as int, 56);
            vstd::arithmetic::mul::lemma_mul_nonnegative(56, gi);
            assert(56 * (gi + 1) == 56 * gi + 56);
            assert((i * 56) as int == 56 * gi);
            assert(phoffu as int + 56 * gi + 56 <= d.len());
        }
        let pho = phoffu + i * 56;
        proof {
            assert(pho as int == ph_off(d, gi));
        }
        let ptype = read_u32(data, pho);
        if ptype == 1 {
            let offset = read_u64(data, pho + 8);
            let vaddr = read_u64(data, pho + 16);
            let filesz = read_u64(data, pho + 32);
            let memsz = read_u64(data, pho + 40);
            if offset > n as u64 || filesz > (n as u64) - offset {
                proof {
                    assert(!seg_ok(d, gi));
                }
                return false;
            }
            if vaddr > usize::MAX as u64 || memsz > (usize::MAX as u64) - vaddr {
                proof {
                    assert(!seg_ok(d, gi));
                }
                return false;
            }
            let vaddru = vaddr as usize;
            let memszu = memsz as usize;
            let fileszu = filesz as usize;
            proof {
                crate::address::lemma_vpn_order(vaddru as int, vaddru as int + memszu as int);
            }
            let start_vpn = crate::address::VirtAddr(vaddru).floor();
            let end_vpn = crate::address::VirtAddr(vaddru + memszu).ceil();
            let pages: usize = if fileszu == 0 {
                1
            } else {
                crate::address::VirtAddr(fileszu).ceil().0
            };
            if end_vpn.0 - start_vpn.0 < pages {
                proof {
                    assert(!seg_ok(d, gi));
                }
                return false;
            }
            let trapv = crate::config::TRAP_CONTEXT / PAGE_SIZE;
            if end_vpn.0 > trapv - 3 {
                proof {
                    assert(!seg_ok(d, gi));
                }
                return false;
            }
            if start_vpn.0 < last_end {
                proof {
                    lemma_max_end_witness(d, gi);
                    if last_end as int == 0 {
                        assert(false);
                    }
                    let j = choose|j: int|
                        0 <= j < gi && is_load(d, j) && #[trigger] seg_end_vpn(d, j)
                            == max_end_vpn_upto(d, gi);
                    assert(is_load(d, j) && is_load(d, gi) && seg_end_vpn(d, j) > seg_start_vpn(
                        d,
                        gi,
                    ));
                    assert(!segs_ordered(d));
                }
                return false;
            }
            proof {
                assert(seg_ok(d, gi));
                assert(max_end_vpn_upto(d, gi + 1) == seg_end_vpn(d, gi));
                assert forall|i2: int| 0 <= i2 < gi + 1 && is_load(d, i2) implies
                    #[trigger] seg_end_vpn(d, i2) <= end_vpn.0 as int by {
                    if i2 < gi {
                        assert(seg_end_vpn(d, i2) <= last_end as int);
                    }
                }
                assert forall|a: int, b: int| 0 <= a < b < gi + 1 && is_load(d, a) && is_load(
                    d,
                    b,
                ) implies #[trigger] seg_end_vpn(d, a) <= #[trigger] seg_start_vpn(d, b) by {
                    if b == gi {
                        assert(seg_end_vpn(d, a) <= last_end as int);
                    }
                }
            }
            last_end = end_vpn.0;
        } else {
            proof {
                assert(!is_load(d, gi));
                assert(max_end_vpn_upto(d, gi + 1) == max_end_vpn_upto(d, gi));
            }
        }
        i = i + 1;
    }
    proof {
        assert forall|i2: int| 0 <= i2 < elf_phnum(d) && is_load(d, i2) implies #[trigger] seg_ok(
            d,
            i2,
        ) by {}
        assert(segs_ordered(d));
        assert(elf_wf(d));
    }
    true
}

} // verus!
