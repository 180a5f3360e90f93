use memory_set::address::{VirtAddr, VirtPageNum};
use memory_set::config::{MEMORY_END, PAGE_SIZE, TRAMPOLINE};
use memory_set::memory_set::{
    mmap, munmap, remap_test, KernelLayout, MapPermission, MemorySet,
};

fn prot_rw() -> usize {
    0b011
}

#[test]
fn mmap_maps_every_page_with_requested_permission() {
    let mut ms = MemorySet::new_bare();
    let start = 0x10_0000usize;
    let end = 0x10_3000usize;
    assert_eq!(ms.mmap(start, end, prot_rw()), 0);
    for page in 0x100..0x103usize {
        let pte = ms.translate(VirtPageNum(page)).expect("page must be mapped");
        assert!(pte.is_valid());
        assert!(pte.readable());
        assert!(pte.writable());
        assert!(!pte.executable());
    }
    assert!(ms.translate(VirtPageNum(0x103)).is_none());
    assert!(ms.translate(VirtPageNum(0xff)).is_none());
}

#[test]
fn mmap_rounds_partial_pages_outward() {
    let mut ms = MemorySet::new_bare();
    assert_eq!(ms.mmap(0x5800, 0x6801, 0b001), 0);
    // floor(0x5800) = page 5, ceil(0x6801) = page 7
    assert!(ms.translate(VirtPageNum(5)).is_some());
    assert!(ms.translate(VirtPageNum(6)).is_some());
    assert!(ms.translate(VirtPageNum(7)).is_none());
}

#[test]
fn munmap_removes_every_translation_in_range() {
    let mut ms = MemorySet::new_bare();
    assert_eq!(ms.mmap(0x10_0000, 0x10_2000, prot_rw()), 0);
    assert_eq!(ms.mmap(0x10_2000, 0x10_5000, 0b101), 0);
    assert_eq!(ms.munmap(0x10_0000, 0x10_5000), 0);
    for page in 0x100..0x105usize {
        assert!(ms.translate(VirtPageNum(page)).is_none());
    }
    assert_eq!(ms.area_count(), 0);
}

#[test]
fn overlapping_mmap_fails_and_keeps_first_mapping() {
    let mut ms = MemorySet::new_bare();
    assert_eq!(ms.mmap(0x20_0000, 0x20_3000, prot_rw()), 0);
    // overlaps the tail of the first mapping
    assert_eq!(ms.mmap(0x20_2000, 0x20_4000, prot_rw()), -1);
    for page in 0x200..0x203usize {
        let pte = ms.translate(VirtPageNum(page)).expect("first mapping intact");
        assert!(pte.readable() && pte.writable());
    }
    assert!(ms.translate(VirtPageNum(0x203)).is_none());
    assert_eq!(ms.area_count(), 1);
}

#[test]
fn munmap_of_partially_covered_range_fails_and_changes_nothing() {
    let mut ms = MemorySet::new_bare();
    assert_eq!(ms.mmap(0x30_0000, 0x30_2000, prot_rw()), 0);
    // the requested range extends one page past the mapped region
    assert_eq!(ms.munmap(0x30_0000, 0x30_3000), -1);
    assert!(ms.translate(VirtPageNum(0x300)).is_some());
    assert!(ms.translate(VirtPageNum(0x301)).is_some());
    assert_eq!(ms.area_count(), 1);
    // a range cutting a region in half is not supported either
    assert_eq!(ms.munmap(0x30_0000, 0x30_1000), -1);
    assert!(ms.translate(VirtPageNum(0x300)).is_some());
}

#[test]
fn munmap_needs_whole_regions_that_tile_the_range() {
    let mut ms = MemorySet::new_bare();
    assert_eq!(ms.mmap(0x40_0000, 0x40_1000, prot_rw()), 0);
    assert_eq!(ms.mmap(0x40_2000, 0x40_3000, prot_rw()), 0);
    // the hole between the two regions fails the coverage check
    assert_eq!(ms.munmap(0x40_0000, 0x40_3000), -1);
    assert!(ms.translate(VirtPageNum(0x400)).is_some());
    // each whole region alone unmaps fine
    assert_eq!(ms.munmap(0x40_0000, 0x40_1000), 0);
    assert_eq!(ms.munmap(0x40_2000, 0x40_3000), 0);
    assert!(ms.translate(VirtPageNum(0x400)).is_none());
    assert!(ms.translate(VirtPageNum(0x402)).is_none());
}

#[test]
fn syscall_wrappers_validate_arguments() {
    let mut ms = MemorySet::new_bare();
    // zero length is a trivial success
    assert_eq!(mmap(&mut ms, 0x1000, 0, 0b111), 0);
    assert_eq!(munmap(&mut ms, 0x1000, 0), 0);
    // protection bits above bit 2, or no bits at all, are rejected
    assert_eq!(mmap(&mut ms, 0x1000, PAGE_SIZE, 0b1000), -1);
    assert_eq!(mmap(&mut ms, 0x1000, PAGE_SIZE, 0), -1);
    // unaligned start is rejected
    assert_eq!(mmap(&mut ms, 0x1001, PAGE_SIZE, 0b011), -1);
    assert_eq!(munmap(&mut ms, 0x1001, PAGE_SIZE), -1);
    // a valid request goes through
    assert_eq!(mmap(&mut ms, 0x1000, PAGE_SIZE, 0b011), 0);
    assert!(ms.translate(VirtPageNum(1)).is_some());
    assert_eq!(munmap(&mut ms, 0x1000, PAGE_SIZE), 0);
    assert!(ms.translate(VirtPageNum(1)).is_none());
}

#[test]
fn insert_and_remove_area_by_start_page() {
    let mut ms = MemorySet::new_bare();
    let perm = MapPermission { r: true, w: true, x: false, u: false };
    ms.insert_framed_area(VirtAddr(0x7000), VirtAddr(0x9000), perm);
    assert!(ms.translate(VirtPageNum(7)).is_some());
    assert!(ms.translate(VirtPageNum(8)).is_some());
    // no region starts at page 8: nothing happens
    ms.remove_area_with_start_vpn(VirtPageNum(8));
    assert!(ms.translate(VirtPageNum(8)).is_some());
    ms.remove_area_with_start_vpn(VirtPageNum(7));
    assert!(ms.translate(VirtPageNum(7)).is_none());
    assert!(ms.translate(VirtPageNum(8)).is_none());
    assert_eq!(ms.area_count(), 0);
}

#[test]
fn recycle_data_pages_drops_regions_but_keeps_the_table() {
    let mut ms = MemorySet::new_bare();
    assert_eq!(ms.mmap(0x50_0000, 0x50_2000, prot_rw()), 0);
    let token = ms.token();
    ms.recycle_data_pages();
    assert_eq!(ms.area_count(), 0);
    assert_eq!(ms.token(), token);
}

#[test]
fn duplicated_space_has_identical_bytes_and_independent_frames() {
    let mut src = MemorySet::new_bare();
    assert_eq!(src.mmap(0x60_0000, 0x60_2000, prot_rw()), 0);
    let vpn = VirtPageNum(0x600);
    assert!(src.write_byte(vpn, 0, 0xab));
    assert!(src.write_byte(vpn, 17, 0xcd));
    let mut dup = MemorySet::from_existed_user(&src);
    // byte-identical at the moment of duplication
    assert_eq!(dup.read_byte(vpn, 0), Some(0xab));
    assert_eq!(dup.read_byte(vpn, 17), Some(0xcd));
    assert_eq!(dup.read_byte(vpn, 18), Some(0));
    // same ranges and permissions
    let pte = dup.translate(vpn).expect("duplicated page mapped");
    assert!(pte.readable() && pte.writable() && !pte.executable());
    // mutating the copy never affects the source
    assert!(dup.write_byte(vpn, 0, 0x11));
    assert_eq!(src.read_byte(vpn, 0), Some(0xab));
    // and mutating the source never affects the copy
    assert!(src.write_byte(vpn, 17, 0x22));
    assert_eq!(dup.read_byte(vpn, 17), Some(0xcd));
}

fn test_layout() -> KernelLayout {
    KernelLayout {
        stext: 0x8020_0000,
        etext: 0x8020_3000,
        srodata: 0x8020_4000,
        erodata: 0x8020_5000,
        sdata: 0x8020_6000,
        edata: 0x8020_7000,
        sbss_with_stack: 0x8020_8000,
        ebss: 0x8021_0000,
        ekernel: 0x8022_0000,
        strampoline: 0x8020_0000,
    }
}

#[test]
fn kernel_space_sections_have_section_permissions() {
    let layout = test_layout();
    let ks = MemorySet::new_kernel(&layout);
    assert!(remap_test(&ks, &layout));
    // the middle of .text is identity-mapped, executable and not writable
    let mid_text = VirtAddr(layout.stext + (layout.etext - layout.stext) / 2).floor();
    let pte = ks.translate(mid_text).expect(".text mapped");
    assert!(!pte.writable());
    assert!(pte.executable());
    assert_eq!(pte.ppn().0, mid_text.0);
    // the middle of .data is writable and not executable
    let mid_data = VirtAddr(layout.sdata + (layout.edata - layout.sdata) / 2).floor();
    let pte = ks.translate(mid_data).expect(".data mapped");
    assert!(pte.writable());
    assert!(!pte.executable());
    // physical memory up to the ceiling is mapped read-write
    let last = VirtPageNum(MEMORY_END / PAGE_SIZE - 1);
    let pte = ks.translate(last).expect("physical memory mapped");
    assert!(pte.readable() && pte.writable() && !pte.executable());
    assert!(ks.translate(VirtPageNum(MEMORY_END / PAGE_SIZE)).is_none());
    // the trampoline is mapped read-execute in every space
    let tramp = VirtAddr(TRAMPOLINE).floor();
    let pte = ks.translate(tramp).expect("trampoline mapped");
    assert!(pte.readable() && pte.executable() && !pte.writable());
    assert_eq!(ks.area_count(), 5);
}

#[test]
fn trampoline_is_never_unmapped_by_munmap() {
    let layout = test_layout();
    let mut ks = MemorySet::new_kernel(&layout);
    // a munmap over space with no whole contained regions fails and the
    // trampoline, which is no region at all, stays mapped
    assert_eq!(ks.munmap(0x9000_0000, 0x9010_0000), -1);
    let tramp = VirtAddr(TRAMPOLINE).floor();
    assert!(ks.translate(tramp).is_some());
}
