use memory_set::address::{PhysPageNum, VirtAddr, VirtPageNum};
use memory_set::config::{PAGE_SIZE, TRAMPOLINE, TRAP_CONTEXT, USER_STACK_SIZE};
use memory_set::elf::elf_check;
use memory_set::memory_set::MemorySet;

fn put_u16(image: &mut Vec<u8>, off: usize, v: u16) {
    image[off] = (v & 0xff) as u8;
    image[off + 1] = (v >> 8) as u8;
}

fn put_u64(image: &mut Vec<u8>, off: usize, v: u64) {
    for k in 0..8 {
        image[off + k] = ((v >> (8 * k)) & 0xff) as u8;
    }
}

fn put_u32(image: &mut Vec<u8>, off: usize, v: u32) {
    for k in 0..4 {
        image[off + k] = ((v >> (8 * k)) & 0xff) as u8;
    }
}

/// A minimal 64-bit little-endian image: one loadable segment of one page
/// with read+execute flags and 100 bytes of content.
fn one_segment_image() -> Vec<u8> {
    let mut image = vec![0u8; 220];
    image[0] = 0x7f;
    image[1] = 0x45;
    image[2] = 0x4c;
    image[3] = 0x46;
    image[4] = 2; // 64-bit
    image[5] = 1; // little-endian
    put_u64(&mut image, 24, 0x1_0000); // entry
    put_u64(&mut image, 32, 64); // program-header table offset
    put_u16(&mut image, 54, 56); // program-header size
    put_u16(&mut image, 56, 1); // one program header
    // the program header, at offset 64
    put_u32(&mut image, 64, 1); // loadable
    put_u32(&mut image, 68, 0b101); // read + execute
    put_u64(&mut image, 72, 120); // content offset in the file
    put_u64(&mut image, 80, 0x1_0000); // virtual address
    put_u64(&mut image, 96, 100); // content size in the file
    put_u64(&mut image, 104, 100); // size in memory
    for k in 0..100 {
        image[120 + k] = (k + 1) as u8;
    }
    image
}

#[test]
fn loading_one_page_segment_yields_three_regions_and_the_declared_entry() {
    let image = one_segment_image();
    assert!(elf_check(&image));
    let (ms, user_sp, entry) =
        MemorySet::from_elf_checked(&image, PhysPageNum(0x1234)).expect("image accepted");
    assert_eq!(entry, 0x1_0000);
    // segment region, user stack region, trap context region
    assert_eq!(ms.area_count(), 3);
    // the single segment page is mapped read+execute+user, not writable
    let seg_page = VirtPageNum(0x10);
    let pte = ms.translate(seg_page).expect("segment page mapped");
    assert!(pte.readable() && pte.executable() && !pte.writable());
    // the guard page above the segment stays unmapped
    assert!(ms.translate(VirtPageNum(0x11)).is_none());
    // the user stack sits above the guard page; the returned stack pointer
    // is its top
    assert_eq!(user_sp, 0x12 * PAGE_SIZE + USER_STACK_SIZE);
    for page in 0x12..0x14usize {
        let pte = ms.translate(VirtPageNum(page)).expect("stack page mapped");
        assert!(pte.readable() && pte.writable() && !pte.executable());
    }
    assert!(ms.translate(VirtPageNum(0x14)).is_none());
    // the trap context page sits below the trampoline, not user-accessible
    let trap_page = VirtAddr(TRAP_CONTEXT).floor();
    let pte = ms.translate(trap_page).expect("trap context mapped");
    assert!(pte.readable() && pte.writable());
    // the trampoline is mapped at the very top with the supplied frame
    let tramp_page = VirtAddr(TRAMPOLINE).floor();
    let pte = ms.translate(tramp_page).expect("trampoline mapped");
    assert!(pte.readable() && pte.executable() && !pte.writable());
    assert_eq!(pte.ppn().0, 0x1234);
}

#[test]
fn segment_content_is_copied_and_the_tail_stays_zero() {
    let image = one_segment_image();
    let (ms, _, _) = MemorySet::from_elf_checked(&image, PhysPageNum(1)).expect("image accepted");
    let seg_page = VirtPageNum(0x10);
    for k in 0..100usize {
        assert_eq!(ms.read_byte(seg_page, k), Some((k + 1) as u8));
    }
    // bytes past the file content keep the frame's zero fill
    assert_eq!(ms.read_byte(seg_page, 100), Some(0));
    assert_eq!(ms.read_byte(seg_page, PAGE_SIZE - 1), Some(0));
}

#[test]
fn images_with_a_bad_magic_or_truncated_header_are_rejected() {
    let mut image = one_segment_image();
    image[0] = 0x7e;
    assert!(!elf_check(&image));
    assert!(MemorySet::from_elf_checked(&image, PhysPageNum(1)).is_none());
    let short = vec![0x7fu8, 0x45, 0x4c, 0x46];
    assert!(!elf_check(&short));
    assert!(MemorySet::from_elf_checked(&short, PhysPageNum(1)).is_none());
    // a 32-bit class byte is rejected too
    let mut image32 = one_segment_image();
    image32[4] = 1;
    assert!(!elf_check(&image32));
}

#[test]
fn truncated_segment_content_is_rejected() {
    let mut image = one_segment_image();
    // the declared content overruns the file
    put_u64(&mut image, 96, 500);
    assert!(!elf_check(&image));
    assert!(MemorySet::from_elf_checked(&image, PhysPageNum(1)).is_none());
}

#[test]
fn duplicating_a_loaded_space_copies_the_segment_bytes() {
    let image = one_segment_image();
    let (src, _, _) = MemorySet::from_elf_checked(&image, PhysPageNum(7)).expect("image accepted");
    let dup = MemorySet::from_existed_user(&src);
    let seg_page = VirtPageNum(0x10);
    for k in [0usize, 1, 50, 99] {
        assert_eq!(dup.read_byte(seg_page, k), src.read_byte(seg_page, k));
    }
    let pte = dup.translate(seg_page).expect("segment page mapped in the copy");
    assert!(pte.readable() && pte.executable() && !pte.writable());
    assert_eq!(dup.area_count(), src.area_count());
}
