use lib::mm::copy::{copy_from_user, copy_to_user};
use lib::mm::frame::{alloc_frame, init as frame_init, FrameAllocator};
use lib::mm::pagetable::{make_satp, map_one, map_range, translate, zero_table};
use lib::mm::phys::{read_byte, write_byte, PhysMem, PhysMemory};
use lib::mm::pte::{
    make_pte, pte_is_valid, pte_ppn, PTE_A, PTE_D, PTE_R, PTE_U, PTE_V, PTE_W, PTE_X,
};
use lib::mm::{align_down, align_up, init as mm_init, MEMORY_END, MEMORY_START, PAGE_SIZE};

const KFLAGS: u64 = PTE_V | PTE_R | PTE_W | PTE_X | PTE_A | PTE_D;

/// A fresh page table: a zeroed root frame taken from an allocator over `[start, end)`.
fn fresh(start: usize, end: usize) -> (PhysMem, FrameAllocator, usize) {
    let mut mem = PhysMem::new();
    let mut fa = frame_init(start, end);
    let root = alloc_frame(&mut fa, &mut mem).unwrap();
    zero_table(&mut mem, root);
    (mem, fa, root)
}

#[test]
fn align_down_rounds_to_page() {
    assert_eq!(align_down(0x1234, PAGE_SIZE), 0x1000);
    assert_eq!(align_down(0x2000, PAGE_SIZE), 0x2000);
    assert_eq!(align_down(0, PAGE_SIZE), 0);
    assert_eq!(align_down(0xfff, PAGE_SIZE), 0);
}

#[test]
fn align_up_rounds_to_page() {
    assert_eq!(align_up(0x1234, PAGE_SIZE), 0x2000);
    assert_eq!(align_up(0x2000, PAGE_SIZE), 0x2000);
    assert_eq!(align_up(0, PAGE_SIZE), 0);
    assert_eq!(align_up(1, PAGE_SIZE), 0x1000);
    assert_eq!(align_up(5, 8), 8);
}

#[test]
fn pte_fields() {
    let e = make_pte(0x8020_1234, PTE_V | PTE_R | PTE_U);
    assert_eq!(e, (0x80201u64 << 10) | 0x13);
    assert!(pte_is_valid(e));
    assert_eq!(pte_ppn(e), 0x80201);
    assert!(!pte_is_valid(make_pte(0x8020_0000, PTE_R)));
    assert_eq!(pte_ppn(0), 0);
}

#[test]
fn satp_for_sv39() {
    assert_eq!(make_satp(0x8020_0000), (8usize << 60) | 0x80200);
    assert_eq!(make_satp(0), 8usize << 60);
    assert_eq!(make_satp(0x8020_0fff), (8usize << 60) | 0x80200);
}

#[test]
fn frames_are_handed_out_in_order_and_zeroed() {
    let mut mem = PhysMem::new();
    mem.write_word(0x8000_1008, 0xdead_beef);
    let mut fa = frame_init(0x8000_0001, 0x8000_3000);
    assert_eq!(fa.start, 0x8000_1000);
    assert_eq!(fa.next, 0x8000_1000);
    assert_eq!(alloc_frame(&mut fa, &mut mem), Some(0x8000_1000));
    assert_eq!(mem.read_word(0x8000_1008), 0);
    assert_eq!(alloc_frame(&mut fa, &mut mem), Some(0x8000_2000));
    assert_eq!(alloc_frame(&mut fa, &mut mem), None);
    assert_eq!(fa.next, 0x8000_3000);
}

#[test]
fn bytes_are_little_endian_in_words() {
    let mut mem = PhysMem::new();
    mem.write_word(0x100, 0x0807_0605_0403_0201);
    assert_eq!(read_byte(&mem, 0x100), 0x01);
    assert_eq!(read_byte(&mem, 0x103), 0x04);
    assert_eq!(read_byte(&mem, 0x107), 0x08);
    write_byte(&mut mem, 0x102, 0xaa);
    assert_eq!(mem.read_word(0x100), 0x0807_0605_04aa_0201);
    assert_eq!(read_byte(&mem, 0x200), 0);
}

#[test]
fn map_one_then_translate() {
    let (mut mem, mut fa, root) = fresh(0x8010_0000, 0x8020_0000);
    assert_eq!(translate(&mem, root, 0x1_0000), None);
    map_one(&mut mem, &mut fa, root, 0x1_0000, 0x8030_0000, PTE_V | PTE_R | PTE_U);
    // Root, level-1 and level-0 tables: two new frames.
    assert_eq!(fa.next, 0x8010_3000);
    assert_eq!(translate(&mem, root, 0x1_0000), Some((0x8030_0000, PTE_V | PTE_R | PTE_U)));
    assert_eq!(translate(&mem, root, 0x1_0abc), Some((0x8030_0abc, PTE_V | PTE_R | PTE_U)));
    assert_eq!(translate(&mem, root, 0x1_1000), None);
    assert_eq!(translate(&mem, root, 0xf000), None);
    // A second page under the same tables needs no new frame.
    map_one(&mut mem, &mut fa, root, 0x1_1000, 0x8030_5000, PTE_V | PTE_R | PTE_W | PTE_U);
    assert_eq!(fa.next, 0x8010_3000);
    assert_eq!(translate(&mem, root, 0x1_1008), Some((0x8030_5008, PTE_V | PTE_R | PTE_W | PTE_U)));
    assert_eq!(translate(&mem, root, 0x1_0000), Some((0x8030_0000, PTE_V | PTE_R | PTE_U)));
    // Remapping a page replaces its leaf.
    map_one(&mut mem, &mut fa, root, 0x1_0000, 0x8040_0000, PTE_V | PTE_X);
    assert_eq!(translate(&mem, root, 0x1_0010), Some((0x8040_0010, PTE_V | PTE_X)));
}

#[test]
fn leaf_without_rwx_or_v_translates_to_nothing() {
    let (mut mem, mut fa, root) = fresh(0x8010_0000, 0x8020_0000);
    map_one(&mut mem, &mut fa, root, 0x5000, 0x8030_0000, PTE_V);
    assert_eq!(translate(&mem, root, 0x5000), None);
    map_one(&mut mem, &mut fa, root, 0x6000, 0x8030_0000, PTE_R | PTE_W);
    assert_eq!(translate(&mem, root, 0x6000), None);
}

#[test]
fn translation_ignores_bits_above_sv39() {
    let (mut mem, mut fa, root) = fresh(0x8010_0000, 0x8020_0000);
    map_one(&mut mem, &mut fa, root, 0x2000, 0x8030_0000, PTE_V | PTE_R);
    assert_eq!(translate(&mem, root, (1usize << 39) + 0x2004), Some((0x8030_0004, PTE_V | PTE_R)));
}

#[test]
fn map_range_maps_every_page_of_the_range() {
    let (mut mem, mut fa, root) = fresh(0x8010_0000, 0x8020_0000);
    map_range(&mut mem, &mut fa, root, 0x1_0800, 0x8050_0100, 0x2000, PTE_V | PTE_R | PTE_U);
    // [0x10800, 0x12800) covers the pages 0x10000, 0x11000 and 0x12000.
    assert_eq!(translate(&mem, root, 0x1_0000), Some((0x8050_0000, PTE_V | PTE_R | PTE_U)));
    assert_eq!(translate(&mem, root, 0x1_1234), Some((0x8050_1234, PTE_V | PTE_R | PTE_U)));
    assert_eq!(translate(&mem, root, 0x1_2fff), Some((0x8050_2fff, PTE_V | PTE_R | PTE_U)));
    assert_eq!(translate(&mem, root, 0x1_3000), None);
    assert_eq!(translate(&mem, root, 0xffff), None);
    assert_eq!(fa.next, 0x8010_3000);
}

#[test]
fn map_range_of_nothing_maps_nothing() {
    let (mut mem, mut fa, root) = fresh(0x8010_0000, 0x8020_0000);
    map_range(&mut mem, &mut fa, root, 0x4000, 0x8050_0000, 0, PTE_V | PTE_R);
    assert_eq!(translate(&mem, root, 0x4000), None);
    assert_eq!(fa.next, 0x8010_1000);
}

#[test]
fn kernel_space_identity_maps_dram() {
    let mut mem = PhysMem::new();
    let k = mm_init(&mut mem, 0x8020_0123);
    assert_eq!(k.kernel_root_pa(), 0x8020_1000);
    assert_eq!(k.kernel_satp(), (8usize << 60) | 0x80201);
    assert_eq!(k.frames.start, 0x8020_1000);
    assert_eq!(k.frames.end, MEMORY_END);
    // The root, one level-1 table and 64 level-0 tables.
    assert_eq!(k.frames.next, 0x8020_1000 + 66 * 4096);
    let root = k.kernel_root_pa();
    assert_eq!(translate(&mem, root, MEMORY_START), Some((MEMORY_START, KFLAGS)));
    assert_eq!(translate(&mem, root, 0x8123_4567), Some((0x8123_4567, KFLAGS)));
    assert_eq!(translate(&mem, root, MEMORY_END - 1), Some((MEMORY_END - 1, KFLAGS)));
    assert_eq!(translate(&mem, root, MEMORY_END), None);
    assert_eq!(translate(&mem, root, MEMORY_START - 1), None);
    assert_eq!(translate(&mem, root, 0x1_0000), None);
}

/// A table mapping user pages: 0x10000 readable, 0x11000 writable, 0x12000 readable and
/// writable, 0x13000 supervisor-only.
fn user_table() -> (PhysMem, FrameAllocator, usize) {
    let (mut mem, mut fa, root) = fresh(0x8010_0000, 0x8020_0000);
    map_one(&mut mem, &mut fa, root, 0x1_0000, 0x8030_0000, PTE_V | PTE_R | PTE_U);
    map_one(&mut mem, &mut fa, root, 0x1_1000, 0x8030_1000, PTE_V | PTE_W | PTE_U);
    map_one(&mut mem, &mut fa, root, 0x1_2000, 0x8030_2000, PTE_V | PTE_R | PTE_W | PTE_U);
    map_one(&mut mem, &mut fa, root, 0x1_3000, 0x8030_3000, PTE_V | PTE_R | PTE_W);
    (mem, fa, root)
}

#[test]
fn copy_from_user_reads_across_pages() {
    let (mut mem, _fa, root) = user_table();
    mem.write_word(0x8030_0ff8, 0x4847_4645_4443_4241);
    mem.write_word(0x8030_2000, 0x0000_0000_0000_6261);
    let mut buf = [0u8; 10];
    assert_eq!(copy_from_user(&mem, root, &mut buf, 0x1_0ff8), Err(()));
    // 0x11000 is not readable: only the first page's bytes were copied.
    assert_eq!(&buf, b"ABCDEFGH\0\0");
    let mut buf2 = [0u8; 2];
    assert_eq!(copy_from_user(&mem, root, &mut buf2, 0x1_2000), Ok(()));
    assert_eq!(&buf2, b"ab");
}

#[test]
fn copy_from_user_refuses_supervisor_and_unmapped_pages() {
    let (mem, _fa, root) = user_table();
    let mut buf = [7u8; 4];
    assert_eq!(copy_from_user(&mem, root, &mut buf, 0x1_3000), Err(()));
    assert_eq!(buf, [7u8; 4]);
    assert_eq!(copy_from_user(&mem, root, &mut buf, 0x9_0000), Err(()));
    let mut empty: [u8; 0] = [];
    assert_eq!(copy_from_user(&mem, root, &mut empty, 0x9_0000), Ok(()));
}

#[test]
fn copy_to_user_then_from_user_gives_back_the_bytes() {
    let (mut mem, _fa, root) = user_table();
    let data: Vec<u8> = (0..300u32).map(|i| (i % 251) as u8).collect();
    assert_eq!(copy_to_user(&mut mem, root, 0x1_2f80, &data[..256]), Err(()));
    assert_eq!(copy_to_user(&mut mem, root, 0x1_2e00, &data[..256]), Ok(()));
    let mut back = vec![0u8; 256];
    assert_eq!(copy_from_user(&mem, root, &mut back, 0x1_2e00), Ok(()));
    assert_eq!(&back[..], &data[..256]);
    assert_eq!(read_byte(&mem, 0x8030_2e00), data[0]);
}

#[test]
fn copy_to_user_needs_write_permission() {
    let (mut mem, _fa, root) = user_table();
    assert_eq!(copy_to_user(&mut mem, root, 0x1_0000, b"xy"), Err(()));
    assert_eq!(read_byte(&mem, 0x8030_0000), 0);
    assert_eq!(copy_to_user(&mut mem, root, 0x1_3000, b"xy"), Err(()));
    // 0x11000 is writable but not readable: the copy goes through.
    assert_eq!(copy_to_user(&mut mem, root, 0x1_1ffe, b"xy"), Ok(()));
    assert_eq!(read_byte(&mem, 0x8030_1fff), b'y');
}

#[test]
fn copy_to_user_stops_at_the_first_bad_page() {
    let (mut mem, _fa, root) = user_table();
    assert_eq!(copy_to_user(&mut mem, root, 0x1_2ffe, b"abcd"), Err(()));
    assert_eq!(read_byte(&mem, 0x8030_2ffe), b'a');
    assert_eq!(read_byte(&mem, 0x8030_2fff), b'b');
    assert_eq!(read_byte(&mem, 0x8030_3000), 0);
}

#[test]
fn map_range_of_nothing_at_an_unaligned_address_maps_nothing() {
    let (mut mem, mut fa, root) = fresh(0x8010_0000, 0x8020_0000);
    map_range(&mut mem, &mut fa, root, 0x4321, 0x8050_0000, 0, PTE_V | PTE_R);
    assert_eq!(translate(&mem, root, 0x4000), None);
    assert_eq!(translate(&mem, root, 0x4321), None);
    assert_eq!(fa.next, 0x8010_1000);
}

#[test]
fn megapage_leaf_keeps_the_offset_in_its_2_mib_page() {
    let mut mem = PhysMem::new();
    let root = 0x8000_0000usize;
    let l1 = 0x8000_1000usize;
    // Root entry 2 points to the level-1 table; its entry 1 is a 2 MiB leaf at 0x8020_0000.
    mem.write_word(root + 8 * 2, ((l1 as u64 >> 12) << 10) | PTE_V);
    mem.write_word(l1 + 8 * 1, (0x80200u64 << 10) | PTE_V | PTE_R | PTE_W);
    assert_eq!(translate(&mem, root, 0x8020_1234), Some((0x8020_1234, PTE_V | PTE_R | PTE_W)));
    assert_eq!(translate(&mem, root, 0x803f_fff8), Some((0x803f_fff8, PTE_V | PTE_R | PTE_W)));
    assert_eq!(translate(&mem, root, 0x8040_0000), None);
}

#[test]
fn gigapage_leaf_keeps_the_offset_in_its_1_gib_page() {
    let mut mem = PhysMem::new();
    let root = 0x8000_0000usize;
    // Root entry 2 is a 1 GiB leaf at 0x8000_0000.
    mem.write_word(root + 8 * 2, (0x80000u64 << 10) | PTE_V | PTE_R | PTE_X);
    assert_eq!(translate(&mem, root, 0x8012_3456), Some((0x8012_3456, PTE_V | PTE_R | PTE_X)));
    assert_eq!(translate(&mem, root, 0xbfff_ffff), Some((0xbfff_ffff, PTE_V | PTE_R | PTE_X)));
    assert_eq!(translate(&mem, root, 0x7fff_ffff), None);
}
