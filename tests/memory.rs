use os4::address::{PhysPageNum, VirtAddr, VirtPageNum};
use os4::frame_allocator::StackFrameAllocator;
use os4::memory_set::{MapPermission, MemorySet, MAP_R, MAP_U, MAP_W};
use os4::page_table::{
    get_refmut, translated_byte_buffer, PTEFlags, PageTable, PageTableEntry, PhysSlice, PTE_R, PTE_U, PTE_V,
    PTE_W, PTE_X,
};

fn pool(n: u64) -> StackFrameAllocator {
    StackFrameAllocator::new(PhysPageNum(0x80000), PhysPageNum(0x80000 + n))
}

#[test]
fn indexes_split_nine_bits_each() {
    let vpn = VirtPageNum((3 << 18) | (5 << 9) | 7);
    assert_eq!(vpn.indexes(), [3, 5, 7]);
}

#[test]
fn floor_and_ceil_of_addresses() {
    assert_eq!(VirtAddr(0x1000).floor(), VirtPageNum(1));
    assert_eq!(VirtAddr(0x1000).ceil(), VirtPageNum(1));
    assert_eq!(VirtAddr(0x1001).floor(), VirtPageNum(1));
    assert_eq!(VirtAddr(0x1001).ceil(), VirtPageNum(2));
    assert_eq!(VirtAddr(0x1234).page_offset(), 0x234);
    assert!(VirtAddr(0x3000).aligned());
    assert!(!VirtAddr(0x3001).aligned());
}

#[test]
fn allocator_hands_out_distinct_frames_until_empty() {
    let mut a = pool(2);
    assert_eq!(a.available_frames(), 2);
    let f1 = a.frame_alloc().unwrap();
    let f2 = a.frame_alloc().unwrap();
    assert_ne!(f1.ppn, f2.ppn);
    assert!(a.frame_alloc().is_none());
    assert_eq!(a.available_frames(), 0);
}

#[test]
fn allocator_recycles_released_frames() {
    let mut a = pool(2);
    let f1 = a.frame_alloc().unwrap();
    let released = f1.ppn;
    a.frame_dealloc(f1);
    assert_eq!(a.available_frames(), 2);
    let again = a.frame_alloc().unwrap();
    assert_eq!(again.ppn, released);
}

#[test]
fn allocator_ignores_frame_that_is_not_out() {
    let mut a = pool(4);
    let f = a.frame_alloc().unwrap();
    let p = f.ppn;
    assert!(a.is_issued(p));
    a.frame_dealloc(f);
    assert!(!a.is_issued(p));
    a.frame_dealloc(os4::frame_allocator::FrameTracker { ppn: p });
    assert_eq!(a.available_frames(), 4);
    a.frame_dealloc(os4::frame_allocator::FrameTracker { ppn: PhysPageNum(0x90000) });
    assert_eq!(a.available_frames(), 4);
}

#[test]
fn entry_packs_page_number_above_flags() {
    let flags = PTEFlags::from_bits(PTE_V | PTE_R | PTE_W);
    let e = PageTableEntry::new(PhysPageNum(0x8_0123), flags);
    assert_eq!(e.bits, (0x8_0123u64 << 10) | 0b111);
    assert_eq!(e.ppn(), PhysPageNum(0x8_0123));
    assert_eq!(e.flags(), flags);
    assert!(e.is_valid());
    assert!(e.readable());
    assert!(e.writable());
    assert!(!e.executable());
}

#[test]
fn empty_entry_is_invalid() {
    let e = PageTableEntry::empty();
    assert_eq!(e.bits, 0);
    assert!(!e.is_valid());
    assert_eq!(e.flags(), PTEFlags::empty());
}

#[test]
fn flag_set_operations() {
    let rw = PTEFlags::from_bits(PTE_R).union(PTEFlags::from_bits(PTE_W));
    assert_eq!(rw.bits, PTE_R | PTE_W);
    assert!(rw.contains(PTEFlags::from_bits(PTE_R)));
    assert!(!rw.contains(PTEFlags::from_bits(PTE_X)));
}

#[test]
fn map_then_translate_gives_page_and_flags_with_valid() {
    let mut a = pool(16);
    let mut pt = PageTable::new(&mut a);
    let flags = PTEFlags::from_bits(PTE_R | PTE_U);
    pt.map(VirtPageNum(0x12345), PhysPageNum(0x8_1000), flags, &mut a);
    let e = pt.translate(VirtPageNum(0x12345)).unwrap();
    assert_eq!(e.ppn(), PhysPageNum(0x8_1000));
    assert_eq!(e.flags().bits, PTE_R | PTE_U | PTE_V);
    // the root and two intermediate tables
    assert_eq!(a.available_frames(), 13);
    // a page on the same path takes no table frame, even from an empty pool
    let mut empty = StackFrameAllocator::new(PhysPageNum(0x9_0000), PhysPageNum(0x9_0000));
    pt.map(VirtPageNum(0x12346), PhysPageNum(0x8_1001), flags, &mut empty);
    assert_eq!(pt.translate(VirtPageNum(0x12346)).unwrap().ppn(), PhysPageNum(0x8_1001));
}

#[test]
fn translate_of_unmapped_page_is_not_valid() {
    let mut a = pool(16);
    let mut pt = PageTable::new(&mut a);
    assert!(pt.translate(VirtPageNum(7)).is_none());
    pt.map(VirtPageNum(7), PhysPageNum(0x8_2000), PTEFlags::from_bits(PTE_R), &mut a);
    // same leaf table, other slot
    let e = pt.translate(VirtPageNum(8)).unwrap();
    assert!(!e.is_valid());
    // another root slot
    assert!(pt.translate(VirtPageNum(1 << 18)).is_none());
}

#[test]
fn second_page_in_same_leaf_table_takes_no_new_table() {
    let mut a = pool(16);
    let mut pt = PageTable::new(&mut a);
    pt.map(VirtPageNum(0x100), PhysPageNum(0x8_3000), PTEFlags::from_bits(PTE_R), &mut a);
    let left = a.available_frames();
    pt.map(VirtPageNum(0x101), PhysPageNum(0x8_3001), PTEFlags::from_bits(PTE_W), &mut a);
    assert_eq!(a.available_frames(), left);
    assert_eq!(pt.translate(VirtPageNum(0x100)).unwrap().ppn(), PhysPageNum(0x8_3000));
    assert_eq!(pt.translate(VirtPageNum(0x101)).unwrap().ppn(), PhysPageNum(0x8_3001));
}

#[test]
fn unmap_clears_only_that_page() {
    let mut a = pool(16);
    let mut pt = PageTable::new(&mut a);
    pt.map(VirtPageNum(0x200), PhysPageNum(0x8_4000), PTEFlags::from_bits(PTE_R), &mut a);
    pt.map(VirtPageNum(0x201), PhysPageNum(0x8_4001), PTEFlags::from_bits(PTE_R), &mut a);
    pt.unmap(VirtPageNum(0x200));
    assert_eq!(pt.translate(VirtPageNum(0x200)), Some(PageTableEntry::empty()));
    assert!(pt.translate(VirtPageNum(0x201)).unwrap().is_valid());
}

#[test]
fn token_holds_mode_and_root() {
    let mut a = pool(4);
    let pt = PageTable::new(&mut a);
    assert_eq!(pt.token(), (8u64 << 60) | 0x80000);
    assert_eq!(a.available_frames(), 3);
    assert_eq!(pt.translate(VirtPageNum(0)), None);
    assert_eq!(pt.translate(VirtPageNum(0x7ff_ffff)), None);
}

#[test]
fn byte_buffer_splits_at_page_boundaries() {
    let mut a = pool(16);
    let mut pt = PageTable::new(&mut a);
    pt.map(VirtPageNum(1), PhysPageNum(0x8_5000), PTEFlags::from_bits(PTE_R), &mut a);
    pt.map(VirtPageNum(2), PhysPageNum(0x8_6000), PTEFlags::from_bits(PTE_R), &mut a);
    let pieces = translated_byte_buffer(&pt, 0x1ff0, 0x20);
    assert_eq!(
        pieces,
        vec![
            PhysSlice { ppn: PhysPageNum(0x8_5000), start: 0xff0, end: 0x1000 },
            PhysSlice { ppn: PhysPageNum(0x8_6000), start: 0, end: 0x10 },
        ]
    );
}

#[test]
fn byte_buffer_of_whole_page_and_empty_range() {
    let mut a = pool(16);
    let mut pt = PageTable::new(&mut a);
    pt.map(VirtPageNum(3), PhysPageNum(0x8_7000), PTEFlags::from_bits(PTE_R), &mut a);
    let pieces = translated_byte_buffer(&pt, 0x3000, 0x1000);
    assert_eq!(pieces, vec![PhysSlice { ppn: PhysPageNum(0x8_7000), start: 0, end: 0x1000 }]);
    assert!(translated_byte_buffer(&pt, 0x3000, 0).is_empty());
}

#[test]
fn physical_address_of_user_pointer() {
    let mut a = pool(16);
    let mut pt = PageTable::new(&mut a);
    pt.map(VirtPageNum(5), PhysPageNum(0x8_8000), PTEFlags::from_bits(PTE_R), &mut a);
    assert_eq!(get_refmut(&pt, 0x5123), 0x8_8000u64 * 4096 + 0x123);
}

#[test]
fn framed_area_maps_every_page_with_user_bit() {
    let mut a = pool(32);
    let mut ms = MemorySet::new_bare(&mut a);
    ms.insert_framed_area(VirtAddr(0x10000), VirtAddr(0x12001), MapPermission { bits: MAP_R | MAP_W }, &mut a);
    for v in 0x10..0x13 {
        let e = ms.translate(VirtPageNum(v)).unwrap();
        assert!(e.is_valid());
        assert_eq!(e.flags().bits, MAP_R | MAP_W | PTE_V);
    }
    assert!(!matches!(ms.translate(VirtPageNum(0x13)), Some(e) if e.is_valid()));
    let _ = MAP_U;
}

#[test]
fn munmap_page_returns_its_frame() {
    let mut a = pool(32);
    let mut ms = MemorySet::new_bare(&mut a);
    ms.insert_framed_area(VirtAddr(0x10000), VirtAddr(0x11000), MapPermission { bits: MAP_R }, &mut a);
    let left = a.available_frames();
    ms.munmap(VirtPageNum(0x10), &mut a);
    assert_eq!(a.available_frames(), left + 1);
    assert!(!ms.translate(VirtPageNum(0x10)).unwrap().is_valid());
}
