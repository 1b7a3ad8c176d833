use os_kernel::config::{PPN_LIMIT, VPN_LIMIT};
use os_kernel::mm::address::{VirtAddr, VirtPageNum};
use os_kernel::mm::frame_allocator::FrameAllocator;
use os_kernel::mm::image::ProgramImage;
use os_kernel::mm::loader::segment_perm;
use os_kernel::mm::memory_set::{AccessError, MapArea, MapPermission, MapType, MemorySet};
use os_kernel::mm::page_table::{MapError, PageTable, PageTableEntry};
use os_kernel::mm::phys_mem::PhysMem;

fn put16(v: &mut Vec<u8>, at: usize, x: u16) {
    v[at..at + 2].copy_from_slice(&x.to_le_bytes());
}

fn put32(v: &mut Vec<u8>, at: usize, x: u32) {
    v[at..at + 4].copy_from_slice(&x.to_le_bytes());
}

fn put64(v: &mut Vec<u8>, at: usize, x: u64) {
    v[at..at + 8].copy_from_slice(&x.to_le_bytes());
}

/// An image with the given entry point and segments `(vaddr, mem_size, flags, bytes)`.
fn image(entry: u64, segs: &[(u64, u64, u32, Vec<u8>)]) -> Vec<u8> {
    let mut v = vec![0u8; 64 + 56 * segs.len()];
    v[0] = 0x7f;
    v[1] = b'E';
    v[2] = b'L';
    v[3] = b'F';
    put64(&mut v, 24, entry);
    put64(&mut v, 32, 64);
    put16(&mut v, 54, 56);
    put16(&mut v, 56, segs.len() as u16);
    for (i, (vaddr, mem_size, flags, bytes)) in segs.iter().enumerate() {
        let base = 64 + 56 * i;
        let offset = v.len() as u64;
        put32(&mut v, base, 1);
        put32(&mut v, base + 4, *flags);
        put64(&mut v, base + 8, offset);
        put64(&mut v, base + 16, *vaddr);
        put64(&mut v, base + 32, bytes.len() as u64);
        put64(&mut v, base + 40, *mem_size);
        v.extend_from_slice(bytes);
    }
    v
}

#[test]
fn phys_mem_starts_zeroed_and_keeps_bytes_apart() {
    let mut mem = PhysMem::new(4);
    assert_eq!(mem.len(), 4);
    assert_eq!(mem.read_byte(3, 4095), 0);
    mem.write_byte(2, 7, 0xab);
    assert_eq!(mem.read_byte(2, 7), 0xab);
    assert_eq!(mem.read_byte(2, 6), 0);
    assert_eq!(mem.read_byte(1, 7), 0);
}

#[test]
fn phys_mem_words_are_little_endian() {
    let mut mem = PhysMem::new(2);
    mem.write_word(1, 3, 0x0102_0304_0506_0708);
    assert_eq!(mem.read_word(1, 3), 0x0102_0304_0506_0708);
    assert_eq!(mem.read_byte(1, 24), 0x08);
    assert_eq!(mem.read_byte(1, 31), 0x01);
    assert_eq!(mem.read_word(1, 2), 0);
    assert_eq!(mem.read_word(1, 4), 0);
}

#[test]
fn phys_mem_copy_and_clear_frame() {
    let mut mem = PhysMem::new(3);
    mem.write_byte(0, 5, 9);
    mem.write_byte(0, 4000, 8);
    mem.copy_frame(0, 2);
    assert_eq!(mem.read_byte(2, 5), 9);
    assert_eq!(mem.read_byte(2, 4000), 8);
    mem.clear_frame(0);
    assert_eq!(mem.read_byte(0, 5), 0);
    assert_eq!(mem.read_byte(2, 5), 9);
}

#[test]
fn frame_allocator_counts_and_recycles() {
    let mut fa = FrameAllocator::new(8, 2);
    assert_eq!(fa.available(), 6);
    assert_eq!(fa.first_frame(), 2);
    let a = fa.allocate().unwrap();
    let b = fa.allocate().unwrap();
    assert_eq!((a, b), (2, 3));
    assert_eq!(fa.available(), 4);
    fa.write_byte(a, 1, 0x55);
    fa.free(a);
    assert_eq!(fa.available(), 5);
    // the frame given back last is handed out next, zeroed
    let c = fa.allocate().unwrap();
    assert_eq!(c, a);
    assert_eq!(fa.read_byte(c, 1), 0);
}

#[test]
fn frame_allocator_signals_exhaustion() {
    let mut fa = FrameAllocator::new(3, 1);
    assert!(fa.allocate().is_some());
    assert!(fa.allocate().is_some());
    assert_eq!(fa.allocate(), None);
    assert_eq!(fa.available(), 0);
}

#[test]
fn page_table_entry_fields() {
    let e = PageTableEntry::new(0x1234, 0b1_0111);
    assert_eq!(e.bits, (0x1234 << 10) | 0b1_0111);
    assert_eq!(e.ppn(), 0x1234);
    assert_eq!(e.flags(), 0b1_0111);
    assert!(e.is_valid());
    assert!(e.readable());
    assert!(e.writable());
    assert!(!e.executable());
    assert!(e.user());
    assert!(!PageTableEntry::empty().is_valid());
    assert_eq!(PageTableEntry::new(PPN_LIMIT - 1, 1).ppn(), PPN_LIMIT - 1);
}

#[test]
fn page_table_map_translate_unmap() {
    let mut fa = FrameAllocator::new(16, 1);
    let mut pt = PageTable::new(&mut fa).unwrap();
    assert_eq!(fa.available(), 14);
    assert_eq!(pt.translate(&fa, 5), None);
    // the first mapping adds two nodes
    assert_eq!(pt.map(&mut fa, 5, 9, 0b110), Ok(()));
    assert_eq!(fa.available(), 12);
    let e = pt.translate(&fa, 5).unwrap();
    assert_eq!(e.ppn(), 9);
    assert_eq!(e.flags(), 0b111);
    // a page under the same last node adds none
    assert_eq!(pt.map(&mut fa, 6, 10, 0b10), Ok(()));
    assert_eq!(fa.available(), 12);
    // a page far away adds two again
    assert_eq!(pt.map(&mut fa, VPN_LIMIT - 1, 11, 0b10), Ok(()));
    assert_eq!(fa.available(), 10);
    assert_eq!(pt.map(&mut fa, 5, 12, 0b10), Err(MapError::AlreadyMapped));
    assert_eq!(pt.translate(&fa, 5).unwrap().ppn(), 9);
    assert!(pt.unmap(&mut fa, 5));
    assert_eq!(pt.translate(&fa, 5), None);
    assert!(!pt.unmap(&mut fa, 5));
    assert_eq!(pt.translate(&fa, 6).unwrap().ppn(), 10);
    // nodes stay until the table is given up
    assert_eq!(fa.available(), 10);
    pt.release(&mut fa);
    assert_eq!(fa.available(), 15);
}

#[test]
fn page_table_runs_out_of_frames() {
    let mut fa = FrameAllocator::new(3, 1);
    let mut pt = PageTable::new(&mut fa).unwrap();
    assert_eq!(fa.available(), 1);
    assert_eq!(pt.map(&mut fa, 0, 0, 0b10), Err(MapError::OutOfFrames));
    let mut none = FrameAllocator::new(1, 1);
    assert!(PageTable::new(&mut none).is_none());
}

#[test]
fn page_table_view_from_token() {
    let mut fa = FrameAllocator::new(16, 1);
    let mut pt = PageTable::new(&mut fa).unwrap();
    assert_eq!(pt.map(&mut fa, 77, 3, 0b10), Ok(()));
    let token = pt.token();
    assert_eq!(token, (8u64 << 60) | pt.root_ppn());
    let view = PageTable::from_token(token);
    assert_eq!(view.root_ppn(), pt.root_ppn());
    assert_eq!(view.translate(&fa, 77).unwrap().ppn(), 3);
    assert_eq!(view.translate(&fa, 78), None);
}

#[test]
fn virt_addr_rounding() {
    assert_eq!(VirtAddr(0).floor(), VirtPageNum(0));
    assert_eq!(VirtAddr(0).ceil(), VirtPageNum(0));
    assert_eq!(VirtAddr(4095).floor(), VirtPageNum(0));
    assert_eq!(VirtAddr(4095).ceil(), VirtPageNum(1));
    assert_eq!(VirtAddr(4096).floor(), VirtPageNum(1));
    assert_eq!(VirtAddr(4096).ceil(), VirtPageNum(1));
    assert_eq!(VirtAddr(4097).page_offset(), 1);
    assert!(VirtAddr(8192).aligned());
    assert!(!VirtAddr(8193).aligned());
    assert_eq!(VirtPageNum(3).start_addr(), VirtAddr(12288));
}

#[test]
fn map_permission_from_bits() {
    assert_eq!(MapPermission::from_bits(0b1_1111), Some(MapPermission { bits: 0b1_1111 }));
    assert_eq!(MapPermission::from_bits(0), Some(MapPermission { bits: 0 }));
    assert_eq!(MapPermission::from_bits(0b10_0000), None);
    assert_eq!(MapPermission::from_bits(0x80), None);
}

#[test]
fn memory_set_insert_and_overlap() {
    let mut fa = FrameAllocator::new(32, 1);
    let mut ms = MemorySet::new_bare(&mut fa).unwrap();
    let perm = MapPermission { bits: 0b1_0110 };
    assert_eq!(ms.insert_framed_area(&mut fa, VirtAddr(0x10000), VirtAddr(0x12001), perm), Ok(()));
    // three pages, two nodes
    assert_eq!(fa.available(), 31 - 1 - 5);
    assert_eq!(ms.area_count(), 1);
    for vpn in 0x10..0x13u64 {
        let e = ms.translate(&fa, VirtPageNum(vpn)).unwrap();
        assert_eq!(e.flags(), 0b1_0111);
        assert!(e.ppn() >= 1);
    }
    assert_eq!(ms.translate(&fa, VirtPageNum(0x13)), None);
    let before = fa.available();
    assert_eq!(
        ms.insert_framed_area(&mut fa, VirtAddr(0x12000), VirtAddr(0x14000), perm),
        Err(MapError::AlreadyMapped)
    );
    assert_eq!(fa.available(), before);
    assert_eq!(ms.area_count(), 1);
    assert_eq!(ms.translate(&fa, VirtPageNum(0x13)), None);
    assert!(ms.is_range_free(&fa, 0x13, 0x20));
    assert!(!ms.is_range_free(&fa, 0x12, 0x20));
}

#[test]
fn memory_set_runs_out_of_frames() {
    let mut fa = FrameAllocator::new(5, 1);
    let mut ms = MemorySet::new_bare(&mut fa).unwrap();
    // two pages cost two nodes and two frames; three frames are left
    let perm = MapPermission { bits: 0b110 };
    assert_eq!(
        ms.insert_framed_area(&mut fa, VirtAddr(0), VirtAddr(8192), perm),
        Err(MapError::OutOfFrames)
    );
}

#[test]
fn memory_set_bytes_through_the_page_table() {
    let mut fa = FrameAllocator::new(32, 1);
    let mut ms = MemorySet::new_bare(&mut fa).unwrap();
    let perm = MapPermission { bits: 0b1_0110 };
    assert_eq!(ms.insert_framed_area(&mut fa, VirtAddr(0x4000), VirtAddr(0x6000), perm), Ok(()));
    assert_eq!(ms.read_byte(&fa, VirtAddr(0x4000)), Some(0));
    assert_eq!(ms.read_byte(&fa, VirtAddr(0x6000)), None);
    // a write across the page boundary lands in two frames
    let data = vec![1u8, 2, 3, 4, 5, 6];
    assert!(ms.write_bytes(&mut fa, VirtAddr(0x4ffd), &data, 1, 5));
    assert_eq!(ms.read_bytes(&fa, VirtAddr(0x4ffc), 7), Some(vec![0, 2, 3, 4, 5, 6, 0]));
    let p0 = ms.translate(&fa, VirtPageNum(4)).unwrap().ppn();
    let p1 = ms.translate(&fa, VirtPageNum(5)).unwrap().ppn();
    assert_ne!(p0, p1);
    assert_eq!(fa.read_byte(p0, 4095), 4);
    assert_eq!(fa.read_byte(p1, 0), 5);
    // nothing is written when a page of the range is not mapped
    assert!(!ms.write_bytes(&mut fa, VirtAddr(0x5fff), &data, 0, 2));
    assert_eq!(ms.read_byte(&fa, VirtAddr(0x5fff)), Some(0));
    assert_eq!(ms.read_bytes(&fa, VirtAddr(0x5fff), 2), None);
    assert!(!ms.write_byte(&mut fa, VirtAddr(0x7000), 1));
    assert!(ms.write_byte(&mut fa, VirtAddr(0x5123), 0x7e));
    assert_eq!(ms.read_byte(&fa, VirtAddr(0x5123)), Some(0x7e));
}

#[test]
fn memory_set_reads_strings() {
    let mut fa = FrameAllocator::new(32, 1);
    let mut ms = MemorySet::new_bare(&mut fa).unwrap();
    let perm = MapPermission { bits: 0b1_0110 };
    assert_eq!(ms.insert_framed_area(&mut fa, VirtAddr(0x4000), VirtAddr(0x5000), perm), Ok(()));
    let data = b"hello\0".to_vec();
    assert!(ms.write_bytes(&mut fa, VirtAddr(0x4100), &data, 0, 6));
    assert_eq!(ms.read_cstr(&fa, VirtAddr(0x4100)), Some(b"hello".to_vec()));
    assert_eq!(ms.read_cstr(&fa, VirtAddr(0x4105)), Some(Vec::new()));
    // a string that runs off the mapped page has no end
    let tail = vec![b'x'; 4];
    assert!(ms.write_bytes(&mut fa, VirtAddr(0x4ffc), &tail, 0, 4));
    assert_eq!(ms.read_cstr(&fa, VirtAddr(0x4ffc)), None);
    assert_eq!(ms.read_cstr(&fa, VirtAddr(0x9000)), None);
}

#[test]
fn memory_set_unmap_page_frees_the_frame() {
    let mut fa = FrameAllocator::new(32, 1);
    let mut ms = MemorySet::new_bare(&mut fa).unwrap();
    let perm = MapPermission { bits: 0b1_0110 };
    assert_eq!(ms.insert_framed_area(&mut fa, VirtAddr(0x4000), VirtAddr(0x7000), perm), Ok(()));
    let before = fa.available();
    assert!(ms.unmap_page(&mut fa, VirtPageNum(5)));
    assert_eq!(fa.available(), before + 1);
    assert_eq!(ms.translate(&fa, VirtPageNum(5)), None);
    assert!(ms.translate(&fa, VirtPageNum(4)).is_some());
    assert!(ms.translate(&fa, VirtPageNum(6)).is_some());
    assert!(!ms.unmap_page(&mut fa, VirtPageNum(5)));
    assert!(!ms.unmap_page(&mut fa, VirtPageNum(9)));
    assert_eq!(fa.available(), before + 1);
    // the hole can be mapped again
    assert_eq!(ms.insert_framed_area(&mut fa, VirtAddr(0x5000), VirtAddr(0x6000), perm), Ok(()));
    assert_eq!(ms.area_count(), 2);
}

#[test]
fn memory_set_heap_grows_and_shrinks() {
    let mut fa = FrameAllocator::new(32, 1);
    let mut ms = MemorySet::new_bare(&mut fa).unwrap();
    let perm = MapPermission { bits: 0b1_0110 };
    assert_eq!(ms.add_region(&mut fa, 8, 8, MapType::Framed, perm), Ok(()));
    assert_eq!(ms.find_area(VirtPageNum(8)), Some(0));
    assert_eq!(ms.find_area(VirtPageNum(9)), None);
    assert_eq!(ms.append_to(&mut fa, VirtAddr(0x8000), VirtAddr(0x9001)), Ok(true));
    assert!(ms.translate(&fa, VirtPageNum(8)).is_some());
    assert!(ms.translate(&fa, VirtPageNum(9)).is_some());
    assert_eq!(ms.translate(&fa, VirtPageNum(10)), None);
    assert_eq!(ms.area_info(0).1, 10);
    let grown = fa.available();
    assert!(ms.shrink_to(&mut fa, VirtAddr(0x8000), VirtAddr(0x8800)));
    assert_eq!(fa.available(), grown + 1);
    assert!(ms.translate(&fa, VirtPageNum(8)).is_some());
    assert_eq!(ms.translate(&fa, VirtPageNum(9)), None);
    assert_eq!(ms.area_info(0).1, 9);
    // no region starts at page 9
    assert_eq!(ms.append_to(&mut fa, VirtAddr(0x9000), VirtAddr(0xa000)), Ok(false));
    assert!(!ms.shrink_to(&mut fa, VirtAddr(0x9000), VirtAddr(0x9000)));
    // growth into a mapped page is refused
    assert_eq!(ms.insert_framed_area(&mut fa, VirtAddr(0xa000), VirtAddr(0xb000), perm), Ok(()));
    let held = fa.available();
    assert_eq!(ms.append_to(&mut fa, VirtAddr(0x8000), VirtAddr(0xb000)), Ok(false));
    assert_eq!(fa.available(), held);
    assert_eq!(ms.area_info(0).1, 9);
}

#[test]
fn memory_set_recycle_and_release() {
    let mut fa = FrameAllocator::new(32, 1);
    let start = fa.available();
    let mut ms = MemorySet::new_bare(&mut fa).unwrap();
    let perm = MapPermission { bits: 0b1_0110 };
    assert_eq!(ms.insert_framed_area(&mut fa, VirtAddr(0x4000), VirtAddr(0x7000), perm), Ok(()));
    ms.recycle_data_pages(&mut fa);
    assert_eq!(ms.area_count(), 0);
    assert_eq!(ms.translate(&fa, VirtPageNum(4)), None);
    // the page table keeps its three nodes
    assert_eq!(fa.available(), start - 3);
    ms.release(&mut fa);
    assert_eq!(fa.available(), start);
}

#[test]
fn memory_set_identical_region_names_kernel_frames() {
    let mut fa = FrameAllocator::new(32, 4);
    let mut ms = MemorySet::new_bare(&mut fa).unwrap();
    let before = fa.available();
    assert_eq!(ms.add_region(&mut fa, 1, 3, MapType::Identical, MapPermission { bits: 0b1010 }), Ok(()));
    // two nodes and no frame for the pages
    assert_eq!(fa.available(), before - 2);
    assert_eq!(ms.translate(&fa, VirtPageNum(1)).unwrap().ppn(), 1);
    assert_eq!(ms.translate(&fa, VirtPageNum(2)).unwrap().ppn(), 2);
    assert_eq!(ms.translate(&fa, VirtPageNum(2)).unwrap().flags(), 0b1011);
    assert!(ms.unmap_page(&mut fa, VirtPageNum(1)));
    assert_eq!(fa.available(), before - 2);
}

#[test]
fn memory_set_copy_is_independent() {
    let mut fa = FrameAllocator::new(64, 1);
    let mut ms = MemorySet::new_bare(&mut fa).unwrap();
    let perm = MapPermission { bits: 0b1_0110 };
    assert_eq!(ms.insert_framed_area(&mut fa, VirtAddr(0x4000), VirtAddr(0x7000), perm), Ok(()));
    assert!(ms.unmap_page(&mut fa, VirtPageNum(5)));
    assert!(ms.write_byte(&mut fa, VirtAddr(0x4010), 0x11));
    assert!(ms.write_byte(&mut fa, VirtAddr(0x6020), 0x22));
    let copy = MemorySet::from_existed_user(&mut fa, &ms).unwrap();
    assert_eq!(copy.area_count(), 1);
    assert_eq!(copy.read_byte(&fa, VirtAddr(0x4010)), Some(0x11));
    assert_eq!(copy.read_byte(&fa, VirtAddr(0x6020)), Some(0x22));
    assert_eq!(copy.read_byte(&fa, VirtAddr(0x5000)), None);
    assert_ne!(
        copy.translate(&fa, VirtPageNum(4)).unwrap().ppn(),
        ms.translate(&fa, VirtPageNum(4)).unwrap().ppn()
    );
    assert_eq!(copy.translate(&fa, VirtPageNum(4)).unwrap().flags(), 0b1_0111);
    assert!(copy.write_byte(&mut fa, VirtAddr(0x4010), 0x33));
    assert_eq!(ms.read_byte(&fa, VirtAddr(0x4010)), Some(0x11));
    assert!(ms.write_byte(&mut fa, VirtAddr(0x6020), 0x44));
    assert_eq!(copy.read_byte(&fa, VirtAddr(0x6020)), Some(0x22));
}

#[test]
fn memory_set_copy_runs_out_of_frames() {
    let mut fa = FrameAllocator::new(9, 1);
    let mut ms = MemorySet::new_bare(&mut fa).unwrap();
    let perm = MapPermission { bits: 0b1_0110 };
    assert_eq!(ms.insert_framed_area(&mut fa, VirtAddr(0x4000), VirtAddr(0x6000), perm), Ok(()));
    // five frames are in use, three are left; the copy needs five
    assert_eq!(fa.available(), 3);
    assert!(MemorySet::from_existed_user(&mut fa, &ms).is_err());
}

#[test]
fn map_area_covers_touched_pages() {
    let area = MapArea::new(VirtAddr(0x1001), VirtAddr(0x3000), MapType::Framed, MapPermission { bits: 2 });
    assert_eq!((area.start(), area.end()), (1, 3));
    let area = MapArea::from_pages(7, 7, MapType::Identical, MapPermission { bits: 2 });
    assert_eq!((area.start(), area.end()), (7, 7));
}

#[test]
fn image_parse_reads_header_and_segments() {
    let file = image(0x10040, &[(0x10000, 0x1800, 5, vec![1, 2, 3]), (0x12000, 0x10, 6, vec![])]);
    let img = ProgramImage::parse(&file).unwrap();
    assert_eq!(img.entry, 0x10040);
    assert_eq!(img.segments.len(), 2);
    assert_eq!(img.segments[0].vaddr, 0x10000);
    assert_eq!(img.segments[0].mem_size, 0x1800);
    assert_eq!(img.segments[0].file_size, 3);
    assert_eq!(img.segments[0].flags, 5);
    assert_eq!(img.segments[0].offset, 64 + 2 * 56);
    assert_eq!(img.segments[1].vaddr, 0x12000);
    assert_eq!(img.segments[1].offset, 64 + 2 * 56 + 3);
}

#[test]
fn image_parse_rejects_what_cannot_be_loaded() {
    let good = image(0x10000, &[(0x10000, 0x1000, 5, vec![1, 2, 3])]);
    assert!(ProgramImage::parse(&good).is_some());
    assert!(ProgramImage::parse(&image(0, &[])).is_some());
    // too short, bad magic, wrong header size
    assert!(ProgramImage::parse(&good[..63].to_vec()).is_none());
    let mut bad = good.clone();
    bad[1] = b'F';
    assert!(ProgramImage::parse(&bad).is_none());
    let mut bad = good.clone();
    put16(&mut bad, 54, 32);
    assert!(ProgramImage::parse(&bad).is_none());
    // program headers past the end of the file
    let mut bad = good.clone();
    put16(&mut bad, 56, 3);
    assert!(ProgramImage::parse(&bad).is_none());
    // a header that is no loadable segment
    let mut bad = good.clone();
    put32(&mut bad, 64, 2);
    assert!(ProgramImage::parse(&bad).is_none());
    // bytes of the segment past the end of the file
    let mut bad = good.clone();
    put64(&mut bad, 64 + 32, 4);
    assert!(ProgramImage::parse(&bad).is_none());
    // more bytes in the file than in memory
    let mut bad = good.clone();
    put64(&mut bad, 64 + 40, 2);
    assert!(ProgramImage::parse(&bad).is_none());
    // below the first user page
    assert!(ProgramImage::parse(&image(0, &[(0xf000, 0x1000, 5, vec![])])).is_none());
    // two segments on one page, and segments out of order
    assert!(ProgramImage::parse(&image(0, &[(0x10000, 0x800, 5, vec![]), (0x10800, 0x800, 6, vec![])])).is_none());
    assert!(ProgramImage::parse(&image(0, &[(0x20000, 0x800, 5, vec![]), (0x10000, 0x800, 6, vec![])])).is_none());
    // no room for the stack below the trap context
    assert!(ProgramImage::parse(&image(0, &[(0x7f_ffff_c000, 0x1000, 5, vec![])])).is_none());
    assert!(ProgramImage::parse(&image(0, &[(0x7f_ffff_a000, 0x1000, 5, vec![])])).is_some());
}

#[test]
fn segment_flags_become_permissions() {
    assert_eq!(segment_perm(0).bits, 0b1_0000);
    assert_eq!(segment_perm(4).bits, 0b1_0010);
    assert_eq!(segment_perm(2).bits, 0b1_0100);
    assert_eq!(segment_perm(1).bits, 0b1_1000);
    assert_eq!(segment_perm(7).bits, 0b1_1110);
}

#[test]
fn from_elf_lays_out_the_address_space() {
    let mut fa = FrameAllocator::new(64, 2);
    let mut code = vec![0u8; 5000];
    code[0] = 0xaa;
    code[4999] = 0xbb;
    let file = image(0x10004, &[(0x10010, 0x2000, 5, code), (0x13000, 0x1000, 6, vec![7, 8])]);
    let before = fa.available();
    let (ms, sp, entry) = MemorySet::from_elf(&mut fa, &file).unwrap();
    assert_eq!(entry, 0x10004);
    // segments end at page 0x14, the stack is pages 0x15 and 0x16
    assert_eq!(sp, 0x17000);
    assert_eq!(ms.area_count(), 6);
    assert_eq!(ms.area_info(0), (0, 2, MapType::Identical, MapPermission { bits: 0b1010 }));
    assert_eq!(ms.area_info(1), (0x10, 0x13, MapType::Framed, MapPermission { bits: 0b1_1010 }));
    assert_eq!(ms.area_info(2), (0x13, 0x14, MapType::Framed, MapPermission { bits: 0b1_0110 }));
    assert_eq!(ms.area_info(3), (0x15, 0x17, MapType::Framed, MapPermission { bits: 0b1_0110 }));
    assert_eq!(ms.area_info(4), (0x17, 0x17, MapType::Framed, MapPermission { bits: 0b1_0110 }));
    assert_eq!(ms.area_info(5), (0x7ff_fffe, 0x7ff_ffff, MapType::Framed, MapPermission { bits: 0b0110 }));
    // root, two nodes for the low pages, two for the trap context, seven pages
    assert_eq!(fa.available(), before - 12);
    assert_eq!(ms.translate(&fa, VirtPageNum(1)).unwrap().ppn(), 1);
    assert_eq!(ms.translate(&fa, VirtPageNum(2)), None);
    assert_eq!(ms.translate(&fa, VirtPageNum(0x14)), None);
    assert_eq!(ms.translate(&fa, VirtPageNum(0x17)), None);
    assert_eq!(ms.read_byte(&fa, VirtAddr(0x10000)), Some(0));
    assert_eq!(ms.read_byte(&fa, VirtAddr(0x10010)), Some(0xaa));
    assert_eq!(ms.read_byte(&fa, VirtAddr(0x10010 + 4999)), Some(0xbb));
    assert_eq!(ms.read_byte(&fa, VirtAddr(0x10010 + 5000)), Some(0));
    assert_eq!(ms.read_byte(&fa, VirtAddr(0x13000)), Some(7));
    assert_eq!(ms.read_byte(&fa, VirtAddr(0x13001)), Some(8));
    assert_eq!(ms.read_byte(&fa, VirtAddr(0x13002)), Some(0));
    assert_eq!(ms.read_byte(&fa, VirtAddr(0x16fff)), Some(0));
    assert_eq!(ms.read_byte(&fa, VirtAddr(0x7f_ffff_e000)), Some(0));
    assert_eq!(ms.read_byte(&fa, VirtAddr(0x7f_ffff_f000)), None);
}

#[test]
fn from_elf_runs_out_of_frames() {
    let file = image(0x10000, &[(0x10000, 0x1000, 5, vec![1])]);
    // root, four nodes, four pages
    let mut fa = FrameAllocator::new(9, 1);
    assert!(MemorySet::from_elf(&mut fa, &file).is_err());
    let mut fa = FrameAllocator::new(10, 1);
    assert!(MemorySet::from_elf(&mut fa, &file).is_ok());
    assert_eq!(fa.available(), 0);
}

#[test]
fn memory_set_remove_area_matching() {
    let mut fa = FrameAllocator::new(32, 1);
    let mut ms = MemorySet::new_bare(&mut fa).unwrap();
    let perm = MapPermission { bits: 0b1_0110 };
    assert_eq!(ms.insert_framed_area(&mut fa, VirtAddr(0x4000), VirtAddr(0x7000), perm), Ok(()));
    assert_eq!(ms.insert_framed_area(&mut fa, VirtAddr(0x9000), VirtAddr(0xa000), perm), Ok(()));
    let before = fa.available();
    // no region starts inside the first one
    assert!(!ms.remove_area_matching(&mut fa, VirtPageNum(5)));
    assert_eq!(ms.area_count(), 2);
    assert!(ms.unmap_page(&mut fa, VirtPageNum(5)));
    assert!(ms.remove_area_matching(&mut fa, VirtPageNum(4)));
    assert_eq!(ms.area_count(), 1);
    assert_eq!(ms.area_info(0).0, 9);
    for vpn in 4..7 {
        assert_eq!(ms.translate(&fa, VirtPageNum(vpn)), None);
    }
    assert!(ms.translate(&fa, VirtPageNum(9)).is_some());
    assert_eq!(fa.available(), before + 3);
    assert!(!ms.remove_area_matching(&mut fa, VirtPageNum(4)));
}

#[test]
fn user_access_is_checked_against_permissions() {
    let mut fa = FrameAllocator::new(32, 2);
    let mut ms = MemorySet::new_bare(&mut fa).unwrap();
    let ro = MapPermission { bits: 0b1_0010 };
    let rw = MapPermission { bits: 0b1_0110 };
    let wo = MapPermission { bits: 0b1_0100 };
    let kernel_only = MapPermission { bits: 0b0110 };
    assert_eq!(ms.insert_framed_area(&mut fa, VirtAddr(0x4000), VirtAddr(0x5000), ro), Ok(()));
    assert_eq!(ms.insert_framed_area(&mut fa, VirtAddr(0x5000), VirtAddr(0x6000), rw), Ok(()));
    assert_eq!(ms.insert_framed_area(&mut fa, VirtAddr(0x6000), VirtAddr(0x7000), wo), Ok(()));
    assert_eq!(ms.insert_framed_area(&mut fa, VirtAddr(0x7000), VirtAddr(0x8000), kernel_only), Ok(()));
    assert_eq!(ms.load_byte(&fa, VirtAddr(0x4000)), Ok(0));
    assert_eq!(ms.store_byte(&mut fa, VirtAddr(0x4000), 1), Err(AccessError::PermissionDenied));
    assert_eq!(ms.read_byte(&fa, VirtAddr(0x4000)), Some(0));
    assert_eq!(ms.store_byte(&mut fa, VirtAddr(0x5001), 7), Ok(()));
    assert_eq!(ms.load_byte(&fa, VirtAddr(0x5001)), Ok(7));
    assert_eq!(ms.store_byte(&mut fa, VirtAddr(0x6002), 8), Ok(()));
    assert_eq!(ms.load_byte(&fa, VirtAddr(0x6002)), Err(AccessError::PermissionDenied));
    assert_eq!(ms.read_byte(&fa, VirtAddr(0x6002)), Some(8));
    assert_eq!(ms.load_byte(&fa, VirtAddr(0x7000)), Err(AccessError::PermissionDenied));
    assert_eq!(ms.store_byte(&mut fa, VirtAddr(0x7000), 1), Err(AccessError::PermissionDenied));
    assert_eq!(ms.load_byte(&fa, VirtAddr(0x8000)), Err(AccessError::NotMapped));
    assert_eq!(ms.store_byte(&mut fa, VirtAddr(0x8000), 1), Err(AccessError::NotMapped));
}

#[test]
fn page_table_token_names_the_root() {
    let mut fa = FrameAllocator::new(8, 3);
    let pt = PageTable::new(&mut fa).unwrap();
    assert_eq!(pt.root_ppn(), 3);
    assert_eq!(PageTable::from_token(pt.token()).root_ppn(), 3);
    assert_eq!(PageTable::from_token(0x8000_0000_0000_0005).root_ppn(), 5);
}
