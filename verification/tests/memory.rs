use kernel::allocator::{allocate, Frame, KernelAllocator};
use kernel::elf::{ELFHeader, ProgramHeader};
use kernel::page_alloc::{Allocator, FREE_JUNK, USED_JUNK};
use kernel::riscv::paging::{pg_rounddown, pg_roundup, PageTable, PTE};

fn memory() -> KernelAllocator {
    let mut a = KernelAllocator::empty(0x8010_0000);
    kernel::allocator::initialize(&mut a);
    a
}

fn free_pages(a: &mut KernelAllocator) -> usize {
    let mut pages = vec![];
    while let Some(p) = a.allocate_page() {
        pages.push(p);
    }
    for p in &pages {
        a.deallocate_page(*p);
    }
    pages.len()
}

#[test]
fn rounding() {
    assert_eq!((pg_roundup(0), pg_roundup(1), pg_roundup(4096), pg_roundup(4097)), (0, 4096, 4096, 8192));
    assert_eq!((pg_rounddown(4095), pg_rounddown(8191)), (0, 4096));
}

#[test]
fn entries_hold_flags_and_an_address() {
    let mut e = PTE::invalid();
    assert!(!e.is_valid());
    e.set_physical_addr(0x8765_4000);
    e.set_flags(PTE::V | PTE::R);
    assert_eq!(e.0, 0x21d9_5003);
    assert_eq!((e.get_physical_addr(), e.get_flags()), (0x8765_4000, 3));
    e.set_writable(true);
    e.set_readable(false);
    e.set_user_access(true);
    assert!(e.is_valid() && e.is_writable() && e.can_user_access());
    assert!(!e.is_readable() && !e.is_executable());
    assert_eq!(e.get_physical_addr(), 0x8765_4000);
    e.clear();
    assert_eq!(e.0, 0);
}

#[test]
fn a_freed_page_comes_back() {
    let mut a = memory();
    let p = a.allocate_page().unwrap();
    let q = a.allocate_page().unwrap();
    assert!(p != q && p % 4096 == 0 && p >= 0x8010_0000 && p < 0x8800_0000);
    a.deallocate_page(p);
    assert_eq!(a.allocate_page(), Some(p));
    assert_eq!(free_pages(&mut a), 0x7f00 - 2);
    assert!(allocate(&mut a, 4096, 4096).is_ok());
    assert_eq!(allocate(&mut a, 4097, 8), Err(()));
}

#[test]
fn pages_are_filled_with_junk() {
    let mut a = Allocator::init(0x8000_5000);
    let p = a.allocate_page().unwrap();
    assert_eq!(p, 0x87ff_f000);
    let i = ((p - 0x8000_0000) / 4096) as usize;
    assert_eq!(a.junk[i], Some(USED_JUNK));
    a.free(p);
    assert_eq!(a.junk[i], Some(FREE_JUNK));
    assert_eq!(a.allocate_page(), Some(p));
}

#[test]
fn mapped_pages_are_found() {
    let mut a = memory();
    let before = free_pages(&mut a);
    let t = PageTable::allocate(&mut a).unwrap();
    assert_eq!(t.grow(&mut a, 0, 10000, PTE::W | PTE::R | PTE::U | PTE::X), Ok(10000));
    let data: Vec<u8> = (0..10000u32).map(|i| (i % 249) as u8).collect();
    assert_eq!(t.write(&mut a, 0, &data), Ok(()));
    let mut back = vec![0u8; 10000];
    assert_eq!(t.read(&a, &mut back, 0), Ok(()));
    assert_eq!(back, data);
    let pa = t.virtual_to_physical(&a, 4096).unwrap();
    assert_eq!(pa % 4096, 0);
    assert_eq!(t.virtual_to_physical(&a, 12288), None);
    assert_eq!(t.write(&mut a, 12280, &vec![1u8; 20]), Err(8));
    let other = PageTable::allocate(&mut a).unwrap();
    assert_eq!(t.copy(&mut a, &other, 10000), Ok(()));
    assert_eq!(other.write(&mut a, 0, &vec![0xffu8; 10]), Ok(()));
    let mut one = vec![0u8; 1];
    assert_eq!(t.read(&a, &mut one, 1), Ok(()));
    assert_eq!(one, vec![1]);
    t.set_user_page(&mut a, 4096, false);
    assert_eq!(t.virtual_to_physical(&a, 4096), None);
    assert_eq!(t.read(&a, &mut back, 0), Err(4096));
    assert_eq!(t.shrink(&mut a, 10000, 0), Ok(0));
    assert_eq!(other.shrink(&mut a, 10000, 0), Ok(0));
    t.drop(&mut a);
    other.drop(&mut a);
    assert_eq!(free_pages(&mut a), before);
}

#[test]
fn strings_end_with_zero() {
    let mut a = memory();
    let t = PageTable::allocate(&mut a).unwrap();
    assert_eq!(t.grow(&mut a, 0, 8192, PTE::W | PTE::R | PTE::U), Ok(8192));
    assert_eq!(t.write(&mut a, 4094, &b"name\0".to_vec()), Ok(()));
    let mut s = vec![0u8; 10];
    assert_eq!(t.read_cstr(&a, &mut s, 4094), Ok(4));
    assert_eq!(s[..4], *b"name");
    let mut s = vec![0u8; 4];
    assert_eq!(t.read_cstr(&a, &mut s, 4094), Err(()));
    let mut s = vec![0u8; 10];
    assert_eq!(t.read_cstr(&a, &mut s, 8192), Err(()));
}

#[test]
fn the_kernel_maps_itself() {
    let mut a = memory();
    let t = kernel::vm::initialize(&mut a, 0x8000_8000, 0x8000_1000);
    assert_eq!(kernel::vm::initialize_for_core(&t), 0x8000_0000_0000_0000 + t.as_u64() / 4096);
    // it is not for user code
    assert_eq!(t.virtual_to_physical(&a, 0x8000_0000), None);
    let place = t.search_entry(&mut a, 0x1000_0000, false).unwrap();
    assert!(place.index < 512);
    assert!(t.search_entry(&mut a, 0x7000_0000, false).is_err());
}

#[test]
fn headers_of_programs() {
    let mut b = vec![0u8; 64];
    b[..4].copy_from_slice(&[0x7f, b'E', b'L', b'F']);
    b[24] = 0x10;
    b[32] = 64;
    b[56] = 3;
    let h = ELFHeader::from_bytes(&b);
    assert!(h.validate_magic());
    assert_eq!((h.entry, h.phoff, h.phnum), (0x10, 64, 3));
    b[0] = 0;
    assert!(!ELFHeader::from_bytes(&b).validate_magic());
    let mut p = vec![0u8; 56];
    p[0] = 1;
    p[4] = 6;
    p[17] = 0x10;
    p[40] = 9;
    let h = ProgramHeader::from_bytes(&p);
    assert_eq!((h.kind, h.flags, h.vaddr, h.memsz), (ProgramHeader::KIND_LOAD, 6, 0x1000, 9));
}

#[test]
fn mapping_needs_no_alignment() {
    let mut a = memory();
    let p = a.allocate_page().unwrap();
    let q = a.allocate_page().unwrap();
    assert_eq!(p, q + 4096);
    let t = PageTable::allocate(&mut a).unwrap();
    // two bytes on both sides of a page boundary
    assert_eq!(t.map(&mut a, 0xfff, q, 2, PTE::R | PTE::U), Ok(()));
    assert_eq!(t.virtual_to_physical(&a, 0), Some(q));
    assert_eq!(t.virtual_to_physical(&a, 4096), Some(p));
    assert_eq!(t.virtual_to_physical(&a, 8192), None);
    assert_eq!(t.search_entry(&mut a, 0x40_3000, true).unwrap().index, 3);
}

#[test]
fn shrinking_passes_over_what_is_not_mapped() {
    let mut a = memory();
    let t = PageTable::allocate(&mut a).unwrap();
    assert_eq!(t.grow(&mut a, 0, 4096, 0), Ok(4096));
    let before = free_pages(&mut a);
    assert_eq!(t.shrink(&mut a, 0x3000, 0), Ok(0));
    assert_eq!(t.virtual_to_physical(&a, 0), None);
    assert_eq!(free_pages(&mut a), before + 1);
}

#[test]
fn growing_gives_pages_back_when_it_fails() {
    let mut a = memory();
    let t = PageTable::allocate(&mut a).unwrap();
    for _ in 0..free_pages(&mut a) - 3 {
        a.allocate_page();
    }
    // one page and two tables can be had
    assert_eq!(t.grow(&mut a, 0, 8192, 0), Err(()));
    assert_eq!(t.virtual_to_physical(&a, 0), None);
    assert_eq!(free_pages(&mut a), 1);
    assert_eq!(t.grow(&mut a, 0, 4096, 0), Ok(4096));
    assert_eq!(t.search_entry(&mut a, 0x4000_0000, true).is_err(), true);
}

#[test]
fn user_pages_can_lie_anywhere() {
    let mut a = memory();
    let t = PageTable::allocate(&mut a).unwrap();
    // the kernel, from two bytes on both sides of a page boundary
    assert_eq!(t.map(&mut a, 0xfff, 0x8000_0000, 2, PTE::R | PTE::U), Ok(()));
    assert_eq!(t.virtual_to_physical(&a, 0), Some(0x8000_0000));
    assert_eq!(t.virtual_to_physical(&a, 0x1000), Some(0x8000_1000));
    // a device
    assert_eq!(t.map(&mut a, 0x5000, 0x1000_0000, 4096, PTE::R | PTE::U), Ok(()));
    assert_eq!(t.virtual_to_physical(&a, 0x5000), Some(0x1000_0000));
}

#[test]
fn a_removed_entry_is_the_invalid_entry() {
    let mut a = memory();
    let p = a.allocate_page().unwrap();
    let t = PageTable::allocate(&mut a).unwrap();
    // a page that user code may not access
    assert_eq!(t.map(&mut a, 0x3000, p, 4096, PTE::R | PTE::W), Ok(()));
    let before = free_pages(&mut a);
    let place = t.search_entry(&mut a, 0x3000, false).unwrap();
    t.unmap(&mut a, 0x3000, 1, true);
    match &a.ram[place.table] {
        Frame::Table { entries, .. } => assert_eq!(entries[place.index].0, 0),
        _ => panic!("no table"),
    }
    assert_eq!(free_pages(&mut a), before + 1);
}

#[test]
fn tables_are_shared_by_neighbours() {
    let mut a = memory();
    let t = PageTable::allocate(&mut a).unwrap();
    let before = free_pages(&mut a);
    // two tables of the last level and one above them
    assert_eq!(t.grow(&mut a, 0, 600 * 4096, 0), Ok(600 * 4096));
    assert_eq!(free_pages(&mut a), before - 603);
    assert_eq!(t.grow(&mut a, 600 * 4096, 601 * 4096, 0), Ok(601 * 4096));
    assert_eq!(free_pages(&mut a), before - 604);
}

#[test]
fn the_kernel_needs_few_pages() {
    let mut a = memory();
    for _ in 136..free_pages(&mut a) {
        a.allocate_page().unwrap();
    }
    let t = kernel::vm::initialize(&mut a, 0x8000_8000, 0x8000_1000);
    assert_eq!(a.allocate_page(), None);
    assert!(t.search_entry(&mut a, 0x87ff_f000, false).is_ok());
}
