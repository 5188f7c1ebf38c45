use riscv_mm::memory_alloc::{
    allocate_pages, deallocate_pages, enumerate_runs, init, PageAllocator, PAGE_SIZE,
};
use riscv_mm::mmu::sv39;
use riscv_mm::mmu::sv39::{
    unmap, virt_to_phys, MapError, PageTable, Pte, PteBits, TranslateError, VirtAddr,
};
use riscv_mm::mmu::{enable_mmu, memory_map_region, TranslationMode};

const HEAP_START: u64 = 0x8000_0000;

fn heap_of(pages: usize) -> PageAllocator {
    init(HEAP_START, pages * PAGE_SIZE)
}

fn read() -> u64 {
    PteBits::Read.val()
}

fn write() -> u64 {
    PteBits::Write.val()
}

fn execute() -> u64 {
    PteBits::Execute.val()
}

#[test]
fn flag_values() {
    assert_eq!(PteBits::Valid.val(), 1);
    assert_eq!(PteBits::Read.val(), 2);
    assert_eq!(PteBits::Write.val(), 4);
    assert_eq!(PteBits::Execute.val(), 8);
    assert_eq!(PteBits::UserMode.val(), 16);
    assert_eq!(PteBits::Globe.val(), 32);
    assert_eq!(PteBits::Accessed.val(), 64);
    assert_eq!(PteBits::Dirty.val(), 128);
}

#[test]
fn virtual_address_fields() {
    let va = VirtAddr { bits: (5 << 30) | (6 << 21) | (7 << 12) | 0x123 };
    assert_eq!(va.get_vpn(), [7, 6, 5]);
    assert_eq!(va.get_whole_vpn(), (5 << 18) | (6 << 9) | 7);
    assert_eq!(va.get_offset(), 0x123);
    let top = VirtAddr { bits: u64::MAX };
    assert_eq!(top.get_vpn(), [511, 511, 511]);
    assert_eq!(top.get_whole_vpn(), 0x7ff_ffff);
    assert_eq!(top.get_offset(), 0xfff);
}

#[test]
fn entry_is_page_number_above_bit_ten_or_flags() {
    let pte = Pte::new(0x80601, 0b1011).unwrap();
    assert_eq!(pte.bits, 0x2018_040b);
    assert_eq!(pte.get_whole_ppn(), 0x80601);
    assert_eq!(pte.get_physical_addr(), 0x8060_1000);
    assert_eq!(pte.get_ppn(), [1, 3, 2]);
    assert!(pte.is_valid() && pte.is_read() && !pte.is_write() && pte.is_execute());
    assert!(pte.is_leaf() && !pte.is_branch() && !pte.is_reserved());
}

#[test]
fn entry_keeps_all_forty_four_bits() {
    let ppn = 0xfff_ffff_ffff;
    let pte = Pte::new(ppn, 1).unwrap();
    assert_eq!(pte.get_whole_ppn(), ppn);
    assert_eq!(pte.get_ppn(), [0x1ff, 0x1ff, 0x3ff_ffff]);
    assert!(pte.is_branch() && pte.is_valid());
}

#[test]
fn entry_without_access_is_a_branch() {
    let pte = Pte::new(3, 1).unwrap();
    assert!(pte.is_branch() && !pte.is_leaf());
    assert!(Pte { bits: 0 }.is_branch());
    assert!(!Pte { bits: 0 }.is_valid());
}

#[test]
fn write_without_read_is_refused() {
    assert_eq!(Pte::new(1, 0b0101).err(), Some(MapError::ReservedEncoding));
    assert_eq!(Pte::new(1, 0b1101).err(), Some(MapError::ReservedEncoding));
    assert!(Pte::new(1, 0b0111).is_ok());
    assert!(Pte { bits: 0b0100 }.is_reserved());
    assert!(!Pte { bits: 0b0110 }.is_reserved());
}

#[test]
fn empty_tree_maps_nothing() {
    let mut heap = heap_of(16);
    let root = PageTable::new(&mut heap).unwrap();
    assert_eq!(root.addr(), heap.alloc_start());
    assert_eq!(enumerate_runs(&heap), vec![(root.addr(), 1)]);
    for va in [0u64, 0x1000, 0x8000_0000, u64::MAX] {
        assert_eq!(virt_to_phys(va, &root, &heap), Err(TranslateError::Unmapped));
    }
}

#[test]
fn no_tree_without_a_free_page() {
    let mut heap = heap_of(1);
    allocate_pages(&mut heap, 1).unwrap();
    assert!(PageTable::new(&mut heap).is_none());
}

#[test]
fn map_one_page_and_translate() {
    let mut heap = heap_of(16);
    let mut root = PageTable::new(&mut heap).unwrap();
    assert_eq!(sv39::map(0x1000, 0x1000, &mut root, read() | execute(), &mut heap), Ok(()));
    assert_eq!(virt_to_phys(0x1000, &root, &heap), Ok(0x1000));
    assert_eq!(virt_to_phys(0x1032, &root, &heap), Ok(0x1032));
    assert_eq!(virt_to_phys(0x2000, &root, &heap), Err(TranslateError::Unmapped));
}

#[test]
fn mapping_translates_every_offset() {
    let mut heap = heap_of(16);
    let mut root = PageTable::new(&mut heap).unwrap();
    let va: u64 = (3 << 30) | (4 << 21) | (5 << 12);
    let pa: u64 = 0x00ab_cdef_0123_4000;
    assert_eq!(sv39::map(va, pa, &mut root, read(), &mut heap), Ok(()));
    for k in 0..4096u64 {
        assert_eq!(virt_to_phys(va + k, &root, &heap), Ok(pa + k));
    }
    assert_eq!(virt_to_phys(va + 4096, &root, &heap), Err(TranslateError::Unmapped));
    assert_eq!(virt_to_phys(va - 1, &root, &heap), Err(TranslateError::Unmapped));
}

#[test]
fn first_mapping_makes_two_tables() {
    let mut heap = heap_of(16);
    let base = heap.alloc_start();
    let mut root = PageTable::new(&mut heap).unwrap();
    sv39::map(0x1000, 0x5000, &mut root, read(), &mut heap).unwrap();
    assert_eq!(
        enumerate_runs(&heap),
        vec![(base, 1), (base + 4096, 1), (base + 2 * 4096, 1)]
    );
    // The next page shares both tables.
    sv39::map(0x2000, 0x6000, &mut root, read(), &mut heap).unwrap();
    assert_eq!(enumerate_runs(&heap).len(), 3);
    // Another entry of the middle level needs one more table.
    sv39::map(1 << 21, 0x7000, &mut root, read(), &mut heap).unwrap();
    assert_eq!(enumerate_runs(&heap).len(), 4);
    // Another root entry needs two.
    sv39::map(1 << 30, 0x8000, &mut root, read(), &mut heap).unwrap();
    assert_eq!(enumerate_runs(&heap).len(), 6);
    assert_eq!(virt_to_phys(0x1000, &root, &heap), Ok(0x5000));
    assert_eq!(virt_to_phys(0x2fff, &root, &heap), Ok(0x6fff));
    assert_eq!(virt_to_phys((1 << 21) + 1, &root, &heap), Ok(0x7001));
    assert_eq!(virt_to_phys((1 << 30) + 2, &root, &heap), Ok(0x8002));
}

#[test]
fn mapping_again_replaces_the_leaf() {
    let mut heap = heap_of(16);
    let mut root = PageTable::new(&mut heap).unwrap();
    sv39::map(0x1000, 0x5000, &mut root, read(), &mut heap).unwrap();
    sv39::map(0x1000, 0x9000, &mut root, read() | write(), &mut heap).unwrap();
    assert_eq!(virt_to_phys(0x1004, &root, &heap), Ok(0x9004));
    assert_eq!(enumerate_runs(&heap).len(), 3);
}

#[test]
fn reserved_permissions_change_nothing() {
    let mut heap = heap_of(16);
    let mut root = PageTable::new(&mut heap).unwrap();
    let before = enumerate_runs(&heap);
    assert_eq!(
        sv39::map(0x1000, 0x1000, &mut root, write(), &mut heap),
        Err(MapError::ReservedEncoding)
    );
    assert_eq!(
        sv39::map(0x1000, 0x1000, &mut root, write() | execute(), &mut heap),
        Err(MapError::ReservedEncoding)
    );
    assert_eq!(enumerate_runs(&heap), before);
    assert_eq!(virt_to_phys(0x1000, &root, &heap), Err(TranslateError::Unmapped));
    for k in 0..512u64 {
        assert_eq!(heap.load_word(root.addr() + 8 * k), 0);
    }
}

#[test]
fn mapping_fails_when_tables_cannot_be_had() {
    let mut heap = heap_of(2);
    let mut root = PageTable::new(&mut heap).unwrap();
    assert_eq!(sv39::map(0x1000, 0x1000, &mut root, read(), &mut heap), Err(MapError::NoSpace));
    let mut heap = heap_of(3);
    let mut root = PageTable::new(&mut heap).unwrap();
    assert_eq!(sv39::map(0x1000, 0x1000, &mut root, read(), &mut heap), Ok(()));
    assert_eq!(sv39::map(0x2000, 0x2000, &mut root, read(), &mut heap), Ok(()));
    assert_eq!(sv39::map(1 << 21, 0x3000, &mut root, read(), &mut heap), Err(MapError::NoSpace));
    assert_eq!(virt_to_phys(0x1000, &root, &heap), Ok(0x1000));
}

#[test]
fn high_address_bits_are_not_looked_at() {
    let mut heap = heap_of(8);
    let mut root = PageTable::new(&mut heap).unwrap();
    sv39::map(0x1000, 0x4000, &mut root, read(), &mut heap).unwrap();
    assert_eq!(virt_to_phys((1 << 39) | 0x1008, &root, &heap), Ok(0x4008));
}

#[test]
fn superpage_leaf_takes_low_page_bits_from_the_address() {
    let mut heap = heap_of(8);
    let mut root = PageTable::new(&mut heap).unwrap();
    // A leaf in the root covers 1 GiB.
    let giga = Pte::new(0x4_0000 * 3, 0b0011).unwrap();
    heap.store_word(root.addr() + 8 * 2, giga.bits);
    let va: u64 = (2 << 30) | (7 << 21) | (9 << 12) | 0x55;
    assert_eq!(
        virt_to_phys(va, &root, &heap),
        Ok((3 << 30) | (7 << 21) | (9 << 12) | 0x55)
    );
    // A leaf of the middle level covers 2 MiB.
    sv39::map(0x1000, 0x1000, &mut root, read(), &mut heap).unwrap();
    let middle = Pte { bits: heap.load_word(root.addr()) }.get_physical_addr();
    let mega = Pte::new(0x200 * 5, 0b0011).unwrap();
    heap.store_word(middle + 8 * 3, mega.bits);
    let va: u64 = (3 << 21) | (11 << 12) | 0x7;
    assert_eq!(virt_to_phys(va, &root, &heap), Ok((5 << 21) | (11 << 12) | 0x7));
}

#[test]
fn misaligned_superpage_is_reported() {
    let mut heap = heap_of(8);
    let mut root = PageTable::new(&mut heap).unwrap();
    let low = Pte::new(1, 0b0011).unwrap();
    heap.store_word(root.addr() + 8, low.bits);
    assert_eq!(
        virt_to_phys(1 << 30, &root, &heap),
        Err(TranslateError::MisalignedSuperpage)
    );
    let mid = Pte::new(0x200, 0b0011).unwrap();
    heap.store_word(root.addr() + 16, mid.bits);
    assert_eq!(
        virt_to_phys(2 << 30, &root, &heap),
        Err(TranslateError::MisalignedSuperpage)
    );
    sv39::map(0x1000, 0x1000, &mut root, read(), &mut heap).unwrap();
    let middle = Pte { bits: heap.load_word(root.addr()) }.get_physical_addr();
    heap.store_word(middle + 8 * 3, low.bits);
    assert_eq!(
        virt_to_phys(3 << 21, &root, &heap),
        Err(TranslateError::MisalignedSuperpage)
    );
    // At the last level every page number is aligned.
    sv39::map(0x2000, 0x1000, &mut root, read(), &mut heap).unwrap();
    assert_eq!(virt_to_phys(0x2000, &root, &heap), Ok(0x1000));
}

#[test]
fn map_range_then_unmap() {
    let mut heap = heap_of(16);
    let mut root = PageTable::new(&mut heap).unwrap();
    assert_eq!(
        memory_map_region(0x1000, 0x4000, &mut root, read() | write(), &mut heap),
        Ok(())
    );
    for va in [0x1000u64, 0x2000, 0x3000] {
        assert_eq!(virt_to_phys(va, &root, &heap), Ok(va));
    }
    assert_eq!(virt_to_phys(0x0, &root, &heap), Err(TranslateError::Unmapped));
    assert_eq!(virt_to_phys(0x4000, &root, &heap), Err(TranslateError::Unmapped));
    assert_eq!(enumerate_runs(&heap).len(), 3);
    assert_eq!(unmap(&root, &mut heap), 2);
    assert_eq!(enumerate_runs(&heap), vec![(root.addr(), 1)]);
    deallocate_pages(&mut heap, root.addr());
    assert_eq!(enumerate_runs(&heap), vec![]);
}

#[test]
fn region_maps_a_page_that_only_starts_in_it() {
    let mut heap = heap_of(16);
    let mut root = PageTable::new(&mut heap).unwrap();
    memory_map_region(0x1000, 0x2001, &mut root, read(), &mut heap).unwrap();
    assert_eq!(virt_to_phys(0x1fff, &root, &heap), Ok(0x1fff));
    assert_eq!(virt_to_phys(0x2fff, &root, &heap), Ok(0x2fff));
    assert_eq!(virt_to_phys(0x3000, &root, &heap), Err(TranslateError::Unmapped));
}

#[test]
fn empty_region_maps_nothing() {
    let mut heap = heap_of(4);
    let mut root = PageTable::new(&mut heap).unwrap();
    assert_eq!(memory_map_region(0x3000, 0x3000, &mut root, write(), &mut heap), Ok(()));
    assert_eq!(memory_map_region(0x3000, 0x1000, &mut root, read(), &mut heap), Ok(()));
    assert_eq!(enumerate_runs(&heap).len(), 1);
}

#[test]
fn region_with_reserved_permissions_is_refused() {
    let mut heap = heap_of(4);
    let mut root = PageTable::new(&mut heap).unwrap();
    assert_eq!(
        memory_map_region(0x1000, 0x3000, &mut root, write(), &mut heap),
        Err(MapError::ReservedEncoding)
    );
    assert_eq!(enumerate_runs(&heap).len(), 1);
}

#[test]
fn region_stops_when_the_heap_is_full() {
    let mut heap = heap_of(3);
    let mut root = PageTable::new(&mut heap).unwrap();
    let end = (1 << 21) + 0x1000;
    assert_eq!(
        memory_map_region(0, end, &mut root, read(), &mut heap),
        Err(MapError::NoSpace)
    );
    assert_eq!(virt_to_phys(0x1ff000, &root, &heap), Ok(0x1ff000));
    assert_eq!(virt_to_phys(1 << 21, &root, &heap), Err(TranslateError::Unmapped));
}

#[test]
fn unmap_gives_back_the_tables_and_nothing_else() {
    let mut heap = heap_of(32);
    let data = allocate_pages(&mut heap, 2).unwrap();
    let mut root = PageTable::new(&mut heap).unwrap();
    let before = enumerate_runs(&heap);
    sv39::map(0x1000, data, &mut root, read() | write(), &mut heap).unwrap();
    sv39::map(1 << 21, data + 4096, &mut root, read(), &mut heap).unwrap();
    sv39::map(5 << 30, data, &mut root, read(), &mut heap).unwrap();
    sv39::map((5 << 30) | (1 << 21), data, &mut root, read(), &mut heap).unwrap();
    let tables = enumerate_runs(&heap).len() - before.len();
    assert_eq!(tables, 6);
    assert_eq!(unmap(&root, &mut heap), tables);
    assert_eq!(enumerate_runs(&heap), before);
    assert_eq!(enumerate_runs(&heap), vec![(data, 2), (root.addr(), 1)]);
}

#[test]
fn unmap_of_an_empty_tree_gives_back_nothing() {
    let mut heap = heap_of(4);
    let root = PageTable::new(&mut heap).unwrap();
    assert_eq!(unmap(&root, &mut heap), 0);
    assert_eq!(enumerate_runs(&heap), vec![(root.addr(), 1)]);
}

#[test]
fn translation_control_value() {
    let mut heap = heap_of(4);
    let root = PageTable::new(&mut heap).unwrap();
    let mut mode = TranslationMode::Off;
    let satp = enable_mmu(&root, &mut mode);
    assert_eq!(root.addr(), 0x8000_1000);
    assert_eq!(satp, 0x8000_0000_0008_0001);
    assert_eq!(mode, TranslationMode::On);
    let again = enable_mmu(&root, &mut mode);
    assert_eq!(again, satp);
    assert_eq!(mode, TranslationMode::On);
}

#[test]
fn failed_mapping_keeps_the_table_it_could_make() {
    // One free page where two tables are missing: the first is made and stays.
    let mut heap = heap_of(2);
    let base = heap.alloc_start();
    let mut root = PageTable::new(&mut heap).unwrap();
    assert_eq!(sv39::map(0x1000, 0x1000, &mut root, read(), &mut heap), Err(MapError::NoSpace));
    assert_eq!(enumerate_runs(&heap), vec![(base, 1), (base + 4096, 1)]);
    let entry = Pte { bits: heap.load_word(root.addr()) };
    assert!(entry.is_valid() && entry.is_branch());
    assert_eq!(entry.get_physical_addr(), base + 4096);
    assert_eq!(virt_to_phys(0x1000, &root, &heap), Err(TranslateError::Unmapped));
    assert_eq!(unmap(&root, &mut heap), 1);
    // No free page at all: nothing changes.
    let mut heap = heap_of(1);
    let mut root = PageTable::new(&mut heap).unwrap();
    assert_eq!(sv39::map(0x1000, 0x1000, &mut root, read(), &mut heap), Err(MapError::NoSpace));
    for k in 0..512u64 {
        assert_eq!(heap.load_word(root.addr() + 8 * k), 0);
    }
    assert_eq!(enumerate_runs(&heap), vec![(base, 1)]);
}

#[test]
fn mapping_leaves_other_pages_as_they_were() {
    let mut heap = heap_of(16);
    let mut root = PageTable::new(&mut heap).unwrap();
    let pages: [u64; 4] = [0x1000, 0x2000, 1 << 21, (7 << 30) | (3 << 21) | (9 << 12)];
    for (i, va) in pages.iter().enumerate() {
        sv39::map(*va, 0x10_0000 * (i as u64 + 1), &mut root, read(), &mut heap).unwrap();
    }
    for (i, va) in pages.iter().enumerate() {
        assert_eq!(virt_to_phys(*va + 5, &root, &heap), Ok(0x10_0000 * (i as u64 + 1) + 5));
    }
    assert_eq!(virt_to_phys(0x3000, &root, &heap), Err(TranslateError::Unmapped));
    assert_eq!(virt_to_phys(2 << 21, &root, &heap), Err(TranslateError::Unmapped));
}

#[test]
fn mapping_under_a_superpage_replaces_it() {
    let mut heap = heap_of(8);
    let mut root = PageTable::new(&mut heap).unwrap();
    let giga = Pte::new(0x4_0000, 0b0011).unwrap();
    heap.store_word(root.addr() + 8, giga.bits);
    let inside: u64 = (1 << 30) | (4 << 21) | (2 << 12);
    assert_eq!(virt_to_phys(inside, &root, &heap), Ok(inside));
    sv39::map(1 << 30, 0x9000, &mut root, read(), &mut heap).unwrap();
    assert_eq!(virt_to_phys(1 << 30, &root, &heap), Ok(0x9000));
    assert_eq!(virt_to_phys(inside, &root, &heap), Err(TranslateError::Unmapped));
    assert_eq!(virt_to_phys((1 << 30) | 0x1000, &root, &heap), Err(TranslateError::Unmapped));
    assert_eq!(unmap(&root, &mut heap), 2);
}

#[test]
fn region_within_the_window_maps_every_address_to_itself() {
    let mut heap = heap_of(16);
    let mut root = PageTable::new(&mut heap).unwrap();
    let start: u64 = 0x8000_0000;
    let end: u64 = 0x8000_0000 + 600 * 4096;
    memory_map_region(start, end, &mut root, read() | execute(), &mut heap).unwrap();
    let mut addr = start;
    while addr < end {
        assert_eq!(virt_to_phys(addr, &root, &heap), Ok(addr));
        addr += 123;
    }
    // 600 pages need two tables of the last level and one above them.
    assert_eq!(unmap(&root, &mut heap), 3);
}

#[test]
fn leaf_alignment_by_level() {
    let aligned = Pte::new(0x4_0000, 0b0011).unwrap();
    let middle = Pte::new(0x200, 0b0011).unwrap();
    let low = Pte::new(1, 0b0011).unwrap();
    assert!(aligned.is_aligned_for(0) && aligned.is_aligned_for(1) && aligned.is_aligned_for(2));
    assert!(middle.is_aligned_for(0) && middle.is_aligned_for(1) && !middle.is_aligned_for(2));
    assert!(low.is_aligned_for(0) && !low.is_aligned_for(1) && !low.is_aligned_for(2));
}

#[test]
fn leaf_translation_by_level() {
    let va = VirtAddr { bits: (5 << 30) | (6 << 21) | (7 << 12) | 0x123 };
    let leaf = Pte::new(0x4_0000 * 9, 0b0011).unwrap();
    assert_eq!(leaf.translate(&va, 0), Ok((9 << 30) | 0x123));
    assert_eq!(leaf.translate(&va, 1), Ok((9 << 30) | (7 << 12) | 0x123));
    assert_eq!(leaf.translate(&va, 2), Ok((9 << 30) | (6 << 21) | (7 << 12) | 0x123));
    let low = Pte::new(0x4_0001, 0b0011).unwrap();
    assert_eq!(low.translate(&va, 0), Ok((1 << 30) | (1 << 12) | 0x123));
    assert_eq!(low.translate(&va, 1), Err(TranslateError::MisalignedSuperpage));
    assert_eq!(low.translate(&va, 2), Err(TranslateError::MisalignedSuperpage));
}
