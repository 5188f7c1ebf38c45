use riscv_mm::memory_alloc::{
    allocate_pages, deallocate_pages, enumerate_runs, init, zero_allocate_pages, Page, PageBits,
    PAGE_SIZE,
};

const HEAP_START: u64 = 0x8000_0000;

fn heap_of(pages: usize) -> riscv_mm::memory_alloc::PageAllocator {
    init(HEAP_START, pages * PAGE_SIZE)
}

#[test]
fn data_pages_start_at_next_boundary_after_descriptors() {
    let heap = heap_of(16);
    assert_eq!(heap.total_pages(), 16);
    assert_eq!(heap.heap_start(), HEAP_START);
    assert_eq!(heap.alloc_start(), 0x8000_1000);
}

#[test]
fn data_pages_start_skips_a_page_when_descriptors_end_on_a_boundary() {
    let heap = init(0x8000_0000 - 4096, 4096 * PAGE_SIZE);
    assert_eq!(heap.total_pages(), 4096);
    assert_eq!(heap.alloc_start(), 0x8000_1000);
}

#[test]
fn heap_size_is_rounded_down_to_whole_pages() {
    let heap = init(HEAP_START, 3 * PAGE_SIZE + 4095);
    assert_eq!(heap.total_pages(), 3);
}

#[test]
fn fresh_heap_has_no_runs() {
    let heap = heap_of(16);
    assert_eq!(enumerate_runs(&heap), vec![]);
}

#[test]
fn allocate_three_then_release() {
    let mut heap = heap_of(16);
    let a = allocate_pages(&mut heap, 3).unwrap();
    assert_eq!(a, 0x8000_1000);
    assert_eq!(enumerate_runs(&heap), vec![(a, 3)]);
    deallocate_pages(&mut heap, a);
    assert_eq!(enumerate_runs(&heap), vec![]);
}

#[test]
fn round_trip_for_every_length() {
    for n in 1..=8usize {
        let mut heap = heap_of(8);
        let a = allocate_pages(&mut heap, n).unwrap();
        assert_eq!(enumerate_runs(&heap), vec![(a, n)]);
        deallocate_pages(&mut heap, a);
        assert_eq!(enumerate_runs(&heap), vec![]);
    }
}

#[test]
fn whole_heap_can_be_taken_as_one_run() {
    let mut heap = heap_of(4);
    let a = allocate_pages(&mut heap, 4).unwrap();
    assert_eq!(a, heap.alloc_start());
    assert_eq!(allocate_pages(&mut heap, 1), None);
}

#[test]
fn more_pages_than_the_heap_has_is_refused() {
    let mut heap = heap_of(16);
    assert_eq!(allocate_pages(&mut heap, 17), None);
    assert_eq!(enumerate_runs(&heap), vec![]);
    let mut empty = heap_of(0);
    assert_eq!(allocate_pages(&mut empty, 1), None);
}

#[test]
fn zero_pages_is_refused() {
    let mut heap = heap_of(16);
    assert_eq!(allocate_pages(&mut heap, 0), None);
    assert_eq!(zero_allocate_pages(&mut heap, 0), None);
    assert_eq!(enumerate_runs(&heap), vec![]);
}

#[test]
fn allocation_is_first_fit() {
    let mut heap = heap_of(8);
    let base = heap.alloc_start();
    let a = allocate_pages(&mut heap, 2).unwrap();
    let b = allocate_pages(&mut heap, 1).unwrap();
    let c = allocate_pages(&mut heap, 3).unwrap();
    assert_eq!((a, b, c), (base, base + 2 * 4096, base + 3 * 4096));
    deallocate_pages(&mut heap, a);
    // The hole of two pages is too small for three, which go behind.
    assert_eq!(allocate_pages(&mut heap, 3), None);
    let d = allocate_pages(&mut heap, 2).unwrap();
    assert_eq!(d, base);
    deallocate_pages(&mut heap, b);
    assert_eq!(
        enumerate_runs(&heap),
        vec![(base, 2), (base + 3 * 4096, 3)]
    );
    let e = allocate_pages(&mut heap, 1).unwrap();
    assert_eq!(e, base + 2 * 4096);
}

#[test]
fn adjacent_runs_are_told_apart() {
    let mut heap = heap_of(6);
    let base = heap.alloc_start();
    let a = allocate_pages(&mut heap, 2).unwrap();
    let b = allocate_pages(&mut heap, 2).unwrap();
    assert_eq!(enumerate_runs(&heap), vec![(a, 2), (b, 2)]);
    deallocate_pages(&mut heap, b);
    assert_eq!(enumerate_runs(&heap), vec![(base, 2)]);
}

#[test]
fn release_takes_any_address_of_the_first_page() {
    let mut heap = heap_of(4);
    let a = allocate_pages(&mut heap, 2).unwrap();
    assert!(heap.starts_run(a + 100));
    deallocate_pages(&mut heap, a + 100);
    assert_eq!(enumerate_runs(&heap), vec![]);
}

#[test]
fn starts_run_tells_run_starts() {
    let mut heap = heap_of(4);
    let base = heap.alloc_start();
    assert!(!heap.starts_run(base));
    let a = allocate_pages(&mut heap, 2).unwrap();
    let b = allocate_pages(&mut heap, 1).unwrap();
    assert!(heap.starts_run(a));
    assert!(!heap.starts_run(a + 4096));
    assert!(heap.starts_run(b));
    assert!(!heap.starts_run(base + 3 * 4096));
    assert!(!heap.starts_run(base - 1));
    assert!(!heap.starts_run(base + 4 * 4096));
    assert!(!heap.starts_run(0));
}

#[test]
fn zero_allocate_clears_every_byte() {
    let mut heap = heap_of(4);
    let a = allocate_pages(&mut heap, 2).unwrap();
    let mut addr = a;
    while addr < a + 2 * 4096 {
        heap.store_word(addr, 0xdead_beef_0123_4567);
        addr += 8;
    }
    assert_eq!(heap.load_byte(a), 0x67);
    deallocate_pages(&mut heap, a);
    let z = zero_allocate_pages(&mut heap, 2).unwrap();
    assert_eq!(z, a);
    for k in 0..(2 * 4096u64) {
        assert_eq!(heap.load_byte(z + k), 0);
    }
    assert_eq!(enumerate_runs(&heap), vec![(z, 2)]);
}

#[test]
fn plain_allocate_leaves_the_contents() {
    let mut heap = heap_of(2);
    let a = allocate_pages(&mut heap, 1).unwrap();
    heap.store_word(a + 8, 0x1122_3344_5566_7788);
    deallocate_pages(&mut heap, a);
    let b = allocate_pages(&mut heap, 1).unwrap();
    assert_eq!(b, a);
    assert_eq!(heap.load_word(b + 8), 0x1122_3344_5566_7788);
}

#[test]
fn zero_allocate_leaves_other_pages() {
    let mut heap = heap_of(3);
    let a = allocate_pages(&mut heap, 1).unwrap();
    heap.store_word(a, 7);
    heap.store_word(a + 4088, 9);
    let z = zero_allocate_pages(&mut heap, 2).unwrap();
    assert_eq!(z, a + 4096);
    assert_eq!(heap.load_word(a), 7);
    assert_eq!(heap.load_word(a + 4088), 9);
}

#[test]
fn bytes_of_a_word_are_little_endian() {
    let mut heap = heap_of(1);
    let a = heap.alloc_start();
    heap.store_word(a + 16, 0x0807_0605_0403_0201);
    for k in 0..8u64 {
        assert_eq!(heap.load_byte(a + 16 + k), (k + 1) as u8);
    }
    assert_eq!(heap.load_word(a + 16), 0x0807_0605_0403_0201);
    assert_eq!(heap.load_word(a + 8), 0);
}

#[test]
fn page_bits_are_single_flags() {
    assert_eq!(PageBits::Empty.byte(), 0);
    assert_eq!(PageBits::Taken.byte(), 1);
    assert_eq!(PageBits::Last.byte(), 2);
}

#[test]
fn page_descriptor_flags() {
    let mut page = Page { flags: 0 };
    assert!(page.is_free() && !page.is_taken() && !page.is_last());
    page.mark_taken();
    assert_eq!(page.flags, 1);
    assert!(!page.is_free() && page.is_taken() && !page.is_last());
    page.mark_last();
    assert_eq!(page.flags, 3);
    assert!(!page.is_free() && page.is_taken() && page.is_last());
    page.clear();
    assert_eq!(page.flags, 0);
    assert!(page.is_free());
}
