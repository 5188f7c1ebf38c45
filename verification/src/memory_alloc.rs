//! First-fit allocation of contiguous page runs over a fixed arena.

use vstd::prelude::*;

verus! {

/// Bytes in one physical page.
pub const PAGE_SIZE: usize = 4096;

/// 64-bit words in one physical page.
pub const WORDS_PER_PAGE: usize = 512;

/// Flag bits of a page descriptor.
#[derive(Clone, Copy)]
pub enum PageBits {
    Empty,
    Taken,
    Last,
}

impl PageBits {
    pub open spec fn spec_byte(self) -> u8 {
        match self {
            PageBits::Empty => 0u8,
            PageBits::Taken => 1u8,
            PageBits::Last => 2u8,
        }
    }

    /// The descriptor byte in which only this flag is set.
    pub fn byte(&self) -> (b: u8)
        ensures
            b == self.spec_byte(),
    {
        match self {
            PageBits::Empty => 0u8,
            PageBits::Taken => 1u8,
            PageBits::Last => 2u8,
        }
    }
}

/// What a descriptor says of its page. `Last` is a taken page that ends its run.
pub enum PageState {
    Free,
    Taken,
    Last,
}

/// One descriptor per physical page of the arena.
#[derive(Clone, Copy)]
pub struct Page {
    pub flags: u8,
}

/// The three descriptor encodings under the two flag masks.
proof fn lemma_flag_bits()
    ensures
        0u8 & 1u8 == 0u8,
        0u8 & 2u8 == 0u8,
        1u8 & 1u8 == 1u8,
        1u8 & 2u8 == 0u8,
        3u8 & 1u8 == 1u8,
        3u8 & 2u8 == 2u8,
        0u8 | 1u8 == 1u8,
        1u8 | 1u8 == 1u8,
        1u8 | 2u8 == 3u8,
        3u8 | 2u8 == 3u8,
        3u8 | 1u8 == 3u8,
{
    assert(0u8 & 1u8 == 0u8 && 0u8 & 2u8 == 0u8 && 1u8 & 1u8 == 1u8 && 1u8 & 2u8 == 0u8 && 3u8 & 1u8
        == 1u8 && 3u8 & 2u8 == 2u8 && 0u8 | 1u8 == 1u8 && 1u8 | 1u8 == 1u8 && 1u8 | 2u8 == 3u8 && 3u8
        | 2u8 == 3u8 && 3u8 | 1u8 == 3u8) by (bit_vector);
}

impl Page {
    /// The descriptor is one of the three encodings that the allocator writes.
    pub open spec fn wf(self) -> bool {
        self.flags == 0 || self.flags == 1 || self.flags == 3
    }

    pub open spec fn state(self) -> PageState {
        if self.flags == 0 {
            PageState::Free
        } else if self.flags == 1 {
            PageState::Taken
        } else {
            PageState::Last
        }
    }

    pub fn is_free(&self) -> (b: bool)
        ensures
            b == (self.flags == 0),
            self.wf() ==> b == (self.state() == PageState::Free),
    {
        self.flags == PageBits::Empty.byte()
    }

    pub fn is_taken(&self) -> (b: bool)
        ensures
            b == (self.flags & 1 != 0),
            self.wf() ==> b == (self.state() != PageState::Free),
    {
        proof {
            lemma_flag_bits();
        }
        (self.flags & PageBits::Taken.byte()) != 0
    }

    pub fn is_last(&self) -> (b: bool)
        ensures
            b == (self.flags & 2 != 0),
            self.wf() ==> b == (self.state() == PageState::Last),
    {
        proof {
            lemma_flag_bits();
        }
        (self.flags & PageBits::Last.byte()) != 0
    }

    pub fn clear(&mut self)
        ensures
            final(self).flags == 0,
            final(self).state() == PageState::Free,
    {
        self.flags = PageBits::Empty.byte();
    }

    pub fn mark_taken(&mut self)
        ensures
            final(self).flags == old(self).flags | 1,
            old(self).flags == 0 ==> final(self).flags == 1,
    {
        proof {
            lemma_flag_bits();
        }
        self.flags = self.flags | PageBits::Taken.byte();
    }

    pub fn mark_last(&mut self)
        ensures
            final(self).flags == old(self).flags | 2,
            old(self).flags == 1 ==> final(self).flags == 3,
    {
        proof {
            lemma_flag_bits();
        }
        self.flags = self.flags | PageBits::Last.byte();
    }
}


/// The allocator as a mathematical value: where the data pages start, what each
/// descriptor says, and the contents of the data pages as 64-bit words.
pub struct HeapModel {
    pub base: int,
    pub pages: Seq<PageState>,
    pub words: Seq<u64>,
}

impl HeapModel {
    /// A taken page that does not end its run is followed by another taken page.
    pub open spec fn chained(self, i: int) -> bool {
        0 <= i < self.pages.len() && self.pages[i] == PageState::Taken ==> i + 1 < self.pages.len()
            && self.pages[i + 1] != PageState::Free
    }

    pub open spec fn wf(self) -> bool {
        &&& 0 <= self.base
        &&& self.base % 4096 == 0
        &&& self.base + 4096 * self.pages.len() <= u64::MAX
        &&& self.words.len() == 512 * self.pages.len()
        &&& forall|i: int| #[trigger] self.chained(i)
    }

    /// Address of the data page with index `i`.
    pub open spec fn page_addr(self, i: int) -> int {
        self.base + 4096 * i
    }

    /// `addr` lies in one of the data pages.
    pub open spec fn contains_byte(self, addr: int) -> bool {
        self.base <= addr < self.base + 4096 * self.pages.len()
    }

    /// Index of the data page that holds `addr`.
    pub open spec fn page_of(self, addr: int) -> int {
        (addr - self.base) / 4096
    }

    /// `addr` is the address of a whole 64-bit word of the data pages.
    pub open spec fn contains_word(self, addr: int) -> bool {
        &&& self.base <= addr
        &&& addr + 8 <= self.base + 4096 * self.pages.len()
        &&& addr % 8 == 0
    }

    pub open spec fn word_index(self, addr: int) -> int {
        (addr - self.base) / 8
    }

    pub open spec fn word_at(self, addr: int) -> u64 {
        self.words[self.word_index(addr)]
    }

    /// The byte at `addr`; words are little-endian.
    pub open spec fn byte_at(self, addr: int) -> u8 {
        byte_of(self.words[(addr - self.base) / 8], ((addr - self.base) % 8) as u64)
    }

    pub open spec fn stored(self, addr: int, value: u64) -> HeapModel {
        HeapModel { words: self.words.update(self.word_index(addr), value), ..self }
    }

    /// Pages `[i, i + n)` are all free.
    pub open spec fn free_run(self, i: int, n: int) -> bool {
        &&& 0 <= i
        &&& 0 < n
        &&& i + n <= self.pages.len()
        &&& forall|j: int| i <= j < i + n ==> self.pages[j] == PageState::Free
    }

    /// `i` is the lowest index at which `n` free pages start.
    pub open spec fn first_fit(self, i: int, n: int) -> bool {
        &&& self.free_run(i, n)
        &&& forall|k: int| 0 <= k < i ==> !self.free_run(k, n)
    }

    /// No run of `n` free pages exists.
    pub open spec fn no_space(self, n: int) -> bool {
        forall|k: int| !self.free_run(k, n)
    }

    /// The heap after pages `[i, i + n)` became one run.
    pub open spec fn allocated(self, i: int, n: int) -> HeapModel {
        HeapModel {
            pages: Seq::new(
                self.pages.len(),
                |j: int|
                    if i <= j < i + n - 1 {
                        PageState::Taken
                    } else if j == i + n - 1 {
                        PageState::Last
                    } else {
                        self.pages[j]
                    },
            ),
            ..self
        }
    }

    /// The heap after every word of pages `[i, i + n)` was set to zero.
    pub open spec fn zeroed(self, i: int, n: int) -> HeapModel {
        HeapModel {
            words: Seq::new(
                self.words.len(),
                |w: int|
                    if 512 * i <= w < 512 * (i + n) {
                        0u64
                    } else {
                        self.words[w]
                    },
            ),
            ..self
        }
    }

    /// Number of pages from `i` up to and including the first page that ends a run.
    pub open spec fn run_len(self, i: int) -> int
        decreases self.pages.len() - i,
    {
        if 0 <= i < self.pages.len() && self.pages[i] == PageState::Taken {
            1 + self.run_len(i + 1)
        } else {
            1
        }
    }

    /// A run starts at page `i`.
    pub open spec fn owns_run(self, i: int) -> bool {
        &&& 0 <= i < self.pages.len()
        &&& self.pages[i] != PageState::Free
        &&& (i == 0 || self.pages[i - 1] != PageState::Taken)
    }

    /// The heap after the run that starts at page `i` was given back.
    pub open spec fn released(self, i: int) -> HeapModel {
        HeapModel {
            pages: Seq::new(
                self.pages.len(),
                |j: int|
                    if i <= j < i + self.run_len(i) {
                        PageState::Free
                    } else {
                        self.pages[j]
                    },
            ),
            ..self
        }
    }

    /// The runs that start at page `i` or later, in address order, each as its
    /// first page and its length.
    pub open spec fn runs_from(self, i: int) -> Seq<(int, int)>
        decreases self.pages.len() - i,
    {
        if i < 0 || i >= self.pages.len() {
            Seq::empty()
        } else if self.owns_run(i) {
            seq![(i, self.run_len(i))] + self.runs_from(i + 1)
        } else {
            self.runs_from(i + 1)
        }
    }

    /// Every run of the heap.
    pub open spec fn runs(self) -> Seq<(int, int)> {
        self.runs_from(0)
    }

    /// At least `k` pages are free, for `k` up to 2.
    pub open spec fn has_free(self, k: int) -> bool {
        if k <= 0 {
            true
        } else if k == 1 {
            exists|i: int| 0 <= i < self.pages.len() && #[trigger] self.pages[i] == PageState::Free
        } else {
            exists|i: int, j: int|
                0 <= i < self.pages.len() && 0 <= j < self.pages.len() && i != j
                    && #[trigger] self.pages[i] == PageState::Free && #[trigger] self.pages[j]
                    == PageState::Free
        }
    }
}

/// Byte `k` of a little-endian word.
pub open spec fn byte_of(w: u64, k: u64) -> u8 {
    ((w >> ((8 * k) as u64)) & 0xff) as u8
}

/// Every byte of the zero word is zero.
proof fn lemma_zero_word_bytes(k: u64)
    by (bit_vector)
    requires
        k < 8,
    ensures
        ((0u64 >> ((8 * k) as u64)) & 0xff) as u8 == 0u8,
{
}

/// Where the data pages start: past one descriptor byte per page, at the next
/// page boundary.
pub open spec fn data_start(heap_start: int, total_pages: int) -> int {
    ((heap_start + total_pages) / 4096 + 1) * 4096
}

/// A page allocator that owns its arena.
pub struct PageAllocator {
    heap_start: u64,
    alloc_start: u64,
    pages: Vec<Page>,
    words: Vec<u64>,
}

impl View for PageAllocator {
    type V = HeapModel;

    closed spec fn view(&self) -> HeapModel {
        HeapModel {
            base: self.alloc_start as int,
            pages: Seq::new(self.pages@.len(), |i: int| self.pages@[i].state()),
            words: self.words@,
        }
    }
}

impl PageAllocator {
    pub closed spec fn repr_wf(&self) -> bool {
        forall|i: int| 0 <= i < self.pages@.len() ==> (#[trigger] self.pages@[i]).wf()
    }

    /// The descriptors are well formed and every taken page belongs to a run
    /// that ends in a last page.
    pub open spec fn wf(&self) -> bool {
        self@.wf() && self.repr_wf()
    }

    /// Address of the first data page.
    pub fn alloc_start(&self) -> (a: u64)
        ensures
            a == self@.base,
    {
        self.alloc_start
    }

    /// Address that the arena was made with, where its descriptors start.
    pub closed spec fn spec_heap_start(&self) -> u64 {
        self.heap_start
    }

    /// Address that the arena was made with, where its descriptors start.
    pub fn heap_start(&self) -> (a: u64)
        ensures
            a == self.spec_heap_start(),
    {
        self.heap_start
    }

    /// Number of pages in the arena.
    pub fn total_pages(&self) -> (n: usize)
        ensures
            n == self@.pages.len(),
    {
        self.pages.len()
    }
}

/// Makes the allocator of an arena of `heap_size / PAGE_SIZE` pages, all free
/// and holding zeros.
pub fn init(heap_start: u64, heap_size: usize) -> (heap: PageAllocator)
    requires
        heap_start + (heap_size / 4096) * 4097 + 4096 <= u64::MAX,
    ensures
        heap.wf(),
        heap.spec_heap_start() == heap_start,
        heap@.base == data_start(heap_start as int, (heap_size / 4096) as int),
        heap@.pages == Seq::new((heap_size / 4096) as nat, |i: int| PageState::Free),
        heap@.words == Seq::new((512 * (heap_size / 4096)) as nat, |i: int| 0u64),
{
    let num_pages: usize = heap_size / PAGE_SIZE;
    let mut pages: Vec<Page> = Vec::new();
    let mut page_index: usize = 0;
    while page_index < num_pages
        invariant
            page_index <= num_pages,
            pages@.len() == page_index,
            forall|i: int| 0 <= i < page_index ==> (#[trigger] pages@[i]).flags == 0,
        decreases num_pages - page_index,
    {
        let mut page = Page { flags: 0 };
        page.clear();
        pages.push(page);
        page_index += 1;
    }
    let num_words: usize = num_pages * WORDS_PER_PAGE;
    let mut words: Vec<u64> = Vec::new();
    let mut word_index: usize = 0;
    while word_index < num_words
        invariant
            word_index <= num_words,
            words@.len() == word_index,
            forall|i: int| 0 <= i < word_index ==> #[trigger] words@[i] == 0,
        decreases num_words - word_index,
    {
        words.push(0u64);
        word_index += 1;
    }
    let descriptors_end: u64 = heap_start + num_pages as u64;
    let alloc_start: u64 = descriptors_end + (PAGE_SIZE as u64 - descriptors_end % (
    PAGE_SIZE as u64));
    let heap = PageAllocator { heap_start, alloc_start, pages, words };
    proof {
        assert(heap@.pages =~= Seq::new(num_pages as nat, |i: int| PageState::Free));
        assert(heap@.words =~= Seq::new((512 * num_pages) as nat, |i: int| 0u64));
        assert forall|i: int| #[trigger] heap@.chained(i) by {}
    }
    heap
}


/// Takes the first run of `num_pages` free pages and returns the address of its
/// first page. A request for no pages, or for more than any free run holds, is
/// refused and changes nothing.
pub fn allocate_pages(heap: &mut PageAllocator, num_pages: usize) -> (res: Option<u64>)
    requires
        old(heap).wf(),
    ensures
        final(heap).wf(),
        match res {
            Some(addr) => exists|i: int|
                {
                    &&& #[trigger] old(heap)@.first_fit(i, num_pages as int)
                    &&& addr == old(heap)@.page_addr(i)
                    &&& final(heap)@ == old(heap)@.allocated(i, num_pages as int)
                },
            None => final(heap)@ == old(heap)@ && old(heap)@.no_space(num_pages as int),
        },
        num_pages > old(heap)@.pages.len() ==> res is None,
{
    let total_pages: usize = heap.pages.len();
    if num_pages == 0 || num_pages > total_pages {
        return None;
    }
    let mut start_page_index: usize = 0;
    while start_page_index <= total_pages - num_pages
        invariant
            heap == old(heap),
            heap.wf(),
            total_pages == heap.pages@.len(),
            0 < num_pages <= total_pages,
            forall|k: int| 0 <= k < start_page_index ==> !heap@.free_run(k, num_pages as int),
        decreases total_pages + 1 - start_page_index,
    {
        let mut found: bool = true;
        let mut next_page_index: usize = start_page_index;
        while found && next_page_index < start_page_index + num_pages
            invariant
                heap == old(heap),
                heap.wf(),
                total_pages == heap.pages@.len(),
                start_page_index + num_pages <= total_pages,
                start_page_index <= next_page_index <= start_page_index + num_pages,
                !found ==> !heap@.free_run(start_page_index as int, num_pages as int),
                forall|j: int|
                    start_page_index <= j < next_page_index ==> heap@.pages[j] == PageState::Free,
            decreases start_page_index + num_pages - next_page_index + (if found {
                1int
            } else {
                0int
            }),
        {
            if heap.pages[next_page_index].is_taken() {
                found = false;
                assert(heap@.pages[next_page_index as int] != PageState::Free);
            } else {
                next_page_index += 1;
            }
        }
        if found {
            let ghost before = heap@;
            assert(before.first_fit(start_page_index as int, num_pages as int));
            let mut mark_index: usize = start_page_index;
            while mark_index < start_page_index + num_pages
                invariant
                    old(heap).wf(),
                    before == old(heap)@,
                    before.free_run(start_page_index as int, num_pages as int),
                    heap.alloc_start == old(heap).alloc_start,
                    heap.words == old(heap).words,
                    heap.heap_start == old(heap).heap_start,
                    heap.pages@.len() == total_pages,
                    start_page_index <= mark_index <= start_page_index + num_pages,
                    start_page_index + num_pages <= total_pages,
                    old(heap).pages@.len() == total_pages,
                    forall|j: int|
                        0 <= j < total_pages ==> (#[trigger] heap.pages@[j]).flags == (if start_page_index
                            <= j < mark_index {
                            1u8
                        } else {
                            old(heap).pages@[j].flags
                        }),
                decreases start_page_index + num_pages - mark_index,
            {
                let mut page: Page = heap.pages[mark_index];
                assert(before.pages[mark_index as int] == PageState::Free);
                assert(old(heap).pages@[mark_index as int].wf());
                page.mark_taken();
                heap.pages.set(mark_index, page);
                mark_index += 1;
            }
            let last_index: usize = start_page_index + num_pages - 1;
            let mut last: Page = heap.pages[last_index];
            last.mark_last();
            heap.pages.set(last_index, last);
            proof {
                let after = before.allocated(start_page_index as int, num_pages as int);
                assert forall|j: int| 0 <= j < total_pages implies heap@.pages[j] == after.pages[j]
                    && (#[trigger] heap.pages@[j]).wf() by {
                    assert(old(heap).pages@[j].wf());
                    assert(before.pages[j] == old(heap).pages@[j].state());
                }
                assert(heap@.pages =~= after.pages);
                assert(heap@ == after);
                assert forall|i: int| #[trigger] heap@.chained(i) by {
                    assert(before.chained(i));
                    if 0 <= i < total_pages && heap@.pages[i] == PageState::Taken {
                        if i + 1 == start_page_index {
                            assert(before.pages[i + 1] == PageState::Free);
                        }
                    }
                }
            }
            return Some(heap.alloc_start + (PAGE_SIZE as u64) * (start_page_index as u64));
        }
        start_page_index += 1;
    }
    proof {
        assert forall|k: int| !heap@.free_run(k, num_pages as int) by {}
    }
    None
}


impl PageAllocator {
    /// Reads the 64-bit word at `addr`.
    pub fn load_word(&self, addr: u64) -> (value: u64)
        requires
            self.wf(),
            self@.contains_word(addr as int),
        ensures
            value == self@.word_at(addr as int),
    {
        let index: u64 = (addr - self.alloc_start) / 8;
        let num_words: usize = self.words.len();
        assert(index < num_words);
        self.words[index as usize]
    }

    /// Writes the 64-bit word at `addr`.
    pub fn store_word(&mut self, addr: u64, value: u64)
        requires
            old(self).wf(),
            old(self)@.contains_word(addr as int),
        ensures
            final(self).wf(),
            final(self)@ == old(self)@.stored(addr as int, value),
    {
        let index: u64 = (addr - self.alloc_start) / 8;
        let num_words: usize = self.words.len();
        assert(index < num_words);
        self.words.set(index as usize, value);
        proof {
            assert(index as usize as int == old(self)@.word_index(addr as int));
            assert(self@.pages =~= old(self)@.pages);
            assert forall|i: int| #[trigger] self@.chained(i) by {
                assert(old(self)@.chained(i));
            }
        }
    }

    /// Reads the byte at `addr`.
    pub fn load_byte(&self, addr: u64) -> (value: u8)
        requires
            self.wf(),
            self@.contains_byte(addr as int),
        ensures
            value == self@.byte_at(addr as int),
    {
        let offset: u64 = addr - self.alloc_start;
        let num_words: usize = self.words.len();
        assert(offset / 8 < num_words);
        let word: u64 = self.words[(offset / 8) as usize];
        let k: u64 = offset % 8;
        #[verifier::truncate]
        (((word >> (8 * k)) & 0xff) as u8)
    }

    /// Whether `addr` lies in the first page of a run.
    pub fn starts_run(&self, addr: u64) -> (b: bool)
        requires
            self.wf(),
        ensures
            b == (self@.contains_byte(addr as int) && self@.owns_run(self@.page_of(addr as int))),
    {
        if addr < self.alloc_start {
            return false;
        }
        let offset: u64 = addr - self.alloc_start;
        if offset / (PAGE_SIZE as u64) >= self.pages.len() as u64 {
            return false;
        }
        let total_pages: usize = self.pages.len();
        assert(offset / 4096 < total_pages);
        let index: usize = (offset / (PAGE_SIZE as u64)) as usize;
        assert(self.pages@[index as int].wf());
        if !self.pages[index].is_taken() {
            return false;
        }
        if index == 0 {
            return true;
        }
        assert(self.pages@[index - 1].wf());
        let before: &Page = &self.pages[index - 1];
        !before.is_taken() || before.is_last()
    }
}

/// As `allocate_pages`, and every byte of the pages handed out is zero.
pub fn zero_allocate_pages(heap: &mut PageAllocator, num_pages: usize) -> (res: Option<u64>)
    requires
        old(heap).wf(),
    ensures
        final(heap).wf(),
        match res {
            Some(addr) => exists|i: int|
                {
                    &&& #[trigger] old(heap)@.first_fit(i, num_pages as int)
                    &&& addr == old(heap)@.page_addr(i)
                    &&& final(heap)@ == old(heap)@.allocated(i, num_pages as int).zeroed(
                        i,
                        num_pages as int,
                    )
                },
            None => final(heap)@ == old(heap)@ && old(heap)@.no_space(num_pages as int),
        },
        num_pages > old(heap)@.pages.len() ==> res is None,
        forall|a: int|
            res is Some && res->0 <= a < res->0 + 4096 * num_pages ==> #[trigger] final(heap)@.byte_at(
                a,
            ) == 0,
{
    let memory: u64 = match allocate_pages(heap, num_pages) {
        Some(memory) => memory,
        None => { return None; },
    };
    let ghost mid = heap@;
    let ghost first: int = mid.page_of(memory as int);
    assert(old(heap)@.first_fit(first, num_pages as int) && mid == old(heap)@.allocated(
        first,
        num_pages as int,
    )) by {
        let i = choose|i: int|
            {
                &&& #[trigger] old(heap)@.first_fit(i, num_pages as int)
                &&& memory == old(heap)@.page_addr(i)
                &&& mid == old(heap)@.allocated(i, num_pages as int)
            };
        assert(i == first);
    }
    assert(first + num_pages <= mid.pages.len());
    let num_words: usize = heap.words.len();
    assert(512 * (first + num_pages) <= num_words);
    assert((memory - heap.alloc_start) / 8 == 512 * first);
    let start: usize = ((memory - heap.alloc_start) / 8) as usize;
    let size: usize = num_pages * WORDS_PER_PAGE;
    let mut i: usize = 0;
    while i < size
        invariant
            heap.wf(),
            heap@.base == mid.base,
            heap@.pages == mid.pages,
            heap@.words.len() == mid.words.len(),
            start == 512 * first,
            size == 512 * num_pages,
            0 <= first,
            first + num_pages <= mid.pages.len(),
            mid.words.len() == 512 * mid.pages.len(),
            mid.words.len() == num_words,
            i <= size,
            forall|w: int|
                0 <= w < mid.words.len() ==> #[trigger] heap@.words[w] == (if start <= w < start + i {
                    0u64
                } else {
                    mid.words[w]
                }),
        decreases size - i,
    {
        let ghost prev = heap@;
        heap.words.set(start + i, 0u64);
        proof {
            assert(heap@.pages =~= prev.pages);
            assert forall|k: int| #[trigger] heap@.chained(k) by {
                assert(prev.chained(k));
            }
        }
        i += 1;
    }
    proof {
        let after = mid.zeroed(first, num_pages as int);
        assert(heap@.words =~= after.words);
        assert(heap@ == after);
        assert forall|a: int| memory <= a < memory + 4096 * num_pages implies #[trigger] heap@.byte_at(
            a,
        ) == 0 by {
            let w = (a - heap@.base) / 8;
            assert(start <= w < start + size);
            lemma_zero_word_bytes(((a - heap@.base) % 8) as u64);
        }
    }
    Some(memory)
}

/// Gives back the run whose first page holds `addr`.
pub fn deallocate_pages(heap: &mut PageAllocator, addr: u64)
    requires
        old(heap).wf(),
        old(heap)@.contains_byte(addr as int),
        old(heap)@.owns_run(old(heap)@.page_of(addr as int)),
    ensures
        final(heap).wf(),
        final(heap)@ == old(heap)@.released(old(heap)@.page_of(addr as int)),
{
    let ghost before = heap@;
    let total_pages: usize = heap.pages.len();
    assert((addr - heap.alloc_start) / 4096 < total_pages);
    let first: usize = ((addr - heap.alloc_start) / (PAGE_SIZE as u64)) as usize;
    let mut index: usize = first;
    assert(heap.pages@[first as int].wf());
    while heap.pages[index].is_taken() && !heap.pages[index].is_last()
        invariant
            old(heap).wf(),
            before == old(heap)@,
            before.owns_run(first as int),
            heap.alloc_start == old(heap).alloc_start,
            heap.words == old(heap).words,
            heap.heap_start == old(heap).heap_start,
            heap.pages@.len() == total_pages,
            old(heap).pages@.len() == total_pages,
            first <= index < total_pages,
            before.pages[index as int] != PageState::Free,
            before.run_len(first as int) == (index - first) + before.run_len(index as int),
            forall|j: int|
                0 <= j < total_pages ==> (#[trigger] heap.pages@[j]).flags == (if first <= j < index {
                    0u8
                } else {
                    old(heap).pages@[j].flags
                }),
        decreases total_pages - index,
    {
        proof {
            assert(old(heap).pages@[index as int].wf());
            assert(before.pages[index as int] == PageState::Taken);
            assert(before.chained(index as int));
            assert(old(heap).pages@[index + 1].wf());
        }
        let mut page: Page = heap.pages[index];
        page.clear();
        heap.pages.set(index, page);
        index += 1;
    }
    proof {
        assert(old(heap).pages@[index as int].wf());
        assert(before.pages[index as int] == PageState::Last);
        assert(before.run_len(index as int) == 1);
    }
    let mut page: Page = heap.pages[index];
    page.clear();
    heap.pages.set(index, page);
    proof {
        let after = before.released(first as int);
        assert forall|j: int| 0 <= j < total_pages implies heap@.pages[j] == after.pages[j] && (
        #[trigger] heap.pages@[j]).wf() by {
            assert(old(heap).pages@[j].wf());
            assert(before.pages[j] == old(heap).pages@[j].state());
        }
        assert(heap@.pages =~= after.pages);
        assert(heap@ == after);
        assert forall|i: int| #[trigger] heap@.chained(i) by {
            assert(before.chained(i));
        }
    }
}

/// Every run of taken pages, in address order, as the address of its first
/// page and its number of pages.
pub fn enumerate_runs(heap: &PageAllocator) -> (runs: Vec<(u64, usize)>)
    requires
        heap.wf(),
    ensures
        runs@.len() == heap@.runs().len(),
        forall|k: int|
            0 <= k < runs@.len() ==> (#[trigger] runs@[k]).0 == heap@.page_addr(heap@.runs()[k].0)
                && runs@[k].1 == heap@.runs()[k].1,
{
    let total_pages: usize = heap.pages.len();
    let mut runs: Vec<(u64, usize)> = Vec::new();
    let ghost mut found: Seq<(int, int)> = Seq::empty();
    let mut page_index: usize = 0;
    while page_index < total_pages
        invariant
            heap.wf(),
            total_pages == heap.pages@.len(),
            page_index <= total_pages,
            page_index == 0 || heap@.pages[page_index - 1] != PageState::Taken,
            found + heap@.runs_from(page_index as int) == heap@.runs(),
            runs@.len() == found.len(),
            forall|k: int|
                0 <= k < runs@.len() ==> (#[trigger] runs@[k]).0 == heap@.page_addr(found[k].0)
                    && runs@[k].1 == found[k].1,
        decreases total_pages - page_index,
    {
        assert(heap.pages@[page_index as int].wf());
        if heap.pages[page_index].is_free() {
            page_index += 1;
        } else {
            let start: usize = page_index;
            assert(heap@.owns_run(start as int));
            while !heap.pages[page_index].is_last()
                invariant
                    heap.wf(),
                    total_pages == heap.pages@.len(),
                    start <= page_index < total_pages,
                    heap@.pages[page_index as int] != PageState::Free,
                    heap@.run_len(start as int) == (page_index - start) + heap@.run_len(
                        page_index as int,
                    ),
                    heap@.runs_from(start + 1) == heap@.runs_from(page_index + 1),
                decreases total_pages - page_index,
            {
                proof {
                    assert(heap.pages@[page_index as int].wf());
                    assert(heap@.chained(page_index as int));
                    assert(heap.pages@[page_index + 1].wf());
                    assert(!heap@.owns_run(page_index + 1));
                }
                page_index += 1;
            }
            proof {
                assert(heap.pages@[page_index as int].wf());
                assert(heap@.run_len(page_index as int) == 1);
            }
            let num_pages: usize = page_index - start + 1;
            let address: u64 = heap.alloc_start + (PAGE_SIZE as u64) * (start as u64);
            runs.push((address, num_pages));
            proof {
                let prev = found;
                found = found.push((start as int, num_pages as int));
                assert(found + heap@.runs_from(page_index + 1) =~= prev + heap@.runs_from(
                    start as int,
                ));
            }
            page_index += 1;
        }
    }
    proof {
        assert(found =~= found + heap@.runs_from(total_pages as int));
    }
    runs
}


impl HeapModel {
    /// Every page is free.
    pub open spec fn all_free(self) -> bool {
        forall|j: int| 0 <= j < self.pages.len() ==> self.pages[j] == PageState::Free
    }

    /// In a run that was just made of pages `[i, i + n)`, the run length seen
    /// from page `j` of the run is what is left of it.
    pub proof fn lemma_run_len_allocated(self, i: int, n: int, j: int)
        requires
            0 <= i <= j < i + n <= self.pages.len(),
        ensures
            self.allocated(i, n).run_len(j) == i + n - j,
        decreases i + n - j,
    {
        if j < i + n - 1 {
            self.lemma_run_len_allocated(i, n, j + 1);
        }
    }

    /// Taking a free run keeps the heap well formed, and giving that run back
    /// restores the heap as it was.
    pub proof fn lemma_allocate_release(self, i: int, n: int)
        requires
            self.wf(),
            self.free_run(i, n),
        ensures
            self.allocated(i, n).wf(),
            self.allocated(i, n).owns_run(i),
            self.allocated(i, n).run_len(i) == n,
            self.allocated(i, n).released(i) == self,
    {
        let a = self.allocated(i, n);
        assert forall|k: int| #[trigger] a.chained(k) by {
            assert(self.chained(k));
        }
        assert(self.chained(i - 1));
        self.lemma_run_len_allocated(i, n, i);
        assert(a.released(i).pages =~= self.pages);
    }

    /// A heap with no taken page from `i` on has no run from `i` on.
    pub proof fn lemma_no_runs_in_free_pages(self, i: int)
        requires
            0 <= i,
            forall|j: int| i <= j < self.pages.len() ==> self.pages[j] == PageState::Free,
        ensures
            self.runs_from(i) == Seq::<(int, int)>::empty(),
        decreases self.pages.len() - i,
    {
        if i < self.pages.len() {
            self.lemma_no_runs_in_free_pages(i + 1);
        }
    }

    /// After the first `n` pages of a free heap became a run, no run starts
    /// behind the first page.
    proof fn lemma_single_run_tail(self, n: int, j: int)
        requires
            self.all_free(),
            0 < n <= self.pages.len(),
            1 <= j,
        ensures
            self.allocated(0, n).runs_from(j) == Seq::<(int, int)>::empty(),
        decreases self.pages.len() - j,
    {
        let a = self.allocated(0, n);
        if j < self.pages.len() {
            self.lemma_single_run_tail(n, j + 1);
            assert(!a.owns_run(j));
        }
    }

    /// On a heap of free pages no run is reported; after the first `n` pages
    /// are taken exactly one run of `n` pages is reported, at the first page;
    /// after that run is given back the heap is as before, with no run.
    pub proof fn lemma_round_trip(self, n: int)
        requires
            self.wf(),
            self.all_free(),
            0 < n <= self.pages.len(),
        ensures
            self.runs() == Seq::<(int, int)>::empty(),
            self.first_fit(0, n),
            self.allocated(0, n).runs() == seq![(0int, n)],
            self.allocated(0, n).owns_run(0),
            self.allocated(0, n).released(0) == self,
    {
        self.lemma_no_runs_in_free_pages(0);
        self.lemma_allocate_release(0, n);
        self.lemma_single_run_tail(n, 1);
        let a = self.allocated(0, n);
        assert(a.runs_from(0) =~= seq![(0int, n)]);
    }

    /// A request for more pages than the heap has finds no run.
    pub proof fn lemma_exhaustion(self, n: int)
        requires
            n > self.pages.len(),
        ensures
            self.no_space(n),
    {
    }
}

} // verus!
