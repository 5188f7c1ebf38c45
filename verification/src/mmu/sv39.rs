//! The three-level Sv39 page table: its bit-level encodings, mapping,
//! translation and teardown.

use vstd::prelude::*;
use crate::memory_alloc::{zero_allocate_pages, deallocate_pages, HeapModel, PageAllocator, PageState};

verus! {

/// The flag bits of a page table entry.
#[derive(Copy, Clone)]
pub enum PteBits {
    Valid,
    Read,
    Write,
    Execute,
    /// User mode can access.
    UserMode,
    /// Global mapping.
    Globe,
    Accessed,
    Dirty,
}

impl PteBits {
    pub open spec fn spec_val(self) -> u64 {
        match self {
            PteBits::Valid => 1,
            PteBits::Read => 2,
            PteBits::Write => 4,
            PteBits::Execute => 8,
            PteBits::UserMode => 16,
            PteBits::Globe => 32,
            PteBits::Accessed => 64,
            PteBits::Dirty => 128,
        }
    }

    /// The entry bit that stands for this flag.
    pub fn val(&self) -> (v: u64)
        ensures
            v == self.spec_val(),
    {
        match self {
            PteBits::Valid => 1,
            PteBits::Read => 2,
            PteBits::Write => 4,
            PteBits::Execute => 8,
            PteBits::UserMode => 16,
            PteBits::Globe => 32,
            PteBits::Accessed => 64,
            PteBits::Dirty => 128,
        }
    }
}

/// Why a translation gave no address.
#[derive(Clone, Copy, Debug, PartialEq, Eq, Structural)]
pub enum TranslateError {
    /// The walk met an entry that is not valid.
    Unmapped,
    /// The walk met a leaf above the last level whose page number is not
    /// aligned to the region it covers.
    MisalignedSuperpage,
}

/// Why a mapping was not made.
#[derive(Clone, Copy, Debug, PartialEq, Eq, Structural)]
pub enum MapError {
    /// The permission bits allow writing without reading.
    ReservedEncoding,
    /// The allocator has no free page for a table that the mapping needs.
    NoSpace,
}

/// Index into the table of `level` that `va` selects.
pub open spec fn vpn(va: u64, level: int) -> u64 {
    if level == 0 {
        (va >> 12) & 0x1ff
    } else if level == 1 {
        (va >> 21) & 0x1ff
    } else {
        (va >> 30) & 0x1ff
    }
}

/// The 27 bits of `va` that select a page.
pub open spec fn whole_vpn(va: u64) -> u64 {
    (va >> 12) & 0x7ff_ffff
}

/// The 12 bits of `va` that select a byte of its page.
pub open spec fn page_offset(va: u64) -> u64 {
    va & 0xfff
}

/// The bits of the page number that a leaf at `depth` takes from the address.
pub open spec fn vpn_mask(depth: int) -> u64 {
    if depth <= 0 {
        0
    } else if depth == 1 {
        0x1ff
    } else {
        0x3_ffff
    }
}

pub open spec fn pte_valid(e: u64) -> bool {
    e & 1 != 0
}

pub open spec fn pte_read(e: u64) -> bool {
    e & 2 != 0
}

pub open spec fn pte_write(e: u64) -> bool {
    e & 4 != 0
}

pub open spec fn pte_execute(e: u64) -> bool {
    e & 8 != 0
}

/// An entry that grants no access points to a table of the next level.
pub open spec fn pte_branch(e: u64) -> bool {
    !(pte_read(e) || pte_write(e) || pte_execute(e))
}

/// Writing without reading is an encoding that the hardware reserves.
pub open spec fn pte_reserved(e: u64) -> bool {
    pte_write(e) && !pte_read(e)
}

/// The entry is valid and points to a table.
pub open spec fn pte_table(e: u64) -> bool {
    pte_valid(e) && pte_branch(e)
}

/// The 44-bit physical page number of an entry.
pub open spec fn pte_ppn(e: u64) -> u64 {
    (e >> 10) & 0xfff_ffff_ffff
}

/// One of the three parts of the physical page number of an entry.
pub open spec fn pte_ppn_part(e: u64, level: int) -> u64 {
    if level == 0 {
        (e >> 10) & 0x1ff
    } else if level == 1 {
        (e >> 19) & 0x1ff
    } else {
        (e >> 28) & 0x3ff_ffff
    }
}

/// The entry for page number `ppn` with the flag bits `bits`.
pub open spec fn pte_encode(ppn: u64, bits: u64) -> u64 {
    (ppn << 10) | bits
}

/// A leaf above the last level must point to a page that is aligned to the
/// region the leaf covers.
pub open spec fn pte_misaligned(e: u64, depth: int) -> bool {
    (depth >= 1 && pte_ppn_part(e, 0) != 0) || (depth >= 2 && pte_ppn_part(e, 1) != 0)
}

/// What a walk that ends in the leaf `e` at `depth` gives for the address `va`.
pub open spec fn leaf_address(e: u64, va: u64, depth: int) -> Result<u64, TranslateError> {
    if pte_misaligned(e, depth) {
        Err(TranslateError::MisalignedSuperpage)
    } else {
        Ok(((pte_ppn(e) | (whole_vpn(va) & vpn_mask(depth))) << 12) | page_offset(va))
    }
}

/// An entry gives back the page number and the access bits it was made of.
pub(crate) proof fn lemma_encode(ppn: u64, bits: u64)
    by (bit_vector)
    requires
        ppn < 0x1000_0000_0000,
        bits < 256,
    ensures
        (((ppn << 10) | bits) >> 10) & 0xfff_ffff_ffff == ppn,
        ((ppn << 10) | bits) & 1 == bits & 1,
        ((ppn << 10) | bits) & 2 == bits & 2,
        ((ppn << 10) | bits) & 4 == bits & 4,
        ((ppn << 10) | bits) & 8 == bits & 8,
        (((ppn << 10) | bits) >> 10) & 0x1ff == ppn & 0x1ff,
        (((ppn << 10) | bits) >> 19) & 0x1ff == (ppn >> 9) & 0x1ff,
        (((ppn << 10) | bits) >> 28) & 0x3ff_ffff == ppn >> 18,
{
}

/// The page number bits below each level, and the flags of an empty entry
/// and of a bare valid one.
pub(crate) proof fn lemma_mask(depth: u64)
    by (bit_vector)
    requires
        depth <= 2,
    ensures
        depth == 0 ==> (1u64 << ((9 * depth) as u64)) - 1 == 0,
        depth == 1 ==> (1u64 << ((9 * depth) as u64)) - 1 == 0x1ff,
        depth == 2 ==> (1u64 << ((9 * depth) as u64)) - 1 == 0x3_ffff,
        0u64 & 1 == 0,
        1u64 & 1 == 1,
        1u64 & 2 == 0,
        1u64 & 4 == 0,
        1u64 & 8 == 0,
{
}

/// Bounds of the masked fields, and shifts by the page width as arithmetic.
pub(crate) proof fn lemma_index_bound(x: u64)
    by (bit_vector)
    ensures
        x & 0x1ff < 512,
        x & 0xfff < 4096,
        (x >> 10) & 0xfff_ffff_ffff < 0x1000_0000_0000,
        ((x >> 10) & 0xfff_ffff_ffff) << 12 == ((x >> 10) & 0xfff_ffff_ffff) * 4096,
        x >> 12 == x / 4096,
        (x & 0xfff == 0) <==> (x % 4096 == 0),
{
}

/// A virtual address.
pub struct VirtAddr {
    pub bits: u64,
}

impl VirtAddr {
    /// The table indices of the address, for level 0, 1 and 2.
    pub fn get_vpn(&self) -> (v: [u64; 3])
        ensures
            forall|level: int| 0 <= level < 3 ==> #[trigger] v[level] == vpn(self.bits, level),
            forall|level: int| 0 <= level < 3 ==> #[trigger] v[level] < 512,
    {
        let nine_ones: u64 = 0b1_1111_1111;
        proof {
            lemma_index_bound(self.bits >> 12);
            lemma_index_bound(self.bits >> 21);
            lemma_index_bound(self.bits >> 30);
        }
        [(self.bits >> 12) & nine_ones, (self.bits >> 21) & nine_ones, (self.bits >> 30) & nine_ones]
    }

    /// The page-selecting bits of the address.
    pub fn get_whole_vpn(&self) -> (v: u64)
        ensures
            v == whole_vpn(self.bits),
    {
        let twenty_seven_ones: u64 = 0x7ff_ffff;
        (self.bits >> 12) & twenty_seven_ones
    }

    /// The byte offset of the address in its page.
    pub fn get_offset(&self) -> (v: u64)
        ensures
            v == page_offset(self.bits),
            v < 4096,
    {
        let twelve_ones: u64 = 0xfff;
        proof {
            lemma_index_bound(self.bits);
        }
        self.bits & twelve_ones
    }
}

/// A page table entry.
#[derive(Clone, Copy)]
pub struct Pte {
    pub bits: u64,
}

impl Pte {
    /// Makes the entry for page number `ppn` with the flag bits
    /// `protection_bits`, unless the bits allow writing without reading.
    pub fn new(ppn: u64, protection_bits: u64) -> (res: Result<Pte, MapError>)
        requires
            ppn < 0x1000_0000_0000,
            protection_bits < 256,
        ensures
            match res {
                Ok(pte) => !pte_reserved(protection_bits) && pte.bits == pte_encode(
                    ppn,
                    protection_bits,
                ) && !pte_reserved(pte.bits),
                Err(e) => pte_reserved(protection_bits) && e == MapError::ReservedEncoding,
            },
    {
        let out = Pte { bits: (ppn << 10) | protection_bits };
        proof {
            lemma_encode(ppn, protection_bits);
        }
        if out.is_reserved() {
            Err(MapError::ReservedEncoding)
        } else {
            Ok(out)
        }
    }

    /// The three parts of the physical page number.
    pub fn get_ppn(&self) -> (v: [u64; 3])
        ensures
            forall|level: int| 0 <= level < 3 ==> #[trigger] v[level] == pte_ppn_part(self.bits, level),
    {
        let nine_ones: u64 = 0b1_1111_1111;
        let twenty_six_ones: u64 = 0x3ff_ffff;
        [
            (self.bits >> 10) & nine_ones,
            (self.bits >> 19) & nine_ones,
            (self.bits >> 28) & twenty_six_ones,
        ]
    }

    /// The physical page number.
    pub fn get_whole_ppn(&self) -> (v: u64)
        ensures
            v == pte_ppn(self.bits),
            v < 0x1000_0000_0000,
    {
        let fourty_four_ones: u64 = 0xfff_ffff_ffff;
        proof {
            lemma_index_bound(self.bits);
        }
        (self.bits >> 10) & fourty_four_ones
    }

    /// The address of the page that the entry points to.
    pub fn get_physical_addr(&self) -> (v: u64)
        ensures
            v == pte_ppn(self.bits) * 4096,
    {
        let ppn: u64 = self.get_whole_ppn();
        proof {
            lemma_index_bound(self.bits);
        }
        ppn << 12
    }

    pub fn is_valid(&self) -> (b: bool)
        ensures
            b == pte_valid(self.bits),
    {
        self.bits & PteBits::Valid.val() != 0
    }

    pub fn is_read(&self) -> (b: bool)
        ensures
            b == pte_read(self.bits),
    {
        self.bits & PteBits::Read.val() != 0
    }

    pub fn is_write(&self) -> (b: bool)
        ensures
            b == pte_write(self.bits),
    {
        self.bits & PteBits::Write.val() != 0
    }

    pub fn is_execute(&self) -> (b: bool)
        ensures
            b == pte_execute(self.bits),
    {
        self.bits & PteBits::Execute.val() != 0
    }

    pub fn is_branch(&self) -> (b: bool)
        ensures
            b == pte_branch(self.bits),
    {
        !(self.is_read() || self.is_write() || self.is_execute())
    }

    pub fn is_leaf(&self) -> (b: bool)
        ensures
            b == !pte_branch(self.bits),
    {
        !self.is_branch()
    }

    pub fn is_reserved(&self) -> (b: bool)
        ensures
            b == pte_reserved(self.bits),
    {
        self.is_write() && !self.is_read()
    }
}


/// Number of entries in a table; a table fills one page.
pub const PAGE_TABLE_NUM_ENTRIES: usize = 512;

/// Number of levels of the tree.
pub const NUM_LEVELS: usize = 3;

/// Physical addresses have 56 bits.
pub const PHYSICAL_LIMIT: u64 = 0x100_0000_0000_0000;

/// A table of 8-byte entries fills exactly one page.
pub proof fn lemma_table_fills_page()
    ensures
        PAGE_TABLE_NUM_ENTRIES * 8 == crate::memory_alloc::PAGE_SIZE,
        PAGE_TABLE_NUM_ENTRIES == crate::memory_alloc::WORDS_PER_PAGE,
{
}

/// Entry `idx` of the table that fills data page `page`.
pub open spec fn entry(h: HeapModel, page: int, idx: int) -> u64 {
    h.words[512 * page + idx]
}

/// Index of the data page that the entry `e` points to.
pub open spec fn child_page(h: HeapModel, e: u64) -> int {
    pte_ppn(e) - h.base / 4096
}

/// The translation of `va` by the table in data page `page`, which stands at
/// level `depth` of the tree.
pub open spec fn walk(h: HeapModel, page: int, va: u64, depth: int) -> Result<u64, TranslateError>
    decreases depth,
{
    let e = entry(h, page, vpn(va, depth) as int);
    if !pte_valid(e) {
        Err(TranslateError::Unmapped)
    } else if pte_branch(e) {
        if depth <= 0 {
            Err(TranslateError::Unmapped)
        } else {
            walk(h, child_page(h, e), va, depth - 1)
        }
    } else {
        leaf_address(e, va, depth)
    }
}

/// The root of a page table tree whose tables live in pages of an allocator.
pub struct PageTable {
    addr: u64,
    levels: Ghost<Map<int, int>>,
    parents: Ghost<Map<int, (int, int)>>,
}

impl PageTable {
    /// Address of the root table.
    pub closed spec fn spec_addr(&self) -> u64 {
        self.addr
    }

    /// The data pages that hold the tables of the tree, the root among them.
    pub closed spec fn tables(&self) -> Set<int> {
        self.levels@.dom()
    }

    /// The level at which the table in data page `p` stands.
    pub closed spec fn level(&self, p: int) -> int {
        self.levels@[p]
    }

    /// Index of the data page that holds the root table.
    pub open spec fn root_page(&self, h: HeapModel) -> int {
        h.page_of(self.spec_addr() as int)
    }

    /// A table other than the root knows the entry that points to it.
    pub closed spec fn parent_ok(&self, h: HeapModel, p: int) -> bool {
        let (pp, ii) = self.parents@[p];
        &&& self.levels@.dom().contains(pp)
        &&& 0 <= ii < 512
        &&& pte_table(entry(h, pp, ii))
        &&& child_page(h, entry(h, pp, ii)) == p
    }

    /// The table in data page `p` is a one-page run of the allocator, at one
    /// of the three levels, and is pointed to unless it is the root.
    pub closed spec fn table_ok(&self, h: HeapModel, p: int) -> bool {
        &&& 0 <= p < h.pages.len()
        &&& 0 <= self.levels@[p] <= 2
        &&& h.pages[p] == PageState::Last
        &&& (p == 0 || h.pages[p - 1] != PageState::Taken)
        &&& (p != h.page_of(self.addr as int) ==> self.parent_ok(h, p))
    }

    /// Where entry `idx` of the table in data page `p` points to a table, that
    /// table stands one level lower and knows this entry as the one that
    /// points to it.
    pub closed spec fn slot_ok(&self, h: HeapModel, p: int, idx: int) -> bool {
        let e = entry(h, p, idx);
        let c = child_page(h, e);
        pte_table(e) ==> {
            &&& self.levels@[p] > 0
            &&& self.levels@.dom().contains(c)
            &&& self.levels@[c] == self.levels@[p] - 1
            &&& self.parents@[c] == (p, idx)
        }
    }

    /// The tree is well formed in the heap `h`: every table is a one-page run
    /// of the allocator, every entry that points to a table points to a table
    /// of the next level, no table is pointed to twice, and the tables of the
    /// last level point to no table.
    #[verifier::opaque]
    pub closed spec fn inv(&self, h: HeapModel) -> bool {
        let root = h.page_of(self.addr as int);
        &&& h.base + 4096 * h.pages.len() <= PHYSICAL_LIMIT
        &&& h.contains_byte(self.addr as int)
        &&& self.addr % 4096 == 0
        &&& self.levels@.dom().finite()
        &&& self.levels@.dom().contains(root)
        &&& self.levels@[root] == 2
        &&& forall|p: int| self.levels@.dom().contains(p) ==> #[trigger] self.table_ok(h, p)
        &&& forall|p: int, idx: int|
            self.levels@.dom().contains(p) && 0 <= idx < 512 ==> #[trigger] self.slot_ok(h, p, idx)
    }

    /// What `inv` says of the root.
    pub proof fn lemma_root(&self, h: HeapModel)
        requires
            self.inv(h),
        ensures
            h.contains_byte(self.spec_addr() as int),
            self.spec_addr() % 4096 == 0,
            self.tables().contains(self.root_page(h)),
            self.tables().finite(),
            self.level(self.root_page(h)) == 2,
            h.owns_run(self.root_page(h)),
            h.base + 4096 * h.pages.len() <= PHYSICAL_LIMIT,
    {
        reveal(PageTable::inv);
        assert(self.table_ok(h, self.root_page(h)));
    }

    /// Address of the root table.
    pub fn addr(&self) -> (a: u64)
        ensures
            a == self.spec_addr(),
    {
        self.addr
    }

    /// Makes an empty tree, whose root is a fresh page of zeros. Nothing is
    /// made where the allocator has no free page.
    pub fn new(heap: &mut PageAllocator) -> (res: Option<PageTable>)
        requires
            old(heap).wf(),
            old(heap)@.base + 4096 * old(heap)@.pages.len() <= PHYSICAL_LIMIT,
        ensures
            final(heap).wf(),
            match res {
                Some(table) => exists|i: int|
                    {
                        &&& #[trigger] old(heap)@.first_fit(i, 1)
                        &&& table.spec_addr() == old(heap)@.page_addr(i)
                        &&& final(heap)@ == old(heap)@.allocated(i, 1).zeroed(i, 1)
                        &&& table.tables() == set![i]
                        &&& forall|va: u64| #[trigger]
                            walk(final(heap)@, i, va, 2) == Err::<u64, TranslateError>(
                                TranslateError::Unmapped,
                            )
                    } && table.inv(final(heap)@),
                None => final(heap)@ == old(heap)@ && old(heap)@.no_space(1),
            },
    {
        proof {
            reveal(PageTable::inv);
        }
        let addr: u64 = match zero_allocate_pages(heap, 1) {
            Some(addr) => addr,
            None => { return None; },
        };
        let ghost h = heap@;
        let ghost root: int = h.page_of(addr as int);
        let table = PageTable {
            addr,
            levels: Ghost(Map::<int, int>::empty().insert(root, 2)),
            parents: Ghost(Map::<int, (int, int)>::empty()),
        };
        proof {
            let i = choose|i: int|
                {
                    &&& #[trigger] old(heap)@.first_fit(i, 1)
                    &&& addr == old(heap)@.page_addr(i)
                    &&& h == old(heap)@.allocated(i, 1).zeroed(i, 1)
                };
            assert(i == root);
            lemma_mask(0);
            assert(old(heap)@.chained(i - 1));
            assert forall|idx: int| 0 <= idx < 512 implies #[trigger] entry(h, root, idx) == 0 by {}
            assert forall|p: int| table.levels@.dom().contains(p) implies #[trigger] table.table_ok(
                h,
                p,
            ) by {}
            assert forall|p: int, idx: int|
                table.levels@.dom().contains(p) && 0 <= idx < 512 implies #[trigger] table.slot_ok(
                h,
                p,
                idx,
            ) by {
                assert(entry(h, root, idx) == 0);
            }
            assert(table.tables() =~= set![i]);
            assert forall|va: u64| #[trigger]
                walk(h, i, va, 2) == Err::<u64, TranslateError>(TranslateError::Unmapped) by {
                lemma_index_bound(va >> 30);
                assert(entry(h, root, vpn(va, 2) as int) == 0);
            }
        }
        Some(table)
    }
}

impl Pte {
    /// Whether a leaf found at `depth` points to a page that is aligned to
    /// the region it covers.
    pub fn is_aligned_for(&self, depth: usize) -> (b: bool)
        requires
            depth <= 2,
        ensures
            b == !pte_misaligned(self.bits, depth as int),
    {
        let ppn: [u64; 3] = self.get_ppn();
        let mut i: usize = 0;
        while i < depth
            invariant
                i <= depth <= 2,
                forall|level: int|
                    0 <= level < 3 ==> #[trigger] ppn[level] == pte_ppn_part(self.bits, level),
                forall|level: int| 0 <= level < i ==> #[trigger] pte_ppn_part(self.bits, level) == 0,
            decreases depth - i,
        {
            if ppn[i] != 0 {
                return false;
            }
            i += 1;
        }
        proof {
            assert(depth >= 1 ==> pte_ppn_part(self.bits, 0) == 0);
            assert(depth >= 2 ==> pte_ppn_part(self.bits, 1) == 0);
        }
        true
    }

    /// The address that this leaf, found at `depth`, gives for `va`.
    pub fn translate(&self, va: &VirtAddr, depth: usize) -> (res: Result<u64, TranslateError>)
        requires
            depth <= 2,
        ensures
            res == leaf_address(self.bits, va.bits, depth as int),
    {
        if !self.is_aligned_for(depth) {
            return Err(TranslateError::MisalignedSuperpage);
        }
        proof {
            lemma_mask(depth as u64);
        }
        let vpn_mask: u64 = (1u64 << (9 * depth as u64)) - 1;
        let ppn_bits: u64 = self.get_whole_ppn();
        let vpn_bits: u64 = va.get_whole_vpn() & vpn_mask;
        let page_number: u64 = ppn_bits | vpn_bits;
        let page_addr: u64 = page_number << 12;
        let page_offset: u64 = va.get_offset();
        Ok(page_addr | page_offset)
    }
}

impl PageTable {
    /// Entry `idx` of a table of the tree, and the table below it where the
    /// entry points to one.
    proof fn lemma_slot(&self, h: HeapModel, page: int, idx: int)
        requires
            self.inv(h),
            self.tables().contains(page),
            0 <= idx < 512,
        ensures
            0 <= page < h.pages.len(),
            0 <= self.level(page) <= 2,
            h.pages[page] == PageState::Last,
            h.base % 4096 == 0 ==> h.page_of(h.page_addr(page)) == page,
            pte_table(entry(h, page, idx)) ==> {
                let c = child_page(h, entry(h, page, idx));
                &&& self.level(page) > 0
                &&& self.tables().contains(c)
                &&& self.level(c) == self.level(page) - 1
                &&& 0 <= c < h.pages.len()
            },
    {
        reveal(PageTable::inv);
        assert(self.table_ok(h, page));
        assert(self.slot_ok(h, page, idx));
        if pte_table(entry(h, page, idx)) {
            assert(self.table_ok(h, child_page(h, entry(h, page, idx))));
        }
    }
}

#[verifier::rlimit(50)]
fn virt_to_phys_rec(
    va: &VirtAddr,
    root: &PageTable,
    heap: &PageAllocator,
    table_addr: u64,
    depth: usize,
) -> (res: Result<u64, TranslateError>)
    requires
        heap.wf(),
        root.inv(heap@),
        heap@.contains_byte(table_addr as int),
        table_addr % 4096 == 0,
        root.tables().contains(heap@.page_of(table_addr as int)),
        root.level(heap@.page_of(table_addr as int)) == depth,
    ensures
        res == walk(heap@, heap@.page_of(table_addr as int), va.bits, depth as int),
    decreases depth,
{
    let ghost h = heap@;
    let ghost page = h.page_of(table_addr as int);
    let indices: [u64; 3] = va.get_vpn();
    proof {
        root.lemma_slot(h, page, 0);
    }
    let index: u64 = indices[depth];
    proof {
        root.lemma_slot(h, page, index as int);
        assert(h.word_index(table_addr + 8 * index) == 512 * page + index);
    }
    let curr_pte = Pte { bits: heap.load_word(table_addr + 8 * index) };
    assert(curr_pte.bits == entry(h, page, index as int));
    if !curr_pte.is_valid() {
        return Err(TranslateError::Unmapped);
    }
    if curr_pte.is_branch() {
        let child_addr: u64 = curr_pte.get_physical_addr();
        assert(child_addr == h.base + 4096 * child_page(h, curr_pte.bits));
        return virt_to_phys_rec(va, root, heap, child_addr, depth - 1);
    }
    curr_pte.translate(va, depth)
}

/// Translates the virtual address `va` by the tree `root`.
pub fn virt_to_phys(va: u64, root: &PageTable, heap: &PageAllocator) -> (res: Result<
    u64,
    TranslateError,
>)
    requires
        heap.wf(),
        root.inv(heap@),
    ensures
        res == walk(heap@, root.root_page(heap@), va, 2),
{
    let va = VirtAddr { bits: va };
    proof {
        root.lemma_root(heap@);
    }
    virt_to_phys_rec(&va, root, heap, root.addr, NUM_LEVELS - 1)
}


/// The two addresses select the same entry at every level.
pub open spec fn same_page(a: u64, b: u64) -> bool {
    vpn(a, 0) == vpn(b, 0) && vpn(a, 1) == vpn(b, 1) && vpn(a, 2) == vpn(b, 2)
}

/// Number of tables that are missing on the way of `va` from the table in
/// data page `page`, at level `depth`, down to the last level.
pub open spec fn tables_needed(h: HeapModel, page: int, va: u64, depth: int) -> int
    decreases depth,
{
    if depth <= 0 {
        0
    } else {
        let e = entry(h, page, vpn(va, depth) as int);
        if pte_table(e) {
            tables_needed(h, child_page(h, e), va, depth - 1)
        } else {
            depth
        }
    }
}

/// Where the walk of `va` from the table in data page `page`, at level
/// `depth`, stops: the level, and the entry found there, which points to no
/// table unless it is an entry of the last level.
pub open spec fn resolve(h: HeapModel, page: int, va: u64, depth: int) -> (int, u64)
    decreases depth,
{
    let e = entry(h, page, vpn(va, depth) as int);
    if depth > 0 && pte_table(e) {
        resolve(h, child_page(h, e), va, depth - 1)
    } else {
        (depth, e)
    }
}

/// What the entry `e`, found at `level`, gives for the address `va`.
pub open spec fn outcome(level: int, e: u64, va: u64) -> Result<u64, TranslateError> {
    if !pte_valid(e) || pte_branch(e) {
        Err(TranslateError::Unmapped)
    } else {
        leaf_address(e, va, level)
    }
}

/// The translation of an address is what the entry that its walk stops at gives.
pub proof fn lemma_walk_resolve(h: HeapModel, page: int, va: u64, depth: int)
    requires
        0 <= depth,
    ensures
        walk(h, page, va, depth) == outcome(
            resolve(h, page, va, depth).0,
            resolve(h, page, va, depth).1,
            va,
        ),
        tables_needed(h, page, va, depth) == resolve(h, page, va, depth).0,
        0 <= resolve(h, page, va, depth).0 <= depth,
    decreases depth,
{
    let e = entry(h, page, vpn(va, depth) as int);
    if depth > 0 && pte_table(e) {
        lemma_walk_resolve(h, child_page(h, e), va, depth - 1);
    }
}

/// Entry `idx` of the table in data page `p` is one that the walk of `va`
/// from the table in data page `page`, at level `depth`, reads.
pub open spec fn path_slot(h: HeapModel, page: int, va: u64, depth: int, p: int, idx: int) -> bool
    decreases depth,
{
    let e = entry(h, page, vpn(va, depth) as int);
    (p == page && idx == vpn(va, depth)) || (depth > 0 && pte_table(e) && path_slot(
        h,
        child_page(h, e),
        va,
        depth - 1,
        p,
        idx,
    ))
}

/// The two addresses select different entries at `depth` or at a level below.
pub open spec fn differs_below(a: u64, b: u64, depth: int) -> bool {
    ||| vpn(a, 0) != vpn(b, 0)
    ||| (depth >= 1 && vpn(a, 1) != vpn(b, 1))
    ||| (depth >= 2 && vpn(a, 2) != vpn(b, 2))
}

/// Where the walk of `va2` stops after the page of `va` was mapped, told from
/// the heap `h` before the mapping. As long as `va2` follows existing tables
/// with `va`, and from where it leaves the way of `va`, its walk is as before.
/// Where the way of `va` had no table and got fresh ones, `va2` ends in an
/// empty entry of the first fresh table in which it leaves that way.
pub open spec fn resolve_after(h: HeapModel, page: int, va: u64, va2: u64, depth: int) -> (
    int,
    u64,
)
    decreases depth,
{
    let e = entry(h, page, vpn(va, depth) as int);
    if depth <= 0 || vpn(va2, depth) != vpn(va, depth) {
        resolve(h, page, va2, depth)
    } else if pte_table(e) {
        resolve_after(h, child_page(h, e), va, va2, depth - 1)
    } else if depth >= 2 && vpn(va2, 1) != vpn(va, 1) {
        (1, 0u64)
    } else {
        (0, 0u64)
    }
}

/// An address whose walk reaches the last level keeps its walk when another
/// page is mapped.
pub proof fn lemma_full_path_kept(h: HeapModel, page: int, va: u64, va2: u64, depth: int)
    requires
        0 <= depth,
        resolve(h, page, va2, depth).0 == 0,
    ensures
        resolve_after(h, page, va, va2, depth) == resolve(h, page, va2, depth),
    decreases depth,
{
    let e = entry(h, page, vpn(va, depth) as int);
    if depth > 0 && vpn(va2, depth) == vpn(va, depth) {
        if pte_table(e) {
            lemma_full_path_kept(h, child_page(h, e), va, va2, depth - 1);
        } else {
            assert(resolve(h, page, va2, depth).0 == depth);
        }
    }
}

/// The heap in which the root table in data page `page` got, for `va`, a fresh
/// table in data page `c`, and nothing else was done.
pub open spec fn half_built(h: HeapModel, page: int, va: u64, c: int) -> HeapModel {
    h.allocated(c, 1).zeroed(c, 1).stored(
        h.page_addr(page) + 8 * vpn(va, 2),
        pte_encode((h.base / 4096 + c) as u64, 1),
    )
}

/// A mapping that fails for want of pages changes nothing, except where two
/// tables are missing and one page is free: then the first of the two tables
/// is made, in that page, and stays.
pub open spec fn failed_state(
    before: &PageTable,
    h: HeapModel,
    after: &PageTable,
    h2: HeapModel,
    page: int,
    va: u64,
    depth: int,
) -> bool {
    if tables_needed(h, page, va, depth) == 2 && h.has_free(1) {
        exists|c: int|
            {
                &&& #[trigger] h.first_fit(c, 1)
                &&& h2 == half_built(h, page, va, c)
                &&& after.tables() == before.tables().insert(c)
            }
    } else {
        h2 == h && *after == *before
    }
}

/// Mapping the page of `va` leaves the translation of an address `va2` of
/// another page as it was, with one exception: where the walk of `va2` ended
/// in a leaf above the last level, and that leaf stood on the way of `va`, the
/// leaf has made way for a table and `va2` is no longer mapped.
pub proof fn lemma_map_frame(h: HeapModel, page: int, va: u64, va2: u64, depth: int)
    requires
        0 <= depth,
    ensures
        ({
            let before = resolve(h, page, va2, depth);
            let after = resolve_after(h, page, va, va2, depth);
            ||| outcome(after.0, after.1, va2) == walk(h, page, va2, depth)
            ||| (outcome(after.0, after.1, va2) == Err::<u64, TranslateError>(
                TranslateError::Unmapped,
            ) && before.0 > 0 && pte_valid(before.1) && !pte_branch(before.1))
        }),
    decreases depth,
{
    let e = entry(h, page, vpn(va, depth) as int);
    lemma_walk_resolve(h, page, va2, depth);
    lemma_mask(0);
    if depth > 0 && vpn(va2, depth) == vpn(va, depth) && pte_table(e) {
        lemma_map_frame(h, child_page(h, e), va, va2, depth - 1);
    }
}

/// Of the tables that the tree had, only entries on the way of `va` changed.
pub open spec fn only_path_changed(
    before: &PageTable,
    h: HeapModel,
    h2: HeapModel,
    page: int,
    va: u64,
    depth: int,
) -> bool {
    forall|p: int, idx: int|
        before.tables().contains(p) && 0 <= idx < 512 && #[trigger] entry(h2, p, idx) != entry(
            h,
            p,
            idx,
        ) ==> path_slot(h, page, va, depth, p, idx)
}

impl PageTable {
    /// An entry of a table of the last level may hold anything but a pointer
    /// to a table.
    proof fn lemma_store_leaf(&self, h: HeapModel, page: int, idx: int, bits: u64)
        requires
            self.inv(h),
            h.wf(),
            self.tables().contains(page),
            self.level(page) == 0,
            0 <= idx < 512,
            !pte_table(bits),
        ensures
            self.inv(h.stored(h.page_addr(page) + 8 * idx, bits)),
    {
        reveal(PageTable::inv);
        let h1 = h.stored(h.page_addr(page) + 8 * idx, bits);
        assert(self.table_ok(h, page));
        assert(h.word_index(h.page_addr(page) + 8 * idx) == 512 * page + idx);
        assert forall|p: int| self.levels@.dom().contains(p) implies #[trigger] self.table_ok(
            h1,
            p,
        ) by {
            assert(self.table_ok(h, p));
            if p != h.page_of(self.addr as int) {
                let (pp, ii) = self.parents@[p];
                assert(self.slot_ok(h, pp, ii));
                assert(self.table_ok(h, pp));
                assert(entry(h1, pp, ii) == entry(h, pp, ii));
            }
        }
        assert forall|p: int, j: int|
            self.levels@.dom().contains(p) && 0 <= j < 512 implies #[trigger] self.slot_ok(
            h1,
            p,
            j,
        ) by {
            assert(self.slot_ok(h, p, j));
            assert(self.table_ok(h, p));
            if p == page && j == idx {
                assert(entry(h1, p, j) == bits);
            } else {
                assert(entry(h1, p, j) == entry(h, p, j));
            }
        }
    }

    /// A fresh page of zeros becomes a table of the tree when an entry that
    /// pointed to no table is made to point to it.
    proof fn lemma_install_table(
        &self,
        after: &PageTable,
        h: HeapModel,
        c: int,
        page: int,
        idx: int,
        bits: u64,
    )
        requires
            self.inv(h),
            h.wf(),
            h.first_fit(c, 1),
            self.tables().contains(page),
            self.level(page) > 0,
            0 <= idx < 512,
            !pte_table(entry(h, page, idx)),
            pte_table(bits),
            pte_ppn(bits) == h.base / 4096 + c,
            after.addr == self.addr,
            after.levels@ == self.levels@.insert(c, self.level(page) - 1),
            after.parents@ == self.parents@.insert(c, (page, idx)),
        ensures
            !self.tables().contains(c),
            after.inv(h.allocated(c, 1).zeroed(c, 1).stored(h.page_addr(page) + 8 * idx, bits)),
    {
        reveal(PageTable::inv);
        let h1 = h.allocated(c, 1).zeroed(c, 1);
        let h2 = h1.stored(h.page_addr(page) + 8 * idx, bits);
        let root = h.page_of(self.addr as int);
        assert(self.table_ok(h, page));
        assert(h.word_index(h.page_addr(page) + 8 * idx) == 512 * page + idx);
        if self.levels@.dom().contains(c) {
            assert(self.table_ok(h, c));
        }
        assert(h.chained(c - 1));
        lemma_mask(0);
        assert forall|p: int| after.levels@.dom().contains(p) implies #[trigger] after.table_ok(
            h2,
            p,
        ) by {
            if p == c {
                assert(entry(h2, page, idx) == bits);
            } else {
                assert(self.table_ok(h, p));
                if p != root {
                    let (pp, ii) = self.parents@[p];
                    assert(self.table_ok(h, pp));
                    assert(entry(h2, pp, ii) == entry(h, pp, ii));
                }
            }
        }
        assert forall|p: int, j: int|
            after.levels@.dom().contains(p) && 0 <= j < 512 implies #[trigger] after.slot_ok(
            h2,
            p,
            j,
        ) by {
            if p == c {
                assert(entry(h2, p, j) == 0);
            } else {
                assert(self.slot_ok(h, p, j));
                assert(self.table_ok(h, p));
                if p == page && j == idx {
                    assert(entry(h2, p, j) == bits);
                } else {
                    assert(entry(h2, p, j) == entry(h, p, j));
                }
            }
        }
    }
}

impl PageTable {
    /// The entries on the way of `va`: one in each table that the walk passes,
    /// at the index that `va` selects there.
    proof fn lemma_path_slot(&self, h: HeapModel, page: int, va: u64, d: int, p: int, idx: int)
        requires
            self.inv(h),
            self.tables().contains(page),
            self.level(page) == d,
            0 <= d <= 2,
            path_slot(h, page, va, d, p, idx),
        ensures
            self.tables().contains(p),
            self.level(p) <= d,
            self.level(p) == d ==> p == page && idx == vpn(va, d),
            self.level(p) == d - 1 ==> {
                let e = entry(h, page, vpn(va, d) as int);
                pte_table(e) && p == child_page(h, e) && idx == vpn(va, d - 1)
            },
            self.level(p) == d - 2 ==> {
                let e = entry(h, page, vpn(va, d) as int);
                let e1 = entry(h, child_page(h, e), vpn(va, d - 1) as int);
                pte_table(e) && pte_table(e1) && p == child_page(h, e1) && idx == vpn(va, d - 2)
            },
        decreases d,
    {
        reveal(PageTable::inv);
        let e = entry(h, page, vpn(va, d) as int);
        lemma_index_bound(va >> 12);
        lemma_index_bound(va >> 21);
        lemma_index_bound(va >> 30);
        if !(p == page && idx == vpn(va, d)) {
            assert(self.slot_ok(h, page, vpn(va, d) as int));
            self.lemma_path_slot(h, child_page(h, e), va, d - 1, p, idx);
        }
    }

    /// An address that leaves the way of `va` at level `d` walks through
    /// tables that the mapping of `va` has not changed.
    proof fn lemma_off_path(&self, h: HeapModel, h3: HeapModel, page: int, va: u64, va2: u64, d: int)
        requires
            self.inv(h),
            self.tables().contains(page),
            self.level(page) == d,
            0 <= d <= 2,
            h3.base == h.base,
            h3.words.len() == h.words.len(),
            only_path_changed(self, h, h3, page, va, d),
            vpn(va2, d) != vpn(va, d),
        ensures
            resolve(h3, page, va2, d) == resolve(h, page, va2, d),
    {
        reveal(PageTable::inv);
        lemma_index_bound(va2 >> 12);
        lemma_index_bound(va2 >> 21);
        lemma_index_bound(va2 >> 30);
        lemma_index_bound(va >> 12);
        lemma_index_bound(va >> 21);
        lemma_index_bound(va >> 30);
        let j2 = vpn(va2, d) as int;
        let e = entry(h, page, j2);
        if entry(h3, page, j2) != e {
            self.lemma_path_slot(h, page, va, d, page, j2);
        }
        assert(entry(h3, page, j2) == e);
        assert(self.slot_ok(h, page, j2));
        assert(self.slot_ok(h, page, vpn(va, d) as int));
        if d > 0 && pte_table(e) {
            let c2 = child_page(h, e);
            let j1 = vpn(va2, d - 1) as int;
            let e1 = entry(h, c2, j1);
            if entry(h3, c2, j1) != e1 {
                self.lemma_path_slot(h, page, va, d, c2, j1);
            }
            assert(entry(h3, c2, j1) == e1);
            assert(self.slot_ok(h, c2, j1));
            if d > 1 && pte_table(e1) {
                let g2 = child_page(h, e1);
                let j0 = vpn(va2, d - 2) as int;
                if entry(h3, g2, j0) != entry(h, g2, j0) {
                    self.lemma_path_slot(h, page, va, d, g2, j0);
                    let ep = entry(h, page, vpn(va, d) as int);
                    assert(self.slot_ok(h, child_page(h, ep), vpn(va, d - 1) as int));
                }
                assert(entry(h3, g2, j0) == entry(h, g2, j0));
                assert(resolve(h3, g2, va2, d - 2) == resolve(h, g2, va2, d - 2));
            }
            assert(resolve(h3, c2, va2, d - 1) == resolve(h, c2, va2, d - 1));
        }
    }
}

/// Taking the first free page leaves one free page fewer.
proof fn lemma_has_free_after(h: HeapModel, c: int, k: int)
    requires
        h.first_fit(c, 1),
        1 <= k <= 2,
    ensures
        h.allocated(c, 1).zeroed(c, 1).has_free(k - 1) <==> h.has_free(k),
{
    let h1 = h.allocated(c, 1).zeroed(c, 1);
    assert(h.pages[c] == PageState::Free);
    if k == 2 {
        if h1.has_free(1) {
            let j = choose|j: int| 0 <= j < h1.pages.len() && #[trigger] h1.pages[j] == PageState::Free;
            assert(h.pages[j] == PageState::Free && h.pages[c] == PageState::Free && j != c);
        }
        if h.has_free(2) {
            let (i, j) = choose|i: int, j: int|
                0 <= i < h.pages.len() && 0 <= j < h.pages.len() && i != j && #[trigger] h.pages[i]
                    == PageState::Free && #[trigger] h.pages[j] == PageState::Free;
            if i != c {
                assert(h1.pages[i] == PageState::Free);
            } else {
                assert(h1.pages[j] == PageState::Free);
            }
        }
    }
}


/// The state after a mapping step, held against the state before it: the
/// tree has the same root and has only gained tables, each in a page that was
/// free and is now a one-page run; the free pages below such a page were
/// taken for tables too; no other descriptor changed; and the pages that hold
/// no table of the tree have their contents.
pub open spec fn grown(
    before: &PageTable,
    h: HeapModel,
    after: &PageTable,
    h2: HeapModel,
) -> bool {
    &&& after.spec_addr() == before.spec_addr()
    &&& h2.base == h.base
    &&& h2.pages.len() == h.pages.len()
    &&& h2.words.len() == h.words.len()
    &&& before.tables().subset_of(after.tables())
    &&& forall|p: int| #[trigger] before.tables().contains(p) ==> after.level(p) == before.level(p)
    &&& forall|p: int|
        #[trigger] after.tables().contains(p) && !before.tables().contains(p) ==> 0 <= p
            < h.pages.len() && h.pages[p] == PageState::Free
    &&& forall|p: int, q: int|
        #[trigger] after.tables().contains(p) && !before.tables().contains(p) && 0 <= q < p
            && #[trigger] h.pages[q] == PageState::Free ==> after.tables().contains(q)
    &&& forall|p: int|
        0 <= p < h.pages.len() ==> #[trigger] h2.pages[p] == (if after.tables().contains(p)
            && !before.tables().contains(p) {
            PageState::Last
        } else {
            h.pages[p]
        })
    &&& forall|p: int, idx: int|
        0 <= p < h.pages.len() && 0 <= idx < 512 && !after.tables().contains(p) ==> #[trigger] entry(
            h2,
            p,
            idx,
        ) == entry(h, p, idx)
}

/// Growth in two steps is growth.
pub proof fn lemma_grown_trans(
    a: &PageTable,
    ha: HeapModel,
    b: &PageTable,
    hb: HeapModel,
    c: &PageTable,
    hc: HeapModel,
)
    requires
        grown(a, ha, b, hb),
        grown(b, hb, c, hc),
    ensures
        grown(a, ha, c, hc),
{
    assert forall|p: int, idx: int|
        0 <= p < ha.pages.len() && 0 <= idx < 512 && !c.tables().contains(p) implies #[trigger] entry(
        hc,
        p,
        idx,
    ) == entry(ha, p, idx) by {
        assert(entry(hc, p, idx) == entry(hb, p, idx));
    }
    assert forall|p: int, q: int|
        #[trigger] c.tables().contains(p) && !a.tables().contains(p) && 0 <= q < p
            && #[trigger] ha.pages[q] == PageState::Free implies c.tables().contains(q) by {
        if b.tables().contains(p) {
            assert(b.tables().contains(q));
        } else if !b.tables().contains(q) {
            assert(hb.pages[p] == PageState::Free);
            assert(hb.pages[q] == ha.pages[q]);
        }
    }
}

/// The tables above level `depth` have their entries.
pub open spec fn upper_kept(before: &PageTable, h: HeapModel, h2: HeapModel, depth: int) -> bool {
    forall|p: int, idx: int|
        before.tables().contains(p) && before.level(p) > depth && 0 <= idx < 512 ==> #[trigger] entry(
            h2,
            p,
            idx,
        ) == entry(h, p, idx)
}

/// What a mapping step from the table in data page `page`, at level `depth`,
/// has done when it returns, successfully or not (`ok`).
pub open spec fn map_post(
    before: &PageTable,
    h: HeapModel,
    after: &PageTable,
    h2: HeapModel,
    page: int,
    va: u64,
    depth: int,
    leaf: u64,
    ok: bool,
) -> bool {
    &&& grown(before, h, after, h2)
    &&& upper_kept(before, h, h2, depth)
    &&& only_path_changed(before, h, h2, page, va, depth)
    &&& ok <==> h.has_free(tables_needed(h, page, va, depth))
    &&& ok ==> after.tables().len() == before.tables().len() + tables_needed(h, page, va, depth)
    &&& !ok ==> failed_state(before, h, after, h2, page, va, depth)
    &&& !ok ==> !h2.has_free(tables_needed(h2, page, va, depth))
    &&& ok ==> forall|va2: u64|
        differs_below(va2, va, depth) ==> #[trigger] resolve(h2, page, va2, depth)
            == resolve_after(h, page, va, va2, depth)
    &&& ok ==> forall|va2: u64|
        same_page(va2, va) ==> #[trigger] resolve(h2, page, va2, depth) == (0int, leaf)
}

/// The state after the table in data page `page` got, for `va`, the table in
/// data page `child` that it needs: either it had it, or a fresh one was made.
pub open spec fn stepped(
    before: &PageTable,
    h: HeapModel,
    after: &PageTable,
    h2: HeapModel,
    page: int,
    va: u64,
    depth: int,
    child: int,
) -> bool {
    let e = entry(h, page, vpn(va, depth) as int);
    if pte_table(e) {
        h2 == h && *after == *before && child == child_page(h, e)
    } else {
        &&& h.first_fit(child, 1)
        &&& h2 == h.allocated(child, 1).zeroed(child, 1).stored(
            h.page_addr(page) + 8 * vpn(va, depth),
            pte_encode((h.base / 4096 + child) as u64, 1),
        )
        &&& after.spec_addr() == before.spec_addr()
        &&& after.tables() == before.tables().insert(child)
        &&& after.level(child) == depth - 1
        &&& forall|p: int| #[trigger] before.tables().contains(p) ==> after.level(p) == before.level(p)
    }
}

impl PageTable {
    /// Writing a leaf into a table of the last level.
    proof fn lemma_map_leaf(&self, h: HeapModel, page: int, va: u64, leaf: u64)
        requires
            self.inv(h),
            h.wf(),
            self.tables().contains(page),
            self.level(page) == 0,
            pte_valid(leaf),
            !pte_branch(leaf),
        ensures
            self.inv(h.stored(h.page_addr(page) + 8 * vpn(va, 0), leaf)),
            map_post(
                self,
                h,
                self,
                h.stored(h.page_addr(page) + 8 * vpn(va, 0), leaf),
                page,
                va,
                0,
                leaf,
                true,
            ),
    {
        let idx = vpn(va, 0) as int;
        lemma_index_bound(va >> 12);
        let h1 = h.stored(h.page_addr(page) + 8 * idx, leaf);
        self.lemma_store_leaf(h, page, idx, leaf);
        self.lemma_slot(h, page, idx);
        assert(h.word_index(h.page_addr(page) + 8 * idx) == 512 * page + idx);
        assert(entry(h1, page, idx) == leaf);
        assert forall|p: int, j: int|
            self.tables().contains(p) && 0 <= j < 512 && !(p == page && j == idx) implies #[trigger] entry(
            h1,
            p,
            j,
        ) == entry(h, p, j) by {
            self.lemma_slot(h, p, j);
        }
        assert forall|p: int, j: int|
            0 <= p < h.pages.len() && 0 <= j < 512 && !self.tables().contains(p) implies #[trigger] entry(
            h1,
            p,
            j,
        ) == entry(h, p, j) by {}
        assert(h1.pages =~= h.pages);
        assert(grown(self, h, self, h1));
        assert forall|va2: u64| differs_below(va2, va, 0) implies #[trigger] resolve(h1, page, va2, 0)
            == resolve_after(h, page, va, va2, 0) by {
            lemma_index_bound(va2 >> 12);
        }
    }

    /// A step that finds no table and no free page to make one.
    proof fn lemma_map_no_space(&self, h: HeapModel, page: int, va: u64, depth: int, leaf: u64)
        requires
            depth >= 1,
            !pte_table(entry(h, page, vpn(va, depth) as int)),
            h.no_space(1),
        ensures
            map_post(self, h, self, h, page, va, depth, leaf, false),
    {
        assert forall|i: int| 0 <= i < h.pages.len() implies h.pages[i] != PageState::Free by {
            assert(!h.free_run(i, 1));
        }
    }

    /// A step at level `depth` that is followed by the steps below it.
    proof fn lemma_map_step(
        &self,
        h: HeapModel,
        mid: &PageTable,
        h2: HeapModel,
        after: &PageTable,
        h3: HeapModel,
        page: int,
        va: u64,
        depth: int,
        child: int,
        leaf: u64,
        ok: bool,
    )
        requires
            self.inv(h),
            h.wf(),
            self.tables().contains(page),
            self.level(page) == depth,
            1 <= depth <= 2,
            stepped(self, h, mid, h2, page, va, depth, child),
            mid.inv(h2),
            map_post(mid, h2, after, h3, child, va, depth - 1, leaf, ok),
        ensures
            map_post(self, h, after, h3, page, va, depth, leaf, ok),
    {
        lemma_index_bound(va >> 12);
        lemma_index_bound(va >> 21);
        lemma_index_bound(va >> 30);
        lemma_mask(0);
        let idx = vpn(va, depth) as int;
        let e0 = entry(h, page, idx);
        let made = !pte_table(e0);
        self.lemma_slot(h, page, idx);
        assert(h.word_index(h.page_addr(page) + 8 * idx) == 512 * page + idx);
        let bits = pte_encode((h.base / 4096 + child) as u64, 1);
        if made {
            self.lemma_root(h);
            assert(h.pages[child] == PageState::Free);
            if self.tables().contains(child) {
                self.lemma_slot(h, child, 0);
            }
            assert(!self.tables().contains(child));
            lemma_encode((h.base / 4096 + child) as u64, 1);
            assert(entry(h2, page, idx) == bits);
            assert forall|j: int| 0 <= j < 512 implies #[trigger] entry(h2, child, j) == 0 by {}
            assert(h2.pages =~= h.allocated(child, 1).pages);
            lemma_has_free_after(h, child, depth);
            assert(tables_needed(h2, child, va, depth - 1) == depth - 1);
        }
        let e2 = entry(h2, page, idx);
        assert(pte_table(e2) && child_page(h2, e2) == child);
        mid.lemma_slot(h2, page, idx);
        // What the first part of the step changed.
        assert forall|p: int, j: int|
            self.tables().contains(p) && 0 <= j < 512 && !(p == page && j == idx) implies #[trigger] entry(
            h2,
            p,
            j,
        ) == entry(h, p, j) by {
            self.lemma_slot(h, p, j);
        }
        assert forall|p: int, j: int|
            0 <= p < h.pages.len() && 0 <= j < 512 && !mid.tables().contains(p) implies #[trigger] entry(
            h2,
            p,
            j,
        ) == entry(h, p, j) by {}
        if made {
            assert forall|q: int| 0 <= q < child implies h.pages[q] != PageState::Free by {
                assert(!h.free_run(q, 1));
            }
            assert(mid.tables().len() == self.tables().len() + 1);
        }
        assert(grown(self, h, mid, h2));
        // Both parts together.
        assert(entry(h3, page, idx) == e2);
        lemma_grown_trans(self, h, mid, h2, after, h3);
        assert forall|p: int, j: int|
            self.tables().contains(p) && self.level(p) > depth && 0 <= j < 512 implies #[trigger] entry(
            h3,
            p,
            j,
        ) == entry(h, p, j) by {
            assert(entry(h3, p, j) == entry(h2, p, j));
        }
        assert forall|p: int, j: int|
            self.tables().contains(p) && 0 <= j < 512 && #[trigger] entry(h3, p, j) != entry(
                h,
                p,
                j,
            ) implies path_slot(h, page, va, depth, p, j) by {
            if entry(h3, p, j) != entry(h2, p, j) {
                assert(path_slot(h2, child, va, depth - 1, p, j));
                if made {
                    assert(entry(h2, child, vpn(va, depth - 1) as int) == 0);
                    assert(p == child);
                }
            }
        }
        assert(only_path_changed(self, h, h3, page, va, depth));
        if !ok {
            lemma_walk_resolve(h2, child, va, depth - 1);
            assert(h3 == h2 && *after == *mid);
            if made {
                assert(depth == 2);
                assert(h.has_free(1));
                assert(h3 == half_built(h, page, va, child));
            }
        } else {
            assert forall|va2: u64| same_page(va2, va) implies #[trigger] resolve(
                h3,
                page,
                va2,
                depth,
            ) == (0int, leaf) by {
                assert(resolve(h3, child, va2, depth - 1) == (0int, leaf));
            }
            assert forall|va2: u64| differs_below(va2, va, depth) implies #[trigger] resolve(
                h3,
                page,
                va2,
                depth,
            ) == resolve_after(h, page, va, va2, depth) by {
                lemma_index_bound(va2 >> 12);
                lemma_index_bound(va2 >> 21);
                lemma_index_bound(va2 >> 30);
                if vpn(va2, depth) != vpn(va, depth) {
                    self.lemma_off_path(h, h3, page, va, va2, depth);
                } else {
                    assert(differs_below(va2, va, depth - 1));
                    assert(resolve(h3, page, va2, depth) == resolve(h3, child, va2, depth - 1));
                    assert(resolve(h3, child, va2, depth - 1) == resolve_after(
                        h2,
                        child,
                        va,
                        va2,
                        depth - 1,
                    ));
                    if made {
                        assert(entry(h2, child, vpn(va2, depth - 1) as int) == 0);
                        assert(entry(h2, child, vpn(va, depth - 1) as int) == 0);
                    }
                }
            }
        }
    }
}

#[verifier::rlimit(50)]
fn map_rec(
    va: &VirtAddr,
    leaf: Pte,
    root: &mut PageTable,
    heap: &mut PageAllocator,
    table_addr: u64,
    depth: usize,
) -> (res: Result<(), MapError>)
    requires
        old(heap).wf(),
        old(root).inv(old(heap)@),
        old(heap)@.contains_byte(table_addr as int),
        table_addr % 4096 == 0,
        old(root).tables().contains(old(heap)@.page_of(table_addr as int)),
        old(root).level(old(heap)@.page_of(table_addr as int)) == depth,
        pte_valid(leaf.bits),
        !pte_branch(leaf.bits),
    ensures
        final(heap).wf(),
        final(root).inv(final(heap)@),
        map_post(
            old(root),
            old(heap)@,
            final(root),
            final(heap)@,
            old(heap)@.page_of(table_addr as int),
            va.bits,
            depth as int,
            leaf.bits,
            res is Ok,
        ),
        res is Err ==> res == Err::<(), MapError>(MapError::NoSpace),
    decreases depth,
{
    let ghost h0 = heap@;
    let ghost page = h0.page_of(table_addr as int);
    let ghost root0 = *root;
    let indices: [u64; 3] = va.get_vpn();
    proof {
        root.lemma_slot(h0, page, 0);
    }
    let index: u64 = indices[depth];
    proof {
        root.lemma_slot(h0, page, index as int);
        assert(h0.page_addr(page) == table_addr);
        assert(h0.word_index(table_addr + 8 * index) == 512 * page + index);
    }
    let entry_addr: u64 = table_addr + 8 * index;
    if depth == 0 {
        heap.store_word(entry_addr, leaf.bits);
        proof {
            root.lemma_map_leaf(h0, page, va.bits, leaf.bits);
        }
        return Ok(());
    }
    let mut pte = Pte { bits: heap.load_word(entry_addr) };
    let ghost mut child: int = child_page(h0, pte.bits);
    if !(pte.is_valid() && pte.is_branch()) {
        let new_page: u64 = match zero_allocate_pages(heap, 1) {
            Some(new_page) => new_page,
            None => {
                proof {
                    root.lemma_map_no_space(h0, page, va.bits, depth as int, leaf.bits);
                }
                return Err(MapError::NoSpace);
            },
        };
        let ghost h1 = heap@;
        proof {
            child = h0.page_of(new_page as int);
            let i = choose|i: int|
                {
                    &&& #[trigger] h0.first_fit(i, 1)
                    &&& new_page == h0.page_addr(i)
                    &&& h1 == h0.allocated(i, 1).zeroed(i, 1)
                };
            assert(i == child);
            root.lemma_root(h0);
            lemma_index_bound(new_page);
            lemma_encode(new_page >> 12, 1);
            lemma_mask(0);
            assert(new_page >> 12 == h0.base / 4096 + child);
        }
        let new_entry: Pte = match Pte::new(new_page >> 12, PteBits::Valid.val()) {
            Ok(new_entry) => new_entry,
            Err(e) => { return Err(MapError::NoSpace); },
        };
        heap.store_word(entry_addr, new_entry.bits);
        root.levels = Ghost(root.levels@.insert(child, depth - 1));
        root.parents = Ghost(root.parents@.insert(child, (page, index as int)));
        proof {
            root0.lemma_install_table(root, h0, child, page, index as int, new_entry.bits);
            assert(root.tables() =~= root0.tables().insert(child));
        }
        pte = new_entry;
    }
    let ghost h2 = heap@;
    let ghost root2 = *root;
    proof {
        assert(stepped(&root0, h0, &root2, h2, page, va.bits, depth as int, child));
        assert(entry(h2, page, index as int) == pte.bits);
        assert(pte_table(pte.bits) && child_page(h2, pte.bits) == child);
        root.lemma_slot(h2, page, index as int);
    }
    let next_table: u64 = pte.get_physical_addr();
    assert(next_table == h2.base + 4096 * child);
    let res = map_rec(va, leaf, root, heap, next_table, depth - 1);
    proof {
        root0.lemma_map_step(
            h0,
            &root2,
            h2,
            root,
            heap@,
            page,
            va.bits,
            depth as int,
            child,
            leaf.bits,
            res is Ok,
        );
    }
    res
}

/// An offset inside a page changes neither the page nor its table indices.
pub(crate) proof fn lemma_within_page(va: u64, k: u64)
    by (bit_vector)
    requires
        va & 0xfff == 0,
        k < 4096,
    ensures
        va + k <= 0xffff_ffff_ffff_ffff,
        (((va + k) as u64) >> 12) & 0x1ff == (va >> 12) & 0x1ff,
        (((va + k) as u64) >> 21) & 0x1ff == (va >> 21) & 0x1ff,
        (((va + k) as u64) >> 30) & 0x1ff == (va >> 30) & 0x1ff,
        ((va + k) as u64) & 0xfff == k,
        ((va + k) as u64) >> 12 == va >> 12,
{
}

/// Two pages less than 2^27 pages apart differ in a table index.
pub(crate) proof fn lemma_distinct_pages(a: u64, b: u64)
    by (bit_vector)
    requires
        a >> 12 < b >> 12,
        (b >> 12) - (a >> 12) < 0x800_0000,
    ensures
        (a >> 12) & 0x1ff != (b >> 12) & 0x1ff || (a >> 21) & 0x1ff != (b >> 21) & 0x1ff || (a
            >> 30) & 0x1ff != (b >> 30) & 0x1ff,
{
}

/// An address is its page number times the page size plus its offset.
pub(crate) proof fn lemma_split(a: u64)
    by (bit_vector)
    ensures
        (a >> 12) * 4096 + (a & 0xfff) == a,
{
}

/// The address that a leaf of the last level gives, as arithmetic.
pub(crate) proof fn lemma_leaf_sum(ppn: u64, x: u64, k: u64)
    by (bit_vector)
    requires
        ppn < 0x1000_0000_0000,
        k < 4096,
    ensures
        ((ppn | (x & 0)) << 12) | k == ppn * 4096 + k,
{
}

/// Setting the valid bit keeps the access bits.
pub(crate) proof fn lemma_with_valid(bits: u64)
    by (bit_vector)
    requires
        bits < 256,
    ensures
        (bits | 1) < 256,
        (bits | 1) & 1 == 1,
        (bits | 1) & 2 == bits & 2,
        (bits | 1) & 4 == bits & 4,
        (bits | 1) & 8 == bits & 8,
{
}

/// Maps the page of `va` to the page of `pa` with the permissions
/// `protection_bits`, making the tables that are missing on the way. A
/// mapping that the page already had is replaced, and so is a leaf met above
/// the last level. Bits that allow writing without reading are refused before
/// anything is changed. Where the allocator runs out of pages the tables made
/// so far stay in the tree.
pub fn map(
    va: u64,
    pa: u64,
    root: &mut PageTable,
    protection_bits: u64,
    heap: &mut PageAllocator,
) -> (res: Result<(), MapError>)
    requires
        old(heap).wf(),
        old(root).inv(old(heap)@),
        va % 4096 == 0,
        pa % 4096 == 0,
        pa < PHYSICAL_LIMIT,
        protection_bits < 256,
        !pte_branch(protection_bits),
    ensures
        final(heap).wf(),
        final(root).inv(final(heap)@),
        grown(old(root), old(heap)@, final(root), final(heap)@),
        pte_reserved(protection_bits) <==> res == Err::<(), MapError>(MapError::ReservedEncoding),
        pte_reserved(protection_bits) ==> final(heap)@ == old(heap)@ && *final(root) == *old(root),
        res is Ok <==> !pte_reserved(protection_bits) && old(heap)@.has_free(
            tables_needed(old(heap)@, old(root).root_page(old(heap)@), va, 2),
        ),
        res is Ok ==> final(root).tables().len() == old(root).tables().len() + tables_needed(
            old(heap)@,
            old(root).root_page(old(heap)@),
            va,
            2,
        ),
        res is Err && !pte_reserved(protection_bits) ==> res == Err::<(), MapError>(
            MapError::NoSpace,
        ) && failed_state(
            old(root),
            old(heap)@,
            final(root),
            final(heap)@,
            old(root).root_page(old(heap)@),
            va,
            2,
        ),
        res is Ok ==> forall|k: u64|
            k < 4096 ==> #[trigger] walk(
                final(heap)@,
                old(root).root_page(old(heap)@),
                (va + k) as u64,
                2,
            ) == Ok::<u64, TranslateError>((pa + k) as u64),
        res is Ok ==> forall|va2: u64|
            same_page(va2, va) ==> #[trigger] resolve(
                final(heap)@,
                old(root).root_page(old(heap)@),
                va2,
                2,
            ) == (0int, pte_encode(pa >> 12, protection_bits | 1)),
        res is Ok ==> forall|va2: u64|
            !same_page(va2, va) ==> #[trigger] resolve(
                final(heap)@,
                old(root).root_page(old(heap)@),
                va2,
                2,
            ) == resolve_after(old(heap)@, old(root).root_page(old(heap)@), va, va2, 2),
        only_path_changed(
            old(root),
            old(heap)@,
            final(heap)@,
            old(root).root_page(old(heap)@),
            va,
            2,
        ),
        res is Err && !pte_reserved(protection_bits) ==> !final(heap)@.has_free(
            tables_needed(final(heap)@, old(root).root_page(old(heap)@), va, 2),
        ),
        res is Err ==> forall|va2: u64|
            resolve(old(heap)@, old(root).root_page(old(heap)@), va2, 2).0 == 0
                ==> #[trigger] resolve(final(heap)@, old(root).root_page(old(heap)@), va2, 2)
                == resolve(old(heap)@, old(root).root_page(old(heap)@), va2, 2),
        res is Ok ==> forall|va2: u64|
            !same_page(va2, va) ==> {
                ||| #[trigger] walk(final(heap)@, old(root).root_page(old(heap)@), va2, 2) == walk(
                    old(heap)@,
                    old(root).root_page(old(heap)@),
                    va2,
                    2,
                )
                ||| (walk(final(heap)@, old(root).root_page(old(heap)@), va2, 2) == Err::<
                    u64,
                    TranslateError,
                >(TranslateError::Unmapped) && resolve(
                    old(heap)@,
                    old(root).root_page(old(heap)@),
                    va2,
                    2,
                ).0 > 0)
            },
{
    proof {
        root.lemma_root(heap@);
        lemma_with_valid(protection_bits);
        lemma_index_bound(pa);
        lemma_encode(pa >> 12, protection_bits | 1);
    }
    let leaf: Pte = match Pte::new(pa >> 12, protection_bits | PteBits::Valid.val()) {
        Ok(leaf) => leaf,
        Err(e) => { return Err(e); },
    };
    let va_bits = VirtAddr { bits: va };
    let ghost page = root.root_page(heap@);
    let ghost before = *root;
    let res = map_rec(&va_bits, leaf, root, heap, root.addr, NUM_LEVELS - 1);
    proof {
        if res is Err {
            assert forall|va2: u64| resolve(old(heap)@, page, va2, 2).0 == 0 implies #[trigger] resolve(
                heap@,
                page,
                va2,
                2,
            ) == resolve(old(heap)@, page, va2, 2) by {
                if heap@ != old(heap)@ {
                    let h = old(heap)@;
                    let e = entry(h, page, vpn(va, 2) as int);
                    assert(tables_needed(h, page, va, 2) == 2);
                    if pte_table(e) {
                        lemma_walk_resolve(h, child_page(h, e), va, 1);
                    }
                    assert(!pte_table(e));
                    assert(pte_table(entry(h, page, vpn(va2, 2) as int)));
                    before.lemma_off_path(h, heap@, page, va, va2, 2);
                }
            }
        }
        if res is Ok {
            assert forall|k: u64| k < 4096 implies #[trigger] walk(
                heap@,
                page,
                (va + k) as u64,
                2,
            ) == Ok::<u64, TranslateError>((pa + k) as u64) by {
                lemma_index_bound(va);
                lemma_within_page(va, k);
                let va2 = (va + k) as u64;
                assert(same_page(va2, va));
                lemma_leaf_sum(pa >> 12, whole_vpn(va2), k);
                lemma_walk_resolve(heap@, page, va2, 2);
                assert(resolve(heap@, page, va2, 2) == (0int, leaf.bits));
            }
            assert forall|va2: u64| !same_page(va2, va) implies #[trigger] resolve(
                heap@,
                page,
                va2,
                2,
            ) == resolve_after(old(heap)@, page, va, va2, 2) by {
                assert(differs_below(va2, va, 2));
            }
            assert forall|va2: u64| !same_page(va2, va) implies {
                ||| #[trigger] walk(heap@, page, va2, 2) == walk(old(heap)@, page, va2, 2)
                ||| (walk(heap@, page, va2, 2) == Err::<u64, TranslateError>(
                    TranslateError::Unmapped,
                ) && resolve(old(heap)@, page, va2, 2).0 > 0)
            } by {
                assert(resolve(heap@, page, va2, 2) == resolve_after(old(heap)@, page, va, va2, 2));
                lemma_walk_resolve(heap@, page, va2, 2);
                lemma_map_frame(old(heap)@, page, va, va2, 2);
            }
        }
    }
    res
}


impl PageTable {
    /// Where teardown meets the table in data page `p`: the root entry above
    /// it, and the entry of the table between them (512 for a table that the
    /// root points to, which is given back after those below it).
    pub closed spec fn order(&self, p: int) -> (int, int) {
        if self.levels@[p] == 1 {
            (self.parents@[p].1, 512)
        } else {
            (self.parents@[self.parents@[p].0].1, self.parents@[p].1)
        }
    }

    /// The table in data page `p` is met before teardown reaches entry `i1`
    /// of the table under root entry `i2`.
    #[verifier::opaque]
    pub closed spec fn done(&self, h: HeapModel, p: int, i2: int, i1: int) -> bool {
        &&& self.levels@.dom().contains(p)
        &&& p != h.page_of(self.addr as int)
        &&& (self.order(p).0 < i2 || (self.order(p).0 == i2 && self.order(p).1 < i1))
    }

    /// The root is the only table of the top level.
    proof fn lemma_top_is_root(&self, h: HeapModel, p: int)
        requires
            self.inv(h),
            self.levels@.dom().contains(p),
            self.levels@[p] == 2,
        ensures
            p == h.page_of(self.addr as int),
    {
        reveal(PageTable::inv);
        if p != h.page_of(self.addr as int) {
            assert(self.table_ok(h, p));
            let (pp, ii) = self.parents@[p];
            assert(self.slot_ok(h, pp, ii));
            assert(self.table_ok(h, pp));
        }
    }

    /// Every table but the root hangs under a root entry, directly or under
    /// the table that the root entry points to.
    proof fn lemma_located(&self, h: HeapModel, p: int)
        requires
            self.inv(h),
            self.levels@.dom().contains(p),
            p != h.page_of(self.addr as int),
        ensures
            ({
                let (a, b) = self.order(p);
                let e2 = entry(h, h.page_of(self.addr as int), a);
                let c1 = child_page(h, e2);
                &&& 0 <= a < 512
                &&& pte_table(e2)
                &&& if self.levels@[p] == 1 {
                    b == 512 && c1 == p
                } else {
                    &&& self.levels@[p] == 0
                    &&& 0 <= b < 512
                    &&& pte_table(entry(h, c1, b))
                    &&& child_page(h, entry(h, c1, b)) == p
                }
            }),
    {
        reveal(PageTable::inv);
        assert(self.table_ok(h, p));
        let (pp, ii) = self.parents@[p];
        assert(self.slot_ok(h, pp, ii));
        assert(self.table_ok(h, pp));
        if self.levels@[pp] == 2 {
            self.lemma_top_is_root(h, pp);
        } else {
            let (ppp, iii) = self.parents@[pp];
            assert(self.slot_ok(h, ppp, iii));
            assert(self.table_ok(h, ppp));
            self.lemma_top_is_root(h, ppp);
        }
    }

    /// The tables that teardown finds under root entry `a`, and under entry
    /// `b` of the table there, are tables of the tree, found at that place.
    proof fn lemma_child_located(&self, h: HeapModel, a: int, b: int)
        requires
            self.inv(h),
            0 <= a < 512,
            0 <= b < 512,
            pte_table(entry(h, h.page_of(self.addr as int), a)),
        ensures
            ({
                let root = h.page_of(self.addr as int);
                let c1 = child_page(h, entry(h, root, a));
                let c0 = child_page(h, entry(h, c1, b));
                &&& self.levels@.dom().contains(c1)
                &&& c1 != root
                &&& self.levels@[c1] == 1
                &&& self.order(c1) == (a, 512int)
                &&& self.table_ok(h, c1)
                &&& pte_table(entry(h, c1, b)) ==> {
                    &&& self.levels@.dom().contains(c0)
                    &&& c0 != root
                    &&& self.levels@[c0] == 0
                    &&& self.order(c0) == (a, b)
                    &&& self.table_ok(h, c0)
                }
            }),
    {
        reveal(PageTable::inv);
        let root = h.page_of(self.addr as int);
        let c1 = child_page(h, entry(h, root, a));
        assert(self.slot_ok(h, root, a));
        assert(self.table_ok(h, c1));
        assert(self.slot_ok(h, c1, b));
        if pte_table(entry(h, c1, b)) {
            assert(self.table_ok(h, child_page(h, entry(h, c1, b))));
        }
    }
}

impl PageTable {
    /// Before teardown starts no table is met.
    proof fn lemma_done_first(&self, h: HeapModel)
        requires
            self.inv(h),
        ensures
            forall|p: int| !self.done(h, p, 0, 0),
    {
        reveal(PageTable::done);
        assert forall|p: int| !self.done(h, p, 0, 0) by {
            if self.levels@.dom().contains(p) && p != h.page_of(self.addr as int) {
                self.lemma_located(h, p);
            }
        }
    }

    /// After the last root entry every table but the root is met.
    proof fn lemma_done_all(&self, h: HeapModel)
        requires
            self.inv(h),
        ensures
            forall|p: int|
                self.done(h, p, 512, 0) <==> self.tables().contains(p) && p != self.root_page(h),
    {
        reveal(PageTable::done);
        assert forall|p: int|
            self.done(h, p, 512, 0) <==> self.tables().contains(p) && p != self.root_page(h) by {
            if self.levels@.dom().contains(p) && p != h.page_of(self.addr as int) {
                self.lemma_located(h, p);
            }
        }
    }

    /// A root entry that points to no table has no table under it.
    proof fn lemma_done_skip_root(&self, h: HeapModel, a: int)
        requires
            self.inv(h),
            0 <= a < 512,
            !pte_table(entry(h, self.root_page(h), a)),
        ensures
            forall|p: int| self.done(h, p, a + 1, 0) <==> self.done(h, p, a, 0),
    {
        reveal(PageTable::done);
        assert forall|p: int| self.done(h, p, a + 1, 0) <==> self.done(h, p, a, 0) by {
            if self.levels@.dom().contains(p) && p != h.page_of(self.addr as int) {
                self.lemma_located(h, p);
            }
        }
    }

    /// The table that root entry `a` points to: what the allocator says of
    /// it, and that teardown meets it after the tables below it.
    proof fn lemma_done_root_entry(&self, h: HeapModel, a: int)
        requires
            self.inv(h),
            0 <= a < 512,
            pte_table(entry(h, self.root_page(h), a)),
        ensures
            ({
                let c1 = child_page(h, entry(h, self.root_page(h), a));
                &&& 0 <= c1 < h.pages.len()
                &&& c1 != self.root_page(h)
                &&& h.pages[c1] == PageState::Last
                &&& (c1 == 0 || h.pages[c1 - 1] != PageState::Taken)
                &&& !self.done(h, c1, a, 512)
                &&& forall|p: int| self.done(h, p, a + 1, 0) <==> self.done(h, p, a, 512) || p == c1
            }),
    {
        reveal(PageTable::done);
        let c1 = child_page(h, entry(h, self.root_page(h), a));
        self.lemma_child_located(h, a, 0);
        assert forall|p: int| self.done(h, p, a + 1, 0) <==> self.done(h, p, a, 512) || p
            == c1 by {
            if self.levels@.dom().contains(p) && p != h.page_of(self.addr as int) {
                self.lemma_located(h, p);
            }
        }
    }

    /// Entry `b` of the table that root entry `a` points to: whether it
    /// points to a table, and if so what the allocator says of that table.
    proof fn lemma_done_entry(&self, h: HeapModel, a: int, b: int)
        requires
            self.inv(h),
            0 <= a < 512,
            0 <= b < 512,
            pte_table(entry(h, self.root_page(h), a)),
        ensures
            ({
                let c1 = child_page(h, entry(h, self.root_page(h), a));
                let e1 = entry(h, c1, b);
                let c0 = child_page(h, e1);
                &&& pte_table(e1) ==> {
                    &&& 0 <= c0 < h.pages.len()
                    &&& c0 != self.root_page(h)
                    &&& c0 != c1
                    &&& h.pages[c0] == PageState::Last
                    &&& (c0 == 0 || h.pages[c0 - 1] != PageState::Taken)
                    &&& !self.done(h, c0, a, b)
                    &&& forall|p: int| self.done(h, p, a, b + 1) <==> self.done(h, p, a, b) || p == c0
                }
                &&& !pte_table(e1) ==> forall|p: int| self.done(h, p, a, b + 1) <==> self.done(h, p, a, b)
            }),
    {
        reveal(PageTable::done);
        let c1 = child_page(h, entry(h, self.root_page(h), a));
        let e1 = entry(h, c1, b);
        let c0 = child_page(h, e1);
        self.lemma_child_located(h, a, b);
        if pte_table(e1) {
            assert forall|p: int| self.done(h, p, a, b + 1) <==> self.done(h, p, a, b) || p
                == c0 by {
                if self.levels@.dom().contains(p) && p != h.page_of(self.addr as int) {
                    self.lemma_located(h, p);
                }
            }
        } else {
            assert forall|p: int| self.done(h, p, a, b + 1) <==> self.done(h, p, a, b) by {
                if self.levels@.dom().contains(p) && p != h.page_of(self.addr as int) {
                    self.lemma_located(h, p);
                }
            }
        }
    }
}

/// The descriptors while teardown runs: the pages in `freed` are free, the
/// others are as they were in `h`.
pub open spec fn freed_from(now: HeapModel, h: HeapModel, freed: Set<int>) -> bool {
    &&& now.base == h.base
    &&& now.words == h.words
    &&& now.pages.len() == h.pages.len()
    &&& forall|p: int|
        0 <= p < h.pages.len() ==> #[trigger] now.pages[p] == (if freed.contains(p) {
            PageState::Free
        } else {
            h.pages[p]
        })
}

/// Gives back every table of the tree but the root, lowest level first, and
/// returns how many pages that were. The pages that the tree maps are not
/// touched, and neither is the root, which the caller gives back.
#[verifier::rlimit(50)]
pub fn unmap(root: &PageTable, heap: &mut PageAllocator) -> (reclaimed: usize)
    requires
        old(heap).wf(),
        root.inv(old(heap)@),
    ensures
        final(heap).wf(),
        freed_from(
            final(heap)@,
            old(heap)@,
            root.tables().remove(root.root_page(old(heap)@)),
        ),
        reclaimed == root.tables().len() - 1,
        final(heap)@.owns_run(root.root_page(old(heap)@)),
{
    let ghost h0 = heap@;
    let ghost rp = h0.page_of(root.addr as int);
    let ghost mut freed: Set<int> = Set::empty();
    let mut reclaimed: usize = 0;
    let mut level_2_index: usize = 0;
    proof {
        root.lemma_root(h0);
        root.lemma_done_first(h0);
    }
    while level_2_index < PAGE_TABLE_NUM_ENTRIES
        invariant
            heap.wf(),
            h0.wf(),
            root.inv(h0),
            rp == h0.page_of(root.addr as int),
            h0.contains_byte(root.addr as int),
            root.addr % 4096 == 0,
            h0.owns_run(rp),
            freed_from(heap@, h0, freed),
            level_2_index <= 512,
            reclaimed <= level_2_index * 513,
            freed.finite(),
            freed.len() == reclaimed,
            forall|p: int| freed.contains(p) <==> root.done(h0, p, level_2_index as int, 0),
        decreases 512 - level_2_index,
    {
        let ghost a: int = level_2_index as int;
        assert(heap@.word_index(root.addr + 8 * level_2_index) == 512 * rp + a);
        let level_2_entry = Pte { bits: heap.load_word(root.addr + 8 * (level_2_index as u64)) };
        assert(level_2_entry.bits == entry(h0, rp, a));
        if level_2_entry.is_valid() && level_2_entry.is_branch() {
            let level_2_entry_addr: u64 = level_2_entry.get_physical_addr();
            let ghost c1: int = child_page(h0, level_2_entry.bits);
            proof {
                root.lemma_done_root_entry(h0, a);
            }
            let mut level_1_index: usize = 0;
            while level_1_index < PAGE_TABLE_NUM_ENTRIES
                invariant
                    heap.wf(),
                    h0.wf(),
                    root.inv(h0),
                    rp == h0.page_of(root.addr as int),
                    0 <= a < 512,
                    a == level_2_index,
                    pte_table(entry(h0, rp, a)),
                    c1 == child_page(h0, entry(h0, rp, a)),
                    0 <= c1 < h0.pages.len(),
                    level_2_entry_addr == h0.base + 4096 * c1,
                    freed_from(heap@, h0, freed),
                    level_1_index <= 512,
                    reclaimed <= level_2_index * 513 + level_1_index,
                    freed.finite(),
                    freed.len() == reclaimed,
                    forall|p: int|
                        freed.contains(p) <==> root.done(h0, p, a, level_1_index as int),
                decreases 512 - level_1_index,
            {
                let ghost b: int = level_1_index as int;
                assert(heap@.word_index(level_2_entry_addr + 8 * level_1_index) == 512 * c1 + b);
                let level_1_entry = Pte {
                    bits: heap.load_word(level_2_entry_addr + 8 * (level_1_index as u64)),
                };
                assert(level_1_entry.bits == entry(h0, c1, b));
                proof {
                    root.lemma_done_entry(h0, a, b);
                }
                if level_1_entry.is_valid() && level_1_entry.is_branch() {
                    let level_1_entry_addr: u64 = level_1_entry.get_physical_addr();
                    let ghost c0: int = child_page(h0, level_1_entry.bits);
                    let ghost before = heap@;
                    proof {
                        assert(before.pages[c0] == PageState::Last);
                        assert(before.run_len(c0) == 1);
                    }
                    deallocate_pages(heap, level_1_entry_addr);
                    reclaimed += 1;
                    proof {
                        freed = freed.insert(c0);
                    }
                }
                level_1_index += 1;
            }
            let ghost before = heap@;
            proof {
                assert(before.pages[c1] == PageState::Last);
                assert(before.run_len(c1) == 1);
            }
            deallocate_pages(heap, level_2_entry_addr);
            reclaimed += 1;
            proof {
                freed = freed.insert(c1);
            }
        } else {
            proof {
                root.lemma_done_skip_root(h0, a);
            }
        }
        level_2_index += 1;
    }
    proof {
        root.lemma_done_all(h0);
        assert(freed =~= root.tables().remove(rp));
    }
    reclaimed
}


/// Teardown accounting. Take a tree that was empty in the heap `h0` and was
/// built up by mappings alone to the heap `h1`, and let teardown lead to the
/// heap `h2`. Then the number of pages that teardown gives back is the number
/// of tables that were made while building; these pages, free before the
/// building and taken by it, are free again; and every other page, a mapped
/// page or the root among them, has the descriptor that it had all along.
pub proof fn lemma_teardown_accounting(
    empty: &PageTable,
    h0: HeapModel,
    built: &PageTable,
    h1: HeapModel,
    h2: HeapModel,
)
    requires
        empty.tables() == set![empty.root_page(h0)],
        grown(empty, h0, built, h1),
        built.inv(h1),
        freed_from(h2, h1, built.tables().remove(built.root_page(h1))),
    ensures
        built.tables().len() - 1 == built.tables().difference(empty.tables()).len(),
        forall|p: int| #[trigger]
            built.tables().difference(empty.tables()).contains(p) ==> h0.pages[p]
                == PageState::Free && h1.pages[p] == PageState::Last && h2.pages[p]
                == PageState::Free,
        forall|p: int|
            0 <= p < h0.pages.len() && !built.tables().difference(empty.tables()).contains(p)
                ==> h1.pages[p] == h0.pages[p] && #[trigger] h2.pages[p] == h0.pages[p],
        h2.pages == h0.pages,
{
    built.lemma_root(h1);
    let root = built.root_page(h1);
    assert(root == empty.root_page(h0));
    assert(built.tables().difference(empty.tables()) =~= built.tables().remove(root));
    assert forall|p: int| #[trigger]
        built.tables().difference(empty.tables()).contains(p) implies h0.pages[p]
        == PageState::Free && h1.pages[p] == PageState::Last && h2.pages[p]
        == PageState::Free by {
        assert(built.tables().contains(p) && !empty.tables().contains(p));
    }
    assert(h2.pages =~= h0.pages);
}


impl PageTable {
    /// The tree stays well formed when the heap changes outside its tables:
    /// when the tables keep their descriptors and their entries, and no page
    /// right before a table becomes the inside of a run.
    pub proof fn lemma_inv_kept(&self, h: HeapModel, h2: HeapModel)
        requires
            self.inv(h),
            h2.base == h.base,
            h2.pages.len() == h.pages.len(),
            forall|p: int| #[trigger] self.tables().contains(p) ==> h2.pages[p] == h.pages[p],
            forall|p: int|
                #[trigger] self.tables().contains(p) && p > 0 ==> h2.pages[p - 1]
                    != PageState::Taken,
            forall|p: int, idx: int|
                self.tables().contains(p) && 0 <= idx < 512 ==> #[trigger] entry(h2, p, idx)
                    == entry(h, p, idx),
        ensures
            self.inv(h2),
    {
        reveal(PageTable::inv);
        assert forall|p: int| self.levels@.dom().contains(p) implies #[trigger] self.table_ok(
            h2,
            p,
        ) by {
            assert(self.table_ok(h, p));
            assert(self.tables().contains(p));
        }
        assert forall|p: int, idx: int|
            self.levels@.dom().contains(p) && 0 <= idx < 512 implies #[trigger] self.slot_ok(
            h2,
            p,
            idx,
        ) by {
            assert(self.slot_ok(h, p, idx));
            assert(self.tables().contains(p));
        }
    }

    /// Every walk ends as before when the tables of the tree keep their
    /// entries.
    pub proof fn lemma_resolve_kept(&self, h: HeapModel, h2: HeapModel, page: int, va: u64, depth: int)
        requires
            self.inv(h),
            h2.base == h.base,
            self.tables().contains(page),
            self.level(page) == depth,
            forall|p: int, idx: int|
                self.tables().contains(p) && 0 <= idx < 512 ==> #[trigger] entry(h2, p, idx)
                    == entry(h, p, idx),
        ensures
            resolve(h2, page, va, depth) == resolve(h, page, va, depth),
            walk(h2, page, va, depth) == walk(h, page, va, depth),
        decreases depth,
    {
        lemma_index_bound(va >> 12);
        lemma_index_bound(va >> 21);
        lemma_index_bound(va >> 30);
        let idx = vpn(va, depth) as int;
        self.lemma_slot(h, page, idx);
        assert(entry(h2, page, idx) == entry(h, page, idx));
        if depth > 0 && pte_table(entry(h, page, idx)) {
            self.lemma_resolve_kept(h, h2, child_page(h, entry(h, page, idx)), va, depth - 1);
        }
        lemma_walk_resolve(h, page, va, depth);
        lemma_walk_resolve(h2, page, va, depth);
    }
}

} // verus!
