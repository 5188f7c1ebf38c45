//! Virtual memory: mapping regions of the kernel and switching translation on.

use vstd::prelude::*;
use crate::memory_alloc::{HeapModel, PageAllocator};
use crate::mmu::sv39::{
    grown, lemma_distinct_pages, lemma_grown_trans, lemma_encode, lemma_full_path_kept, lemma_index_bound,
    lemma_leaf_sum, lemma_split, lemma_walk_resolve, lemma_with_valid, lemma_within_page,
    pte_branch, pte_encode, pte_reserved, resolve, same_page, tables_needed, walk, whole_vpn,
    MapError, PageTable, TranslateError, PHYSICAL_LIMIT,
};

pub mod sv39;

verus! {

/// Whether the hart translates addresses. Translation is switched on once and
/// never off.
#[derive(Clone, Copy, Debug, PartialEq, Eq, Structural)]
pub enum TranslationMode {
    Off,
    On,
}

/// The mode selector of Sv39 in the translation control register.
pub const SATP_MODE_SV39: u64 = 8;

/// The value of the translation control register that selects Sv39 with the
/// root table at `root_addr`.
pub open spec fn satp_value(root_addr: u64) -> u64 {
    (8u64 << 60) | (root_addr >> 12)
}

/// Switches translation on: returns the value that the caller writes to the
/// translation control register, and records that translation is on.
pub fn enable_mmu(root_table: &PageTable, mode: &mut TranslationMode) -> (satp_val: u64)
    ensures
        satp_val == satp_value(root_table.spec_addr()),
        *final(mode) == TranslationMode::On,
{
    let root_table_ppn: u64 = root_table.addr() >> 12;
    let satp_val: u64 = (SATP_MODE_SV39 << 60) | root_table_ppn;
    *mode = TranslationMode::On;
    satp_val
}

/// The address `va` selects, at some level, another table entry than any
/// page that starts in `[start, end)`.
pub open spec fn outside(va: u64, start: u64, end: u64) -> bool {
    forall|a: u64| start <= a < end && a % 4096 == 0 ==> !#[trigger] same_page(va, a)
}

/// Mapping the region `[start, end)` stopped at its page `stop`: the heap `h`
/// lacks the pages for the tables that `stop` needs, and, where the region is
/// no longer than the span of a tree, every page of the region before `stop`
/// is mapped to itself.
pub open spec fn stopped_at(
    h: HeapModel,
    root: int,
    start: u64,
    end: u64,
    protection_bits: u64,
    stop: u64,
) -> bool {
    &&& start <= stop < end
    &&& stop % 4096 == 0
    &&& !h.has_free(tables_needed(h, root, stop, 2))
    &&& end - start <= 0x80_0000_0000 ==> forall|a: u64|
        start <= a < stop ==> #[trigger] resolve(h, root, a, 2) == (
            0int,
            pte_encode(a >> 12, (protection_bits | 1) as u64),
        )
}

/// Maps every page that starts in `[start, end)` to itself with the
/// permissions `protection_bits`, and stops at the first page that cannot be
/// mapped.
pub fn memory_map_region(
    start: u64,
    end: u64,
    root_table: &mut PageTable,
    protection_bits: u64,
    heap: &mut PageAllocator,
) -> (res: Result<(), MapError>)
    requires
        old(heap).wf(),
        old(root_table).inv(old(heap)@),
        start % 4096 == 0,
        end <= PHYSICAL_LIMIT,
        protection_bits < 256,
        !pte_branch(protection_bits),
    ensures
        final(heap).wf(),
        final(root_table).inv(final(heap)@),
        grown(old(root_table), old(heap)@, final(root_table), final(heap)@),
        res == Err::<(), MapError>(MapError::ReservedEncoding) <==> start < end && pte_reserved(
            protection_bits,
        ),
        start >= end ==> res is Ok,
        res is Err ==> res == Err::<(), MapError>(MapError::ReservedEncoding) || res == Err::<
            (),
            MapError,
        >(MapError::NoSpace),
        start >= end || pte_reserved(protection_bits) ==> final(heap)@ == old(heap)@
            && *final(root_table) == *old(root_table),
        res is Ok && end - start <= 0x80_0000_0000 ==> forall|a: u64|
            start <= a && a - a % 4096 < end ==> #[trigger] walk(
                final(heap)@,
                old(root_table).root_page(old(heap)@),
                a,
                2,
            ) == Ok::<u64, TranslateError>(a),
        res == Err::<(), MapError>(MapError::NoSpace) ==> exists|stop: u64|
            stopped_at(
                final(heap)@,
                old(root_table).root_page(old(heap)@),
                start,
                end,
                protection_bits,
                stop,
            ),
        forall|va2: u64|
            outside(va2, start, end) && resolve(
                old(heap)@,
                old(root_table).root_page(old(heap)@),
                va2,
                2,
            ).0 == 0 ==> #[trigger] resolve(
                final(heap)@,
                old(root_table).root_page(old(heap)@),
                va2,
                2,
            ) == resolve(old(heap)@, old(root_table).root_page(old(heap)@), va2, 2),
{
    let ghost rp = root_table.root_page(heap@);
    let ghost entry_bits = (protection_bits | 1) as u64;
    let mut addr: u64 = start;
    while addr < end
        invariant
            heap.wf(),
            root_table.inv(heap@),
            grown(old(root_table), old(heap)@, root_table, heap@),
            start <= addr,
            start % 4096 == 0,
            addr % 4096 == 0,
            end <= PHYSICAL_LIMIT,
            protection_bits < 256,
            !pte_branch(protection_bits),
            addr > start ==> !pte_reserved(protection_bits) && start < end,
            addr == start ==> heap@ == old(heap)@ && *root_table == *old(root_table),
            rp == old(root_table).root_page(old(heap)@),
            entry_bits == protection_bits | 1,
            forall|va2: u64|
                outside(va2, start, end) && resolve(old(heap)@, rp, va2, 2).0 == 0
                    ==> #[trigger] resolve(heap@, rp, va2, 2) == resolve(old(heap)@, rp, va2, 2),
            end - start <= 0x80_0000_0000 ==> forall|a: u64|
                start <= a < addr ==> #[trigger] resolve(heap@, rp, a, 2) == (
                    0int,
                    pte_encode(a >> 12, entry_bits),
                ),
        decreases end + 4096 - addr,
    {
        let ghost before_table = *root_table;
        let ghost before_heap = heap@;
        let ghost here = addr;
        match sv39::map(addr, addr, root_table, protection_bits, heap) {
            Ok(()) => {},
            Err(e) => {
                proof {
                    lemma_grown_trans(
                        old(root_table),
                        old(heap)@,
                        &before_table,
                        before_heap,
                        root_table,
                        heap@,
                    );
                    if e == MapError::NoSpace {
                        assert(stopped_at(heap@, rp, start, end, protection_bits, here));
                    }
                }
                return Err(e);
            },
        }
        proof {
            lemma_grown_trans(
                old(root_table),
                old(heap)@,
                &before_table,
                before_heap,
                root_table,
                heap@,
            );
            assert forall|va2: u64|
                outside(va2, start, end) && resolve(old(heap)@, rp, va2, 2).0 == 0 implies #[trigger] resolve(
                heap@,
                rp,
                va2,
                2,
            ) == resolve(old(heap)@, rp, va2, 2) by {
                assert(!same_page(va2, here));
                lemma_full_path_kept(before_heap, rp, here, va2, 2);
            }
            if end - start <= 0x80_0000_0000 {
                lemma_index_bound(here);
                lemma_index_bound(start);
                assert forall|a: u64| start <= a < here + 4096 implies #[trigger] resolve(
                    heap@,
                    rp,
                    a,
                    2,
                ) == (0int, pte_encode(a >> 12, entry_bits)) by {
                    lemma_index_bound(a);
                    if a < here {
                        assert(here < end);
                        assert(here == 4096 * (here / 4096) && start == 4096 * (start / 4096));
                        assert(here / 4096 - start / 4096 < 0x800_0000);
                        assert(a / 4096 >= start / 4096);
                        assert(a / 4096 < here / 4096);
                        lemma_distinct_pages(a, here);
                        assert(!same_page(a, here));
                        lemma_full_path_kept(before_heap, rp, here, a, 2);
                    } else {
                        lemma_within_page(here, (a - here) as u64);
                        assert(same_page(a, here));
                    }
                }
            }
        }
        addr = addr + 4096;
    }
    proof {
        if end - start <= 0x80_0000_0000 {
            lemma_with_valid(protection_bits);
            assert forall|a: u64| start <= a && a - a % 4096 < end implies #[trigger] walk(
                heap@,
                rp,
                a,
                2,
            ) == Ok::<u64, TranslateError>(a) by {
                lemma_index_bound(a);
                lemma_walk_resolve(heap@, rp, a, 2);
                lemma_encode(a >> 12, entry_bits);
                lemma_leaf_sum(a >> 12, whole_vpn(a), a & 0xfff);
                lemma_split(a);
            }
        }
    }
    Ok(())
}

} // verus!
