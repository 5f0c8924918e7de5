//! What holds of the address spaces across their operations.

use vstd::prelude::*;
use crate::address::{PhysPageNum, VirtPageNum};
use crate::frame::PhysMemory;
use crate::map_area::{MapArea, MAP_R, MAP_U, MAP_W, MAP_X};
use crate::memory_set::{
    area_loaded, area_mapped, areas_apart, lemma_shared_entry, page_loaded, page_mapped,
    page_shared, KernelLayout, MemorySet,
};
use crate::page_table::PageTable;
use crate::pte::{PTEFlags, PageTableEntry, PTE_COW, PTE_R, PTE_U, PTE_V, PTE_W, PTE_X};

verus! {

/// Mapping a page and translating it gives back the frame and the flags
/// with the valid bit: where `after` is the mappings `before` with `vpn`
/// mapped to `ppn` with `flags`, as `PageTable::map` leaves them, the entry
/// of `vpn` in `after` holds `ppn` and `flags` with `V`, and every other
/// page translates as before.
pub proof fn lemma_map_then_translate(
    before: Map<u64, PageTableEntry>,
    after: Map<u64, PageTableEntry>,
    vpn: VirtPageNum,
    ppn: PhysPageNum,
    flags: PTEFlags,
)
    requires
        ppn.wf(),
        flags.wf(),
        after == before.insert(vpn.0, PageTableEntry::spec_new(ppn, flags.with(PTE_V))),
    ensures
        after.contains_key(vpn.0),
        after[vpn.0].spec_ppn() == ppn,
        after[vpn.0].spec_flags() == flags.with(PTE_V),
        after[vpn.0].spec_is_valid(),
        forall|v: u64| v != vpn.0 ==> after.contains_key(v) == before.contains_key(v),
        forall|v: u64| v != vpn.0 && before.contains_key(v) ==> after[v] == before[v],
{
    let b = flags.bits;
    crate::pte::lemma_flag_bits(b);
    PageTableEntry::lemma_new_fields(ppn, flags.with(PTE_V));
}

/// Unmapping a page and translating it gives nothing: where `after` is the
/// mappings `before` without `vpn`, as `PageTable::unmap` leaves them,
/// `vpn` is not mapped in `after`, and every other page translates as
/// before.
pub proof fn lemma_unmap_then_translate(
    before: Map<u64, PageTableEntry>,
    after: Map<u64, PageTableEntry>,
    vpn: VirtPageNum,
)
    requires
        after == before.remove(vpn.0),
    ensures
        !after.contains_key(vpn.0),
        forall|v: u64| v != vpn.0 ==> after.contains_key(v) == before.contains_key(v),
        forall|v: u64| v != vpn.0 && before.contains_key(v) ==> after[v] == before[v],
{
}

/// What `translate` returns is what the mappings hold.
pub proof fn lemma_translate_is_view(page_table: &PageTable, mem: &PhysMemory, vpn: VirtPageNum)
    requires
        vpn.wf(),
    ensures
        page_table.lookup(mem, vpn.0) == if page_table.view(mem).contains_key(vpn.0) {
            Some(page_table.view(mem)[vpn.0])
        } else {
            None
        },
{
}

/// In an identical region, every page translates to the frame of its own
/// number.
pub proof fn lemma_identity_region(ms: &MemorySet, mem: &PhysMemory, i: int, vpn: VirtPageNum)
    requires
        ms.wf(mem),
        0 <= i < ms.regions().len(),
        !ms.regions()[i].is_framed(),
        ms.regions()[i].contains(vpn.0),
    ensures
        ms.table().lookup(mem, vpn.0) is Some,
        ms.table().lookup(mem, vpn.0)->0.spec_ppn().0 == vpn.0,
{
    assert(area_mapped(&ms.regions()[i], &ms.table(), mem));
    assert(page_mapped(&ms.regions()[i], &ms.table(), mem, vpn.0));
}

/// Two regions of an address space share no page, and the frames that back
/// the pages of the one are none of those that back the pages of the other.
pub proof fn lemma_framed_uniqueness(ms: &MemorySet, mem: &PhysMemory, i: int, j: int)
    requires
        ms.wf(mem),
        0 <= i < ms.regions().len(),
        0 <= j < ms.regions().len(),
        i != j,
    ensures
        forall|v: u64| !(ms.regions()[i].contains(v) && ms.regions()[j].contains(v)),
        forall|v: u64, w: u64|
            ms.regions()[i].frames().contains_key(v) && ms.regions()[j].frames().contains_key(w)
                ==> ms.regions()[i].frames()[v] != ms.regions()[j].frames()[w],
        forall|v: u64, w: u64|
            ms.regions()[i].frames().contains_key(v) && ms.regions()[i].frames().contains_key(w)
                && v != w ==> ms.regions()[i].frames()[v] != ms.regions()[i].frames()[w],
{
    let a = ms.regions()[i];
    let b = ms.regions()[j];
    assert(areas_apart(&a, &b));
    assert(a.inv(&ms.table(), mem));
    assert(b.inv(&ms.table(), mem));
    a.lemma_wf();
    b.lemma_wf();
    assert forall|v: u64, w: u64|
        a.frames().contains_key(v) && b.frames().contains_key(w) implies a.frames()[v]
        != b.frames()[w] by {
        assert(a.owned().contains(a.frames()[v]));
        assert(b.owned().contains(b.frames()[w]));
    }
}

/// After a copy-on-write fork, a shared page is mapped to the same frame
/// in the parent and in the child, to the frame that the parent had for
/// it, and in both it is marked copy-on-write and is not writable.
pub proof fn lemma_fork_shares(
    before: Map<u64, PageTableEntry>,
    parent: Map<u64, PageTableEntry>,
    child: Map<u64, PageTableEntry>,
    vpn: VirtPageNum,
)
    requires
        page_shared(before, parent, child, vpn.0),
    ensures
        parent[vpn.0].spec_ppn() == child[vpn.0].spec_ppn(),
        parent[vpn.0].spec_ppn() == before[vpn.0].spec_ppn(),
        parent[vpn.0].spec_flags().has(PTE_COW),
        child[vpn.0].spec_flags().has(PTE_COW),
        !parent[vpn.0].spec_flags().has(PTE_W),
        !child[vpn.0].spec_flags().has(PTE_W),
        parent[vpn.0].spec_is_valid(),
        child[vpn.0].spec_is_valid(),
{
    lemma_shared_entry(before[vpn.0]);
}

/// After a copy-on-write fault is resolved, the entry of the page holds the
/// fresh frame, is writable and is not marked copy-on-write; and the fresh
/// frame is not the former one, where that was still allocated.
pub proof fn lemma_cow_resolved(
    mem: &PhysMemory,
    entry: PageTableEntry,
    fresh: PhysPageNum,
    former_ppn: PhysPageNum,
)
    requires
        fresh.wf(),
        !mem.is_allocated(fresh.0),
        entry.spec_is_valid(),
    ensures
        ({
            let resolved = PageTableEntry::spec_new(
                fresh,
                entry.spec_flags().without(PTE_COW).with(PTE_W),
            );
            &&& resolved.spec_ppn() == fresh
            &&& resolved.spec_flags().has(PTE_W)
            &&& !resolved.spec_flags().has(PTE_COW)
            &&& resolved.spec_is_valid()
            &&& mem.is_allocated(former_ppn.0) ==> resolved.spec_ppn() != former_ppn
        }),
{
    let b = entry.spec_flags().bits;
    entry.lemma_valid_flag();
    crate::pte::lemma_flag_bits(b);
    PageTableEntry::lemma_new_fields(fresh, entry.spec_flags().without(PTE_COW).with(PTE_W));
}

/// An address space is not affected by a step of another owner of frames:
/// where the owner's frames before the step were none of the address
/// space's, the address space is well formed after the step as before, with
/// the same mappings, and its frames hold what they held.
pub proof fn lemma_bystander(
    ms: &MemorySet,
    mem: &PhysMemory,
    mem2: &PhysMemory,
    before: Set<u64>,
    after: Set<u64>,
)
    requires
        ms.wf(mem),
        mem2.wf(),
        mem2.stepped(mem, before, after),
        forall|p: u64| ms.footprint().contains(p) ==> !before.contains(p),
    ensures
        ms.wf(mem2),
        ms.view(mem2) == ms.view(mem),
        forall|p: u64|
            ms.footprint().contains(p) ==> mem2.is_allocated(p) && #[trigger] mem2.words(p)
                == mem.words(p),
{
    ms.lemma_footprint_allocated(mem);
    ms.lemma_untouched(mem, mem2, before + after);
    assert forall|p: u64| ms.footprint().contains(p) implies mem2.is_allocated(p)
        && #[trigger] mem2.words(p) == mem.words(p) by {
        mem.lemma_allocated_managed(p);
        assert(!(before + after).contains(p));
    }
}

/// Frames are conserved: where an address space was built from `m0` to
/// `m1` out of free frames, and released from `m1` to `m2`, the same frames
/// are allocated in `m2` as in `m0`, and as many are free.
pub proof fn lemma_frames_conserved(
    ms: &MemorySet,
    m0: &PhysMemory,
    m1: &PhysMemory,
    m2: &PhysMemory,
)
    requires
        m1.stepped(m0, Set::<u64>::empty(), ms.footprint()),
        m1.free_count() + ms.frame_total() == m0.free_count(),
        m2.stepped(m1, ms.footprint(), Set::<u64>::empty()),
        m2.free_count() == m1.free_count() + ms.frame_total(),
    ensures
        m2.free_count() == m0.free_count(),
        forall|p: u64| m2.is_allocated(p) == m0.is_allocated(p),
        forall|p: u64| ms.footprint().contains(p) ==> !m2.is_allocated(p),
{
    assert forall|p: u64| m2.is_allocated(p) == m0.is_allocated(p) by {
        if ms.footprint().contains(p) {
            assert(!m0.is_allocated(p));
            assert(!m2.is_allocated(p));
        } else {
            assert(!(Set::<u64>::empty() + ms.footprint()).contains(p));
            assert(!(ms.footprint() + Set::<u64>::empty()).contains(p));
            assert(m1.is_allocated(p) == m0.is_allocated(p));
            assert(m2.is_allocated(p) == m1.is_allocated(p));
        }
    }
}

/// The permissions of a page that is mapped as `map_one` leaves it are
/// those of its region: the entry is valid, and it is readable, writable,
/// executable and open to user mode exactly where the region is.
pub proof fn lemma_fresh_entry_flags(area: &MapArea, vpn: VirtPageNum)
    requires
        area.wf(),
        area.contains(vpn.0),
        area.is_framed() ==> area.frames().contains_key(vpn.0) && area.frames()[vpn.0]
            < crate::config::PPN_LIMIT,
    ensures
        area.fresh_entry(vpn.0).spec_is_valid(),
        area.fresh_entry(vpn.0).spec_ppn() == area.target(vpn.0),
        area.fresh_entry(vpn.0).spec_flags().has(PTE_R) == area.perm().has(MAP_R),
        area.fresh_entry(vpn.0).spec_flags().has(PTE_W) == area.perm().has(MAP_W),
        area.fresh_entry(vpn.0).spec_flags().has(PTE_X) == area.perm().has(MAP_X),
        area.fresh_entry(vpn.0).spec_flags().has(PTE_U) == area.perm().has(MAP_U),
        !area.fresh_entry(vpn.0).spec_flags().has(PTE_COW),
{
    area.lemma_wf();
    let p = area.perm().bits;
    crate::map_area::lemma_permission_bits(p);
    PageTableEntry::lemma_new_fields(area.target(vpn.0), area.perm().flags().with(PTE_V));
}

/// In the kernel address space the text is not writable, the read-only
/// data is not writable, and the data and the bss are not executable.
#[verifier::rlimit(30)]
pub proof fn lemma_kernel_permissions(
    ms: &MemorySet,
    mem: &PhysMemory,
    layout: &KernelLayout,
    trampoline: PhysPageNum,
    vpn: VirtPageNum,
)
    requires
        ms.built(mem, layout.spans(), layout.spans().len() as int, trampoline),
        forall|i: int|
            0 <= i < ms.regions().len() ==> area_loaded(
                &#[trigger] ms.regions()[i],
                &ms.table(),
                mem,
                Seq::<u8>::empty(),
            ),
    ensures
        ms.regions().len() >= 5,
        ms.regions()[0].contains(vpn.0) ==> ms.view(mem).contains_key(vpn.0) && !ms.view(
            mem,
        )[vpn.0].spec_flags().has(PTE_W) && ms.view(mem)[vpn.0].spec_flags().has(PTE_R) && ms.view(
            mem,
        )[vpn.0].spec_flags().has(PTE_X),
        ms.regions()[1].contains(vpn.0) ==> ms.view(mem).contains_key(vpn.0) && !ms.view(
            mem,
        )[vpn.0].spec_flags().has(PTE_W) && ms.view(mem)[vpn.0].spec_flags().has(PTE_R),
        ms.regions()[2].contains(vpn.0) ==> ms.view(mem).contains_key(vpn.0) && !ms.view(
            mem,
        )[vpn.0].spec_flags().has(PTE_X) && ms.view(mem)[vpn.0].spec_flags().has(PTE_W),
        ms.regions()[3].contains(vpn.0) ==> ms.view(mem).contains_key(vpn.0) && !ms.view(
            mem,
        )[vpn.0].spec_flags().has(PTE_X) && ms.view(mem)[vpn.0].spec_flags().has(PTE_W),
        forall|i: int|
            0 <= i < ms.regions().len() && (#[trigger] ms.regions()[i]).contains(vpn.0)
                ==> ms.view(mem)[vpn.0].spec_ppn().0 == vpn.0 && !ms.view(
                mem,
            )[vpn.0].spec_flags().has(PTE_U),
{
    let spans = layout.spans();
    assert(spans.len() >= 5);
    crate::map_area::lemma_permission_constants();
    assert forall|i: int|
        0 <= i < ms.regions().len() && (#[trigger] ms.regions()[i]).contains(
            vpn.0,
        ) implies ms.view(mem).contains_key(vpn.0) && ms.view(mem)[vpn.0]
        == ms.regions()[i].fresh_entry(vpn.0) && ms.view(mem)[vpn.0].spec_ppn().0 == vpn.0
        && !ms.regions()[i].is_framed() && !ms.view(mem)[vpn.0].spec_flags().has(PTE_U) by {
        let a = ms.regions()[i];
        assert(spans[i].describes(&a));
        assert(a.inv(&ms.table(), mem));
        assert(area_loaded(&a, &ms.table(), mem, Seq::<u8>::empty()));
        assert(page_loaded(&a, &ms.table(), mem, Seq::<u8>::empty(), vpn.0));
        lemma_fresh_entry_flags(&a, vpn);
    }
    if ms.regions()[0].contains(vpn.0) {
        assert(spans[0].describes(&ms.regions()[0]));
        assert(ms.regions()[0].inv(&ms.table(), mem));
        lemma_fresh_entry_flags(&ms.regions()[0], vpn);
        assert(ms.regions()[0].perm().bits == MAP_R | MAP_X);
        assert(ms.regions()[0].perm().has(MAP_R));
        assert(ms.regions()[0].perm().has(MAP_X));
        assert(!ms.regions()[0].perm().has(MAP_W));
        assert(ms.view(mem)[vpn.0] == ms.regions()[0].fresh_entry(vpn.0));
    }
    if ms.regions()[1].contains(vpn.0) {
        assert(spans[1].describes(&ms.regions()[1]));
        assert(ms.regions()[1].inv(&ms.table(), mem));
        lemma_fresh_entry_flags(&ms.regions()[1], vpn);
        assert(ms.regions()[1].perm().bits == MAP_R);
        assert(ms.regions()[1].perm().has(MAP_R));
        assert(!ms.regions()[1].perm().has(MAP_W));
        assert(ms.view(mem)[vpn.0] == ms.regions()[1].fresh_entry(vpn.0));
    }
    if ms.regions()[2].contains(vpn.0) {
        assert(spans[2].describes(&ms.regions()[2]));
        assert(ms.regions()[2].inv(&ms.table(), mem));
        lemma_fresh_entry_flags(&ms.regions()[2], vpn);
    }
    if ms.regions()[3].contains(vpn.0) {
        assert(spans[3].describes(&ms.regions()[3]));
        assert(ms.regions()[3].inv(&ms.table(), mem));
        lemma_fresh_entry_flags(&ms.regions()[3], vpn);
    }
}

} // verus!
