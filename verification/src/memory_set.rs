//! An address space: one page table and the regions mapped in it.

use vstd::prelude::*;
use vstd::slice::slice_subrange;
use crate::address::{page_ceil, page_floor, PhysAddr, PhysPageNum, VirtAddr, VirtPageNum};
use crate::config::{
    MEMORY_END, MMIO, PAGE_SIZE, TRAMPOLINE, TRAP_CONTEXT, USER_HEAP_SIZE, USER_STACK_SIZE, VA_LIMIT,
    VPN_LIMIT,
};
use crate::elf::{
    lemma_load_spans_prefix, lemma_load_spans_step, load_index, load_spans, max_end_vpn, ElfHeaders,
    ProgramHeader, ELF_MAGIC,
};
use crate::frame::{words_to_bytes, zero_words, PhysMemory};
use crate::map_area::{overlay, MapArea, MapPermission, MapType, MAP_R, MAP_U, MAP_W, MAP_X};
use crate::page_table::{PageTable, TableSet};
use crate::pte::{PTEFlags, PageTableEntry, PTE_COW, PTE_R, PTE_V, PTE_W, PTE_X};

verus! {

/// Number of the trampoline page, the last page of the address space.
pub const TRAMPOLINE_VPN: u64 = 0x7ff_ffff;

/// The frames that the regions of `areas` own.
pub open spec fn areas_owned(areas: Seq<MapArea>) -> Set<u64> {
    Set::new(
        |p: u64| exists|i: int| 0 <= i < areas.len() && #[trigger] areas[i].owned().contains(p),
    )
}

/// Number of frames that the regions of `areas` own.
pub open spec fn areas_total(areas: Seq<MapArea>) -> nat
    decreases areas.len(),
{
    if areas.len() == 0 {
        0
    } else {
        areas_total(areas.drop_last()) + areas.last().frame_total()
    }
}

/// Every page of `area` is mapped: in an identical region to the frame of
/// its own number, in a framed one to a frame of `mem`.
pub open spec fn area_mapped(area: &MapArea, page_table: &PageTable, mem: &PhysMemory) -> bool {
    forall|v: u64| area.contains(v) ==> #[trigger] page_mapped(area, page_table, mem, v)
}

/// Page `v` of `area` is mapped: in an identical region to the frame of
/// its own number, in a framed one to a frame of `mem`.
pub open spec fn page_mapped(
    area: &MapArea,
    page_table: &PageTable,
    mem: &PhysMemory,
    v: u64,
) -> bool {
    &&& page_table.view(mem).contains_key(v)
    &&& !area.is_framed() ==> page_table.view(mem)[v].spec_ppn().0 == v
    &&& area.is_framed() ==> mem.managed(page_table.view(mem)[v].spec_ppn().0)
}

/// Page `v` is mapped in `a` as it is in `b`, or in neither.
pub open spec fn same_at(a: Map<u64, PageTableEntry>, b: Map<u64, PageTableEntry>, v: u64) -> bool {
    a.contains_key(v) == b.contains_key(v) && (a.contains_key(v) ==> a[v] == b[v])
}

/// Two regions share no page and no frame.
pub open spec fn areas_apart(a: &MapArea, b: &MapArea) -> bool {
    &&& forall|v: u64| !(a.contains(v) && b.contains(v))
    &&& forall|p: u64| !(a.owned().contains(p) && b.owned().contains(p))
}

/// Every page of `area` is mapped as `map_one` leaves it, and in a framed
/// region the frames hold `data` from the first page on, then zeros.
pub open spec fn area_loaded(
    area: &MapArea,
    page_table: &PageTable,
    mem: &PhysMemory,
    data: Seq<u8>,
) -> bool {
    forall|v: u64| area.contains(v) ==> #[trigger] page_loaded(area, page_table, mem, data, v)
}

/// Page `v` of `area` is mapped as `map_one` leaves it, and in a framed
/// region its frame holds its part of `data`, then zeros.
pub open spec fn page_loaded(
    area: &MapArea,
    page_table: &PageTable,
    mem: &PhysMemory,
    data: Seq<u8>,
    v: u64,
) -> bool {
    &&& page_table.view(mem).contains_key(v)
    &&& page_table.view(mem)[v] == area.fresh_entry(v)
    &&& area.is_framed() ==> area.frames().contains_key(v) && mem.bytes(area.frames()[v])
        == overlay(words_to_bytes(zero_words()), data, (v - area.start()) * 4096)
}

/// A region keeps fitting the page table through a step that touched none
/// of its frames and left its pages mapped to the same frames.
pub proof fn lemma_area_kept(
    a: &MapArea,
    pt: &PageTable,
    mem: &PhysMemory,
    pt2: &PageTable,
    mem2: &PhysMemory,
    touched: Set<u64>,
)
    requires
        a.inv(pt, mem),
        area_mapped(a, pt, mem),
        pt2.wf(mem2),
        mem2.same_outside(mem, touched),
        forall|p: u64| #[trigger]
            a.owned().contains(p) ==> !touched.contains(p) && !pt2.frame_set().contains(p),
        forall|v: u64|
            a.contains(v) ==> #[trigger] pt2.view(mem2).contains_key(v) && pt2.view(
                mem2,
            )[v].spec_ppn() == pt.view(mem)[v].spec_ppn(),
    ensures
        a.inv(pt2, mem2),
        area_mapped(a, pt2, mem2),
{
    a.lemma_wf();
    assert forall|v: u64| #[trigger] a.frames().contains_key(v) implies pt2.view(
        mem2,
    ).contains_key(v) && pt2.view(mem2)[v].spec_ppn().0 == a.frames()[v] by {
        assert(a.contains(v));
        assert(pt2.view(mem2).contains_key(v));
    }
    assert forall|v: u64| a.contains(v) implies #[trigger] page_mapped(a, pt2, mem2, v) by {
        assert(page_mapped(a, pt, mem, v));
        assert(pt.view(mem).contains_key(v));
        assert(pt2.view(mem2).contains_key(v));
        assert(pt2.view(mem2)[v].spec_ppn() == pt.view(mem)[v].spec_ppn());
        if a.is_framed() {
            assert(mem.managed(pt.view(mem)[v].spec_ppn().0));
        } else {
            assert(pt.view(mem)[v].spec_ppn().0 == v);
        }
    }
}

/// Index of the first region of `areas` that starts at page `start`, or
/// the number of regions if none does.
pub open spec fn first_with_start(areas: Seq<MapArea>, start: u64) -> int
    decreases areas.len(),
{
    if areas.len() == 0 {
        0
    } else if areas[0].start() == start {
        0
    } else {
        1 + first_with_start(areas.skip(1), start)
    }
}

/// Where the first `i` regions start elsewhere, the first that starts at
/// `start` is found from region `i` on.
pub proof fn lemma_first_with_start(areas: Seq<MapArea>, start: u64, i: int)
    requires
        0 <= i <= areas.len(),
        forall|j: int| 0 <= j < i ==> (#[trigger] areas[j]).start() != start,
    ensures
        first_with_start(areas, start) == i + first_with_start(areas.skip(i), start),
    decreases i,
{
    if i == 0 {
        assert(areas.skip(0) =~= areas);
    } else {
        assert(areas[0].start() != start);
        let rest = areas.skip(1);
        assert forall|j: int| 0 <= j < i - 1 implies (#[trigger] rest[j]).start() != start by {
            assert(rest[j] == areas[j + 1]);
        }
        lemma_first_with_start(rest, start, i - 1);
        assert(rest.skip(i - 1) =~= areas.skip(i));
    }
}

/// The frames of the regions but region `k` are those of all regions but
/// the frames of region `k`, where no two regions share a frame.
pub proof fn lemma_areas_owned_remove(areas: Seq<MapArea>, k: int)
    requires
        0 <= k < areas.len(),
        forall|i: int, j: int|
            0 <= i < areas.len() && 0 <= j < areas.len() && i != j ==> areas_apart(
                &#[trigger] areas[i],
                &#[trigger] areas[j],
            ),
    ensures
        areas_owned(areas.remove(k)) == areas_owned(areas).difference(areas[k].owned()),
{
    let rest = areas.remove(k);
    assert forall|p: u64| areas_owned(rest).contains(p) == areas_owned(areas).difference(
        areas[k].owned(),
    ).contains(p) by {
        if areas_owned(rest).contains(p) {
            let i = choose|i: int| 0 <= i < rest.len() && #[trigger] rest[i].owned().contains(p);
            let j = if i < k {
                i
            } else {
                i + 1
            };
            assert(rest[i] == areas[j]);
            assert(areas[j].owned().contains(p));
            assert(areas_apart(&areas[j], &areas[k]));
        }
        if areas_owned(areas).difference(areas[k].owned()).contains(p) {
            let j = choose|j: int| 0 <= j < areas.len() && #[trigger] areas[j].owned().contains(p);
            let i = if j < k {
                j
            } else {
                j - 1
            };
            assert(rest[i] == areas[j]);
            assert(rest[i].owned().contains(p));
        }
    }
    assert(areas_owned(rest) =~= areas_owned(areas).difference(areas[k].owned()));
}

/// Removing region `k` takes its frames from the count.
pub proof fn lemma_areas_total_remove(areas: Seq<MapArea>, k: int)
    requires
        0 <= k < areas.len(),
    ensures
        areas_total(areas.remove(k)) + areas[k].frame_total() == areas_total(areas),
    decreases areas.len(),
{
    if k == areas.len() - 1 {
        assert(areas.remove(k) =~= areas.drop_last());
    } else {
        lemma_areas_total_remove(areas.drop_last(), k);
        assert(areas.remove(k).drop_last() =~= areas.drop_last().remove(k));
        assert(areas.remove(k).last() == areas.last());
    }
}

/// Replacing region `k` changes the count by the difference.
pub proof fn lemma_areas_total_update(areas: Seq<MapArea>, k: int, a: MapArea)
    requires
        0 <= k < areas.len(),
    ensures
        areas_total(areas.update(k, a)) + areas[k].frame_total() == areas_total(areas)
            + a.frame_total(),
    decreases areas.len(),
{
    if k == areas.len() - 1 {
        assert(areas.update(k, a).drop_last() =~= areas.drop_last());
    } else {
        lemma_areas_total_update(areas.drop_last(), k, a);
        assert(areas.update(k, a).drop_last() =~= areas.drop_last().update(k, a));
    }
}

/// What a region is to be: its pages `[start, end)`, whether it is framed,
/// its permissions, and whether it shares its frames.
pub struct Span {
    pub start: int,
    pub end: int,
    pub framed: bool,
    pub perm: MapPermission,
    /// Whether the pages are mapped to frames that another address space
    /// owns, so that mapping them takes no frame but for page-table nodes.
    pub shared: bool,
}

impl Span {
    pub open spec fn wf(self) -> bool {
        0 <= self.start <= self.end <= VPN_LIMIT && self.perm.wf()
    }

    /// Whether `vpn` is a page of the span.
    pub open spec fn contains(self, vpn: u64) -> bool {
        self.start <= vpn < self.end
    }

    /// Whether `area` has the range, policy and permissions of the span.
    pub open spec fn describes(self, area: &MapArea) -> bool {
        &&& area.start() == self.start
        &&& area.end() == self.end
        &&& area.is_framed() == self.framed
        &&& area.perm() == self.perm
    }

    /// The span of the addresses `[start_va, end_va)`.
    pub open spec fn of_addresses(start_va: u64, end_va: u64, framed: bool, perm: u8) -> Span {
        Span {
            start: page_floor(start_va as int),
            end: page_ceil(end_va as int),
            framed,
            perm: MapPermission { bits: perm },
            shared: false,
        }
    }
}

/// Number of frames that mapping the spans takes, one span after the
/// other, from a page table with the nodes `ts`.
pub open spec fn spans_cost(ts: TableSet, spans: Seq<Span>) -> nat
    decreases spans.len(),
{
    if spans.len() == 0 {
        0
    } else {
        ts.map_cost(spans[0].start, spans[0].end, spans[0].framed && !spans[0].shared)
            + spans_cost(
            ts.cover(spans[0].start, spans[0].end),
            spans.skip(1),
        )
    }
}

/// Number of pages of the spans.
pub open spec fn spans_pages(spans: Seq<Span>) -> nat
    decreases spans.len(),
{
    if spans.len() == 0 {
        0
    } else {
        (if spans[0].start < spans[0].end {
            (spans[0].end - spans[0].start) as nat
        } else {
            0
        }) + spans_pages(spans.skip(1))
    }
}

/// Mapping the spans takes three frames for each page at most: two nodes
/// and the frame of the page.
pub proof fn lemma_spans_cost_bound(ts: TableSet, spans: Seq<Span>)
    ensures
        spans_cost(ts, spans) <= 3 * spans_pages(spans),
    decreases spans.len(),
{
    if spans.len() > 0 {
        ts.lemma_needed_bound(spans[0].start, spans[0].start, spans[0].end);
        lemma_spans_cost_bound(ts.cover(spans[0].start, spans[0].end), spans.skip(1));
    }
}

/// No two spans share a page, and none holds the trampoline page.
pub open spec fn spans_apart(spans: Seq<Span>) -> bool {
    &&& forall|i: int, j: int, v: u64|
        0 <= i < spans.len() && 0 <= j < spans.len() && i != j ==> !(#[trigger] spans[i].contains(v)
            && #[trigger] spans[j].contains(v))
    &&& forall|i: int| 0 <= i < spans.len() ==> !#[trigger] spans[i].contains(TRAMPOLINE_VPN)
}

/// Whether `vpn` is a page of one of the first `k` spans.
pub open spec fn spans_hold(spans: Seq<Span>, k: int, vpn: u64) -> bool {
    exists|i: int| 0 <= i < k && #[trigger] spans[i].contains(vpn)
}

/// A region that is loaded stays so through a step that left its pages
/// mapped as they were and its frames unchanged.
pub proof fn lemma_loaded_kept(
    a: &MapArea,
    pt: &PageTable,
    mem: &PhysMemory,
    pt2: &PageTable,
    mem2: &PhysMemory,
    data: Seq<u8>,
)
    requires
        a.wf(),
        area_loaded(a, pt, mem, data),
        forall|v: u64|
            a.contains(v) ==> #[trigger] pt2.view(mem2).contains_key(v) && pt2.view(mem2)[v]
                == pt.view(mem)[v],
        forall|p: u64| #[trigger] a.owned().contains(p) ==> mem2.words(p) == mem.words(p),
    ensures
        area_loaded(a, pt2, mem2, data),
{
    a.lemma_wf();
    assert forall|v: u64| a.contains(v) implies #[trigger] page_loaded(a, pt2, mem2, data, v) by {
        assert(page_loaded(a, pt, mem, data, v));
        assert(pt2.view(mem2).contains_key(v));
        if a.is_framed() {
            assert(a.frames().contains_key(v));
            assert(a.owned().contains(a.frames()[v]));
        }
    }
}

/// The nodes of a page table that maps the trampoline page and nothing
/// else.
pub open spec fn base_tables() -> TableSet {
    TableSet::empty().cover(TRAMPOLINE_VPN as int, TRAMPOLINE_VPN + 1)
}

/// Number of frames that it takes to build an address space with the
/// trampoline page and a region for each span: the root of the page table,
/// the two nodes for the trampoline page, and the frames for the spans.
pub open spec fn build_cost(spans: Seq<Span>) -> nat {
    3 + spans_cost(base_tables(), spans)
}

/// The section boundaries of the kernel image, as the linker gives them,
/// and the address of the trampoline code.
#[derive(Copy, Clone, Debug)]
pub struct KernelLayout {
    pub stext: u64,
    pub etext: u64,
    pub srodata: u64,
    pub erodata: u64,
    pub sdata: u64,
    pub edata: u64,
    pub sbss_with_stack: u64,
    pub ebss: u64,
    pub ekernel: u64,
    pub strampoline: u64,
}

/// The span of memory-mapped window `i`.
pub open spec fn mmio_span(i: int) -> Span {
    Span::of_addresses(MMIO@[i].0, (MMIO@[i].0 + MMIO@[i].1) as u64, false, MAP_R | MAP_W)
}

impl KernelLayout {
    /// The regions of the kernel address space: text, read-only data,
    /// data, bss with the boot stack, the rest of physical memory, and the
    /// memory-mapped windows.
    pub open spec fn spans(&self) -> Seq<Span> {
        seq![
            Span::of_addresses(self.stext, self.etext, false, MAP_R | MAP_X),
            Span::of_addresses(self.srodata, self.erodata, false, MAP_R),
            Span::of_addresses(self.sdata, self.edata, false, MAP_R | MAP_W),
            Span::of_addresses(self.sbss_with_stack, self.ebss, false, MAP_R | MAP_W),
            Span::of_addresses(self.ekernel, MEMORY_END, false, MAP_R | MAP_W),
        ] + Seq::new(MMIO@.len(), |i: int| mmio_span(i))
    }

    /// The addresses are virtual addresses, and each section ends no
    /// earlier than it starts.
    pub open spec fn wf(&self) -> bool {
        &&& self.stext <= self.etext < VA_LIMIT
        &&& self.srodata <= self.erodata < VA_LIMIT
        &&& self.sdata <= self.edata < VA_LIMIT
        &&& self.sbss_with_stack <= self.ebss < VA_LIMIT
        &&& self.ekernel <= MEMORY_END
        &&& self.strampoline < crate::config::PA_LIMIT
    }
}

/// Two steps of an owner whose frames only grow make one step.
pub proof fn lemma_stepped_chain(
    m0: &PhysMemory,
    m1: &PhysMemory,
    m2: &PhysMemory,
    f0: Set<u64>,
    f1: Set<u64>,
    f2: Set<u64>,
)
    requires
        m1.stepped(m0, f0, f1),
        m2.stepped(m1, f1, f2),
        f0.subset_of(f1),
        f1.subset_of(f2),
    ensures
        m2.stepped(m0, f0, f2),
{
    assert forall|p: u64| !(f0 + f2).contains(p) implies (#[trigger] m2.is_allocated(p)
        == m0.is_allocated(p)) by {
        assert(!(f1 + f2).contains(p));
        assert(!(f0 + f1).contains(p));
        assert(m2.is_allocated(p) == m1.is_allocated(p));
    }
    assert forall|p: u64| m0.managed(p) && !(f0 + f2).contains(p) implies #[trigger] m2.words(p)
        == m0.words(p) by {
        assert(!(f1 + f2).contains(p));
        assert(!(f0 + f1).contains(p));
        assert(m2.words(p) == m1.words(p));
    }
    assert forall|p: u64| f2.contains(p) && !f0.contains(p) implies !m0.is_allocated(p) by {
        if f1.contains(p) {
        } else {
            assert(!m1.is_allocated(p));
            assert(!(f0 + f1).contains(p));
            assert(m1.is_allocated(p) == m0.is_allocated(p));
        }
    }
}

/// First address of the user heap of a program with the headers `headers`:
/// one page behind the last page of its segments.
pub open spec fn heap_bottom(headers: Seq<ProgramHeader>) -> int {
    max_end_vpn(headers) * 4096 + 4096
}

/// The regions of the address space of a program with the headers
/// `headers`: the loadable segments, the user heap, the trap context and
/// the user stack.
pub open spec fn elf_spans(headers: Seq<ProgramHeader>) -> Seq<Span> {
    load_spans(headers).push(
        Span {
            start: max_end_vpn(headers) + 1,
            end: page_ceil(heap_bottom(headers) + USER_HEAP_SIZE),
            framed: true,
            perm: MapPermission { bits: MAP_R | MAP_W | MAP_U },
            shared: false,
        },
    ).push(
        Span {
            start: TRAMPOLINE_VPN - 1,
            end: TRAMPOLINE_VPN as int,
            framed: true,
            perm: MapPermission { bits: MAP_R | MAP_W },
            shared: false,
        },
    ).push(
        Span {
            start: TRAMPOLINE_VPN - 2 - page_ceil(USER_STACK_SIZE as int),
            end: TRAMPOLINE_VPN - 2,
            framed: true,
            perm: MapPermission { bits: MAP_R | MAP_W | MAP_U },
            shared: false,
        },
    )
}

/// The regions of the loadable segments among the first `i` headers hold
/// the bytes of their segments in `image`, then zeros.
pub open spec fn segments_loaded(
    ms: &MemorySet,
    mem: &PhysMemory,
    headers: Seq<ProgramHeader>,
    image: Seq<u8>,
    i: int,
) -> bool {
    forall|j: int|
        0 <= j < i && (#[trigger] headers[j]).is_load ==> load_index(headers, j)
            < ms.regions().len() && area_loaded(
            &ms.regions()[load_index(headers, j)],
            &ms.table(),
            mem,
            headers[j].data(image),
        )
}

/// The regions of the segments stay loaded when a region is added behind
/// them that leaves them as they are.
pub proof fn lemma_segments_kept(
    before: &MemorySet,
    before_mem: &PhysMemory,
    ms: &MemorySet,
    mem: &PhysMemory,
    headers: Seq<ProgramHeader>,
    image: Seq<u8>,
    i: int,
)
    requires
        0 <= i <= headers.len(),
        segments_loaded(before, before_mem, headers, image, i),
        ms.regions().len() == before.regions().len() + 1,
        ms.regions().drop_last() == before.regions(),
        forall|k: int, d: Seq<u8>|
            0 <= k < before.regions().len() && #[trigger] area_loaded(
                &before.regions()[k],
                &before.table(),
                before_mem,
                d,
            ) ==> area_loaded(&before.regions()[k], &ms.table(), mem, d),
        i < headers.len() && headers[i].is_load ==> load_index(headers, i)
            == before.regions().len() && area_loaded(
            &ms.regions().last(),
            &ms.table(),
            mem,
            headers[i].data(image),
        ),
    ensures
        segments_loaded(ms, mem, headers, image, i),
        i < headers.len() ==> segments_loaded(ms, mem, headers, image, i + 1),
{
    assert forall|j: int| 0 <= j < i && (#[trigger] headers[j]).is_load implies load_index(
        headers,
        j,
    ) < ms.regions().len() && area_loaded(
        &ms.regions()[load_index(headers, j)],
        &ms.table(),
        mem,
        headers[j].data(image),
    ) by {
        let k = load_index(headers, j);
        assert(ms.regions()[k] == ms.regions().drop_last()[k]);
        assert(area_loaded(&before.regions()[k], &before.table(), before_mem, headers[j].data(image)));
    }
    if i < headers.len() {
        assert forall|j: int| 0 <= j < i + 1 && (#[trigger] headers[j]).is_load implies load_index(
            headers,
            j,
        ) < ms.regions().len() && area_loaded(
            &ms.regions()[load_index(headers, j)],
            &ms.table(),
            mem,
            headers[j].data(image),
        ) by {
            if j == i {
                assert(ms.regions()[load_index(headers, i)] == ms.regions().last());
            }
        }
    }
}

/// Page `v` of `area` is mapped as `map_one` leaves it, and in a framed
/// region it has a frame.
pub open spec fn page_placed(area: &MapArea, page_table: &PageTable, mem: &PhysMemory, v: u64) -> bool {
    &&& page_table.view(mem).contains_key(v)
    &&& page_table.view(mem)[v] == area.fresh_entry(v)
    &&& area.is_framed() ==> area.frames().contains_key(v)
}

/// Page `v` of `area` is a copy of the page that `src_view` maps at `v`:
/// it is mapped as `map_one` leaves it, and in a framed region its frame
/// holds what the source frame held in `src_mem`, provided that frame was
/// allocated there.
pub open spec fn page_copied(
    area: &MapArea,
    page_table: &PageTable,
    mem: &PhysMemory,
    src_view: Map<u64, PageTableEntry>,
    src_mem: &PhysMemory,
    v: u64,
) -> bool {
    &&& page_placed(area, page_table, mem, v)
    &&& area.is_framed() && src_mem.is_allocated(src_view[v].spec_ppn().0) ==> mem.words(
        area.frames()[v],
    ) == src_mem.words(src_view[v].spec_ppn().0)
}

/// Every page of `area` is a copy of the page that `src_view` maps there.
pub open spec fn area_copied(
    area: &MapArea,
    page_table: &PageTable,
    mem: &PhysMemory,
    src_view: Map<u64, PageTableEntry>,
    src_mem: &PhysMemory,
) -> bool {
    forall|v: u64|
        area.contains(v) ==> #[trigger] page_copied(area, page_table, mem, src_view, src_mem, v)
}

/// The span of `area`, which shares its frames or not.
pub open spec fn span_of(area: &MapArea, shared: bool) -> Span {
    Span {
        start: area.start() as int,
        end: area.end() as int,
        framed: area.is_framed(),
        perm: area.perm(),
        shared,
    }
}

/// The spans of the regions `areas`, none of them shared.
pub open spec fn region_spans(areas: Seq<MapArea>) -> Seq<Span> {
    Seq::new(areas.len(), |i: int| span_of(&areas[i], false))
}

/// A region that is a copy stays so through a step that left its pages
/// mapped as they were and its frames unchanged.
pub proof fn lemma_copied_kept(
    a: &MapArea,
    pt: &PageTable,
    mem: &PhysMemory,
    pt2: &PageTable,
    mem2: &PhysMemory,
    src_view: Map<u64, PageTableEntry>,
    src_mem: &PhysMemory,
)
    requires
        a.wf(),
        area_copied(a, pt, mem, src_view, src_mem),
        forall|v: u64|
            a.contains(v) ==> #[trigger] pt2.view(mem2).contains_key(v) && pt2.view(mem2)[v]
                == pt.view(mem)[v],
        forall|p: u64| #[trigger] a.owned().contains(p) ==> mem2.words(p) == mem.words(p),
    ensures
        area_copied(a, pt2, mem2, src_view, src_mem),
{
    a.lemma_wf();
    assert forall|v: u64| a.contains(v) implies #[trigger] page_copied(
        a,
        pt2,
        mem2,
        src_view,
        src_mem,
        v,
    ) by {
        assert(page_copied(a, pt, mem, src_view, src_mem, v));
        assert(pt2.view(mem2).contains_key(v));
        if a.is_framed() {
            assert(a.frames().contains_key(v));
            assert(a.owned().contains(a.frames()[v]));
        }
    }
}

/// The leaf entry that a shared page has in both address spaces after a
/// copy-on-write fork, where it had the entry `e` before: the same frame,
/// not writable, and marked copy-on-write.
pub open spec fn shared_entry(e: PageTableEntry) -> PageTableEntry {
    PageTableEntry::spec_new(e.spec_ppn(), e.spec_flags().without(PTE_W).with(PTE_V).with(PTE_COW))
}

/// A shared entry points to the same frame, is valid and copy-on-write,
/// and is not writable.
pub proof fn lemma_shared_entry(e: PageTableEntry)
    ensures
        shared_entry(e).spec_ppn() == e.spec_ppn(),
        shared_entry(e).spec_flags() == e.spec_flags().without(PTE_W).with(PTE_V).with(PTE_COW),
        shared_entry(e).spec_is_valid(),
        shared_entry(e).spec_flags().has(PTE_COW),
        !shared_entry(e).spec_flags().has(PTE_W),
        shared_entry(e).spec_flags().wf(),
{
    let b = e.spec_flags().bits;
    let f = e.spec_flags().without(PTE_W).with(PTE_V).with(PTE_COW);
    crate::pte::lemma_flag_bits(b);
    PageTableEntry::lemma_new_fields(e.spec_ppn(), f);
}

/// Page `v` is shared after a fork: it was mapped in the parent, and the
/// parent and the child now both map it with the shared entry.
pub open spec fn page_shared(
    before: Map<u64, PageTableEntry>,
    parent: Map<u64, PageTableEntry>,
    child: Map<u64, PageTableEntry>,
    v: u64,
) -> bool {
    &&& before.contains_key(v)
    &&& parent.contains_key(v)
    &&& child.contains_key(v)
    &&& parent[v] == shared_entry(before[v])
    &&& child[v] == shared_entry(before[v])
}

/// Whether a copy-on-write fork with the heap top in page `top` shares
/// `area`: it does if the region starts below that page.
pub open spec fn is_low(area: &MapArea, top: u64) -> bool {
    area.start() < top
}

/// The indexes of the regions of `areas` that a fork with the heap top in
/// page `top` shares (`low`) or copies (not `low`), in rising order.
pub open spec fn picked(areas: Seq<MapArea>, top: u64, low: bool) -> Seq<int>
    decreases areas.len(),
{
    if areas.len() == 0 {
        Seq::empty()
    } else if is_low(&areas.last(), top) == low {
        picked(areas.drop_last(), top, low).push(areas.len() - 1)
    } else {
        picked(areas.drop_last(), top, low)
    }
}

/// For each region of the child of a copy-on-write fork, the index of the
/// parent's region that it comes from: the copied regions first, then the
/// shared ones.
pub open spec fn cow_order(areas: Seq<MapArea>, top: u64) -> Seq<int> {
    picked(areas, top, false) + picked(areas, top, true)
}

/// The spans of the regions of the child of a copy-on-write fork.
pub open spec fn cow_spans(areas: Seq<MapArea>, top: u64) -> Seq<Span> {
    Seq::new(
        cow_order(areas, top).len(),
        |i: int| span_of(&areas[cow_order(areas, top)[i]], is_low(&areas[cow_order(areas, top)[i]], top)),
    )
}

/// The picked indexes are indexes of regions of the kind asked for, and
/// they rise.
pub proof fn lemma_picked(areas: Seq<MapArea>, top: u64, low: bool)
    ensures
        picked(areas, top, low).len() <= areas.len(),
        forall|i: int|
            0 <= i < picked(areas, top, low).len() ==> 0 <= #[trigger] picked(areas, top, low)[i]
                < areas.len() && is_low(&areas[picked(areas, top, low)[i]], top) == low,
        forall|i: int, j: int|
            0 <= i < j < picked(areas, top, low).len() ==> #[trigger] picked(areas, top, low)[i]
                < #[trigger] picked(areas, top, low)[j],
    decreases areas.len(),
{
    if areas.len() > 0 {
        lemma_picked(areas.drop_last(), top, low);
        let rest = picked(areas.drop_last(), top, low);
        assert forall|i: int| 0 <= i < rest.len() implies areas.drop_last()[rest[i]]
            == areas[rest[i]] by {}
    }
}

/// What one more region adds to the picked indexes, and that the picked
/// indexes of the first regions are the first picked indexes of all.
pub proof fn lemma_picked_step(areas: Seq<MapArea>, top: u64, low: bool, j: int)
    requires
        0 <= j < areas.len(),
    ensures
        picked(areas.take(j + 1), top, low) == if is_low(&areas[j], top) == low {
            picked(areas.take(j), top, low).push(j)
        } else {
            picked(areas.take(j), top, low)
        },
        picked(areas.take(j + 1), top, low).len() <= picked(areas, top, low).len(),
        is_low(&areas[j], top) == low ==> picked(areas, top, low)[picked(
            areas.take(j),
            top,
            low,
        ).len() as int] == j,
{
    assert(areas.take(j + 1).drop_last() =~= areas.take(j));
    assert(areas.take(j + 1).last() == areas[j]);
    lemma_picked_prefix(areas, top, low, j + 1);
}

/// The picked indexes of the first `j` regions are the first picked
/// indexes of all the regions.
pub proof fn lemma_picked_prefix(areas: Seq<MapArea>, top: u64, low: bool, j: int)
    requires
        0 <= j <= areas.len(),
    ensures
        picked(areas.take(j), top, low).len() <= picked(areas, top, low).len(),
        forall|i: int|
            0 <= i < picked(areas.take(j), top, low).len() ==> picked(areas, top, low)[i]
                == picked(areas.take(j), top, low)[i],
    decreases areas.len() - j,
{
    if j == areas.len() {
        assert(areas.take(j) =~= areas);
    } else {
        lemma_picked_prefix(areas, top, low, j + 1);
        assert(areas.take(j + 1).drop_last() =~= areas.take(j));
        assert(areas.take(j + 1).last() == areas[j]);
    }
}

/// The spans of the child of a fork share no page, where the regions of
/// the parent share none and none holds the trampoline page.
#[verifier::rlimit(30)]
pub proof fn lemma_cow_spans_apart(areas: Seq<MapArea>, top: u64)
    requires
        forall|i: int, j: int|
            0 <= i < areas.len() && 0 <= j < areas.len() && i != j ==> areas_apart(
                &#[trigger] areas[i],
                &#[trigger] areas[j],
            ),
        forall|i: int| 0 <= i < areas.len() ==> !(#[trigger] areas[i]).contains(TRAMPOLINE_VPN),
    ensures
        spans_apart(cow_spans(areas, top)),
        cow_order(areas, top).len() <= 2 * areas.len(),
        forall|i: int|
            0 <= i < cow_order(areas, top).len() ==> 0 <= #[trigger] cow_order(areas, top)[i]
                < areas.len(),
{
    lemma_picked(areas, top, false);
    lemma_picked(areas, top, true);
    let order = cow_order(areas, top);
    let spans = cow_spans(areas, top);
    let h = picked(areas, top, false).len() as int;
    assert forall|i: int| 0 <= i < order.len() implies 0 <= #[trigger] order[i] < areas.len() && (
    is_low(&areas[order[i]], top) == (i >= h)) by {
        if i < h {
            assert(order[i] == picked(areas, top, false)[i]);
        } else {
            assert(order[i] == picked(areas, top, true)[i - h]);
        }
    }
    assert forall|i: int, j: int, v: u64|
        0 <= i < spans.len() && 0 <= j < spans.len() && i != j implies !(
    #[trigger] spans[i].contains(v) && #[trigger] spans[j].contains(v)) by {
        assert(0 <= order[i] < areas.len() && 0 <= order[j] < areas.len());
        assert(order[i] != order[j]) by {
            if i < h && j < h {
                assert(order[i] == picked(areas, top, false)[i]);
                assert(order[j] == picked(areas, top, false)[j]);
            } else if i >= h && j >= h {
                assert(order[i] == picked(areas, top, true)[i - h]);
                assert(order[j] == picked(areas, top, true)[j - h]);
            }
        }
        assert(areas_apart(&areas[order[i]], &areas[order[j]]));
        assert(!(areas[order[i]].contains(v) && areas[order[j]].contains(v)));
    }
    assert forall|i: int| 0 <= i < spans.len() implies !#[trigger] spans[i].contains(
        TRAMPOLINE_VPN,
    ) by {
        assert(0 <= order[i] < areas.len());
        assert(!areas[order[i]].contains(TRAMPOLINE_VPN));
    }
}

/// The page that holds the heap top `user_heap_top`, an address.
pub open spec fn heap_top_vpn(user_heap_top: u64) -> u64 {
    page_floor((user_heap_top % VA_LIMIT) as int) as u64
}

/// Index of the first region of `areas` that holds page `vpn`, or the
/// number of regions if none does.
pub open spec fn region_of(areas: Seq<MapArea>, vpn: u64) -> int
    decreases areas.len(),
{
    if areas.len() == 0 {
        0
    } else if areas[0].contains(vpn) {
        0
    } else {
        1 + region_of(areas.skip(1), vpn)
    }
}

/// Where the first `i` regions do not hold `vpn`, the first that does is
/// found from region `i` on.
pub proof fn lemma_region_of(areas: Seq<MapArea>, vpn: u64, i: int)
    requires
        0 <= i <= areas.len(),
        forall|j: int| 0 <= j < i ==> !(#[trigger] areas[j]).contains(vpn),
    ensures
        region_of(areas, vpn) == i + region_of(areas.skip(i), vpn),
    decreases i,
{
    if i == 0 {
        assert(areas.skip(0) =~= areas);
    } else {
        assert(!areas[0].contains(vpn));
        let rest = areas.skip(1);
        assert forall|j: int| 0 <= j < i - 1 implies !(#[trigger] rest[j]).contains(vpn) by {
            assert(rest[j] == areas[j + 1]);
        }
        lemma_region_of(rest, vpn, i - 1);
        assert(rest.skip(i - 1) =~= areas.skip(i));
    }
}

/// The frames of the regions when region `k` is replaced by one that owns
/// what it owned and the frame `f`.
pub proof fn lemma_areas_owned_update(areas: Seq<MapArea>, k: int, a: MapArea, f: u64)
    requires
        0 <= k < areas.len(),
        a.owned() == areas[k].owned().insert(f),
    ensures
        areas_owned(areas.update(k, a)) == areas_owned(areas).insert(f),
{
    let next = areas.update(k, a);
    assert forall|p: u64| areas_owned(next).contains(p) == areas_owned(areas).insert(f).contains(
        p,
    ) by {
        if areas_owned(next).contains(p) {
            let i = choose|i: int| 0 <= i < next.len() && #[trigger] next[i].owned().contains(p);
            if i == k {
                if p != f {
                    assert(areas[k].owned().contains(p));
                }
            } else {
                assert(areas[i].owned().contains(p));
            }
        }
        if areas_owned(areas).insert(f).contains(p) {
            if p == f {
                assert(next[k].owned().contains(p));
            } else {
                let i = choose|i: int| 0 <= i < areas.len() && #[trigger] areas[i].owned().contains(p);
                if i == k {
                    assert(next[k].owned().contains(p));
                } else {
                    assert(next[i].owned().contains(p));
                }
            }
        }
    }
    assert(areas_owned(next) =~= areas_owned(areas).insert(f));
}

/// An address space. It owns the frames of its page table and the frames of
/// its regions; the trampoline page is mapped in it without a region.
pub struct MemorySet {
    page_table: PageTable,
    areas: Vec<MapArea>,
}

impl MemorySet {
    /// The page table.
    pub closed spec fn table(&self) -> PageTable {
        self.page_table
    }

    /// The regions, in the order in which they were added.
    pub closed spec fn regions(&self) -> Seq<MapArea> {
        self.areas@
    }

    /// The mappings: each mapped page with its leaf entry.
    pub open spec fn view(&self, mem: &PhysMemory) -> Map<u64, PageTableEntry> {
        self.table().view(mem)
    }

    /// Every frame that the address space owns.
    pub open spec fn footprint(&self) -> Set<u64> {
        self.table().frame_set() + areas_owned(self.regions())
    }

    /// Number of frames that the address space owns.
    pub open spec fn frame_total(&self) -> nat {
        self.table().frame_total() + areas_total(self.regions())
    }

    /// The address space is consistent in `mem`: the page table is well
    /// formed, every region fits it, every page of every region is mapped,
    /// and no two regions share a page or a frame.
    pub open spec fn wf(&self, mem: &PhysMemory) -> bool {
        &&& self.table().wf(mem)
        &&& forall|i: int|
            0 <= i < self.regions().len() ==> (#[trigger] self.regions()[i]).inv(
                &self.table(),
                mem,
            )
        &&& forall|i: int|
            0 <= i < self.regions().len() ==> area_mapped(
                &#[trigger] self.regions()[i],
                &self.table(),
                mem,
            )
        &&& forall|i: int, j: int|
            0 <= i < self.regions().len() && 0 <= j < self.regions().len() && i != j
                ==> areas_apart(&#[trigger] self.regions()[i], &#[trigger] self.regions()[j])
    }

    /// The trampoline page is mapped to frame `ppn`, readable and
    /// executable in supervisor mode only.
    pub open spec fn has_trampoline(&self, mem: &PhysMemory, ppn: PhysPageNum) -> bool {
        &&& self.view(mem).contains_key(TRAMPOLINE_VPN)
        &&& self.view(mem)[TRAMPOLINE_VPN] == PageTableEntry::spec_new(
            ppn,
            PTEFlags { bits: PTE_R | PTE_X | PTE_V },
        )
    }

    /// The frames of a well-formed address space are allocated.
    pub proof fn lemma_footprint_allocated(&self, mem: &PhysMemory)
        requires
            self.wf(mem),
        ensures
            mem.wf(),
            forall|p: u64| self.footprint().contains(p) ==> mem.is_allocated(p),
    {
        self.table().lemma_frames_allocated(mem);
        assert forall|p: u64| self.footprint().contains(p) implies mem.is_allocated(p) by {
            if areas_owned(self.regions()).contains(p) {
                let i = choose|i: int|
                    0 <= i < self.regions().len() && #[trigger] self.regions()[i].owned().contains(
                        p,
                    );
                assert(self.regions()[i].inv(&self.table(), mem));
            }
        }
    }

    /// A well-formed address space stays so, with the same mappings,
    /// through a step of the memory that touched none of its frames.
    pub proof fn lemma_untouched(&self, mem: &PhysMemory, mem2: &PhysMemory, touched: Set<u64>)
        requires
            self.wf(mem),
            mem2.wf(),
            mem2.same_outside(mem, touched),
            forall|p: u64| self.footprint().contains(p) ==> !touched.contains(p),
        ensures
            self.wf(mem2),
            self.view(mem2) == self.view(mem),
            self.table().tables(mem2) == self.table().tables(mem),
    {
        self.table().lemma_untouched(mem, mem2, touched);
        assert forall|i: int| 0 <= i < self.regions().len() implies (
        #[trigger] self.regions()[i]).inv(&self.table(), mem2) && area_mapped(
            &self.regions()[i],
            &self.table(),
            mem2,
        ) by {
            let a = self.regions()[i];
            assert(a.inv(&self.table(), mem));
            assert(area_mapped(&a, &self.table(), mem));
            assert forall|p: u64| #[trigger] a.owned().contains(p) implies mem2.is_allocated(p) by {
                assert(areas_owned(self.regions()).contains(p));
                assert(self.footprint().contains(p));
            }
            assert forall|v: u64| a.contains(v) implies #[trigger] page_mapped(
                &a,
                &self.table(),
                mem2,
                v,
            ) by {
                assert(page_mapped(&a, &self.table(), mem, v));
            }
        }
    }

    /// An empty address space: a fresh page table and no region.
    pub fn new_bare(mem: &mut PhysMemory) -> (r: Self)
        requires
            old(mem).wf(),
            old(mem).free_count() >= 1,
        ensures
            r.wf(final(mem)),
            r.view(final(mem)) == Map::<u64, PageTableEntry>::empty(),
            r.regions() == Seq::<MapArea>::empty(),
            r.table().tables(final(mem)) == TableSet::empty(),
            final(mem).stepped(old(mem), Set::<u64>::empty(), r.footprint()),
            final(mem).free_count() + r.frame_total() == old(mem).free_count(),
            r.frame_total() == 1,
    {
        let r = MemorySet { page_table: PageTable::new(mem), areas: Vec::new() };
        proof {
            assert(areas_owned(r.regions()) =~= Set::<u64>::empty());
            assert(r.footprint() =~= r.table().frame_set());
        }
        r
    }

    /// The word for the address-translation register.
    pub fn token(&self) -> (r: u64)
        ensures
            r == 0x8000_0000_0000_0000u64 | self.table().root(),
    {
        self.page_table.token()
    }

    /// The leaf entry of `vpn`, if the page is mapped.
    pub fn translate(&self, mem: &PhysMemory, vpn: VirtPageNum) -> (r: Option<PageTableEntry>)
        requires
            self.wf(mem),
            vpn.wf(),
        ensures
            r == self.table().lookup(mem, vpn.0),
            r == if self.view(mem).contains_key(vpn.0) {
                Some(self.view(mem)[vpn.0])
            } else {
                None
            },
    {
        self.page_table.translate(mem, vpn)
    }

    /// The address space stays consistent when the leaf entry of a mapped
    /// page is rewritten with the same frame.
    proof fn lemma_leaf_rewritten(&self, mem: &PhysMemory, mem2: &PhysMemory, vpn: u64)
        requires
            self.wf(mem),
            self.table().wf(mem2),
            self.table().leaves_only(mem2, mem),
            self.view(mem).contains_key(vpn),
            self.view(mem2).contains_key(vpn),
            self.view(mem2)[vpn].spec_ppn() == self.view(mem)[vpn].spec_ppn(),
            forall|v: u64|
                v != vpn ==> #[trigger] same_at(self.table().view(mem2), self.table().view(mem), v),
        ensures
            self.wf(mem2),
    {
        assert forall|i: int| 0 <= i < self.regions().len() implies (
        #[trigger] self.regions()[i]).inv(&self.table(), mem2) && area_mapped(
            &self.regions()[i],
            &self.table(),
            mem2,
        ) by {
            let a = self.regions()[i];
            assert(a.inv(&self.table(), mem));
            assert(area_mapped(&a, &self.table(), mem));
            assert forall|v: u64| a.contains(v) implies #[trigger] self.table().view(
                mem2,
            ).contains_key(v) && self.table().view(mem2)[v].spec_ppn() == self.table().view(
                mem,
            )[v].spec_ppn() by {
                assert(page_mapped(&a, &self.table(), mem, v));
                if v != vpn {
                    assert(same_at(self.table().view(mem2), self.table().view(mem), v));
                }
            }
            lemma_area_kept(&a, &self.table(), mem, &self.table(), mem2, self.table().frame_set());
        }
    }

    /// Sets the copy-on-write bit of the leaf entry of the mapped page
    /// `vpn`.
    pub fn set_cow(&mut self, mem: &mut PhysMemory, vpn: VirtPageNum)
        requires
            old(self).wf(old(mem)),
            vpn.wf(),
            old(self).view(old(mem)).contains_key(vpn.0),
        ensures
            *final(self) == *old(self),
            final(self).wf(final(mem)),
            final(self).view(final(mem)) == old(self).view(old(mem)).insert(
                vpn.0,
                PageTableEntry::spec_new(
                    old(self).view(old(mem))[vpn.0].spec_ppn(),
                    old(self).view(old(mem))[vpn.0].spec_flags().with(PTE_COW),
                ),
            ),
            final(self).table().leaves_only(final(mem), old(mem)),
    {
        let ghost old_mem = *mem;
        self.page_table.set_cow(mem, vpn);
        proof {
            let e = self.view(&old_mem)[vpn.0];
            let b = e.spec_flags().bits;
            crate::pte::lemma_flag_bits(b);
            PageTableEntry::lemma_new_fields(e.spec_ppn(), e.spec_flags().with(PTE_COW));
            self.lemma_leaf_rewritten(&old_mem, mem, vpn.0);
        }
    }

    /// Clears the copy-on-write bit of the leaf entry of the mapped page
    /// `vpn`.
    pub fn reset_cow(&mut self, mem: &mut PhysMemory, vpn: VirtPageNum)
        requires
            old(self).wf(old(mem)),
            vpn.wf(),
            old(self).view(old(mem)).contains_key(vpn.0),
        ensures
            *final(self) == *old(self),
            final(self).wf(final(mem)),
            final(self).view(final(mem)) == old(self).view(old(mem)).insert(
                vpn.0,
                PageTableEntry::spec_new(
                    old(self).view(old(mem))[vpn.0].spec_ppn(),
                    old(self).view(old(mem))[vpn.0].spec_flags().without(PTE_COW),
                ),
            ),
            final(self).table().leaves_only(final(mem), old(mem)),
    {
        let ghost old_mem = *mem;
        self.page_table.reset_cow(mem, vpn);
        proof {
            let e = self.view(&old_mem)[vpn.0];
            let b = e.spec_flags().bits;
            crate::pte::lemma_flag_bits(b);
            PageTableEntry::lemma_new_fields(e.spec_ppn(), e.spec_flags().without(PTE_COW));
            self.lemma_leaf_rewritten(&old_mem, mem, vpn.0);
        }
    }

    /// Gives the leaf entry of the mapped page `vpn` the flags `flags` and
    /// the valid bit, and keeps its frame.
    pub fn set_flags(&mut self, mem: &mut PhysMemory, vpn: VirtPageNum, flags: PTEFlags)
        requires
            old(self).wf(old(mem)),
            vpn.wf(),
            flags.wf(),
            old(self).view(old(mem)).contains_key(vpn.0),
        ensures
            *final(self) == *old(self),
            final(self).wf(final(mem)),
            final(self).view(final(mem)) == old(self).view(old(mem)).insert(
                vpn.0,
                PageTableEntry::spec_new(
                    old(self).view(old(mem))[vpn.0].spec_ppn(),
                    flags.with(PTE_V),
                ),
            ),
            final(self).table().leaves_only(final(mem), old(mem)),
    {
        let ghost old_mem = *mem;
        self.page_table.set_flags(mem, vpn, flags);
        proof {
            let e = self.view(&old_mem)[vpn.0];
            let b = flags.bits;
            crate::pte::lemma_flag_bits(b);
            PageTableEntry::lemma_new_fields(e.spec_ppn(), flags.with(PTE_V));
            self.lemma_leaf_rewritten(&old_mem, mem, vpn.0);
        }
    }

    /// Maps the trampoline page to the frame that holds `strampoline`,
    /// readable and executable. No region stands for it.
    fn map_trampoline(&mut self, mem: &mut PhysMemory, strampoline: PhysAddr)
        requires
            old(self).wf(old(mem)),
            strampoline.wf(),
            !old(self).view(old(mem)).contains_key(TRAMPOLINE_VPN),
            old(mem).free_count() >= old(self).table().tables(old(mem)).map_cost(
                TRAMPOLINE_VPN as int,
                TRAMPOLINE_VPN + 1,
                false,
            ),
        ensures
            final(self).wf(final(mem)),
            final(self).regions() == old(self).regions(),
            final(self).view(final(mem)) == old(self).view(old(mem)).insert(
                TRAMPOLINE_VPN,
                PageTableEntry::spec_new(
                    PhysPageNum(page_floor(strampoline.0 as int) as u64),
                    PTEFlags { bits: PTE_R | PTE_X | PTE_V },
                ),
            ),
            final(self).has_trampoline(
                final(mem),
                PhysPageNum(page_floor(strampoline.0 as int) as u64),
            ),
            final(self).table().tables(final(mem)) == old(self).table().tables(old(mem)).cover(
                TRAMPOLINE_VPN as int,
                TRAMPOLINE_VPN + 1,
            ),
            final(mem).stepped(old(mem), old(self).footprint(), final(self).footprint()),
            old(self).footprint().subset_of(final(self).footprint()),
            forall|p: u64| #[trigger]
                areas_owned(old(self).regions()).contains(p) ==> final(mem).words(p) == old(
                    mem,
                ).words(p),
            final(mem).free_count() == old(mem).free_count() - old(self).table().tables(
                old(mem),
            ).map_cost(TRAMPOLINE_VPN as int, TRAMPOLINE_VPN + 1, false),
            final(mem).free_count() + final(self).frame_total() == old(mem).free_count() + old(
                self,
            ).frame_total(),
    {
        let ghost old_self = *self;
        let ghost old_mem = *mem;
        proof {
            self.table().lemma_missing_tables(mem, TRAMPOLINE_VPN);
            self.lemma_footprint_allocated(mem);
        }
        let vpn = VirtAddr::new(TRAMPOLINE).floor();
        assert(vpn.0 == TRAMPOLINE_VPN);
        proof {
            assert((PTE_R | PTE_X) < 0x200) by (bit_vector);
        }
        self.page_table.map(mem, vpn, strampoline.floor(), PTEFlags { bits: PTE_R | PTE_X });
        proof {
            self.lemma_table_grown(&old_self, &old_mem, mem, TRAMPOLINE_VPN, TRAMPOLINE_VPN);
        }
    }

    /// The regions stay consistent through a step that only added nodes to
    /// the page table and mapped pages among `[lo, hi]`, which were not
    /// mapped before.
    #[verifier::rlimit(30)]
    proof fn lemma_table_grown(
        &self,
        old_self: &MemorySet,
        old_mem: &PhysMemory,
        mem: &PhysMemory,
        lo: u64,
        hi: u64,
    )
        requires
            old_self.wf(old_mem),
            self.regions() == old_self.regions(),
            self.table().wf(mem),
            self.table().grown_from(mem, &old_self.table(), old_mem),
            forall|v: u64|
                !(lo <= v <= hi) ==> #[trigger] same_at(
                    self.table().view(mem),
                    old_self.table().view(old_mem),
                    v,
                ),
            forall|v: u64|
                lo <= v <= hi ==> !#[trigger] old_self.table().view(old_mem).contains_key(v),
        ensures
            self.wf(mem),
            mem.stepped(old_mem, old_self.footprint(), self.footprint()),
            old_self.footprint().subset_of(self.footprint()),
            forall|p: u64| #[trigger]
                areas_owned(old_self.regions()).contains(p) ==> mem.words(p) == old_mem.words(p),
    {
        old_self.lemma_footprint_allocated(old_mem);
        old_self.table().lemma_frames_allocated(old_mem);
        assert forall|p: u64| #[trigger]
            areas_owned(old_self.regions()).contains(p) implies !self.table().frame_set().contains(
            p,
        ) && mem.words(p) == old_mem.words(p) by {
            let i = choose|i: int|
                0 <= i < old_self.regions().len() && #[trigger] old_self.regions()[i].owned().contains(
                    p,
                );
            assert(old_self.regions()[i].inv(&old_self.table(), old_mem));
            assert(old_self.footprint().contains(p));
            old_mem.lemma_allocated_managed(p);
        }
        assert forall|i: int| 0 <= i < self.regions().len() implies (
        #[trigger] self.regions()[i]).inv(&self.table(), mem) && area_mapped(
            &self.regions()[i],
            &self.table(),
            mem,
        ) by {
            let a = self.regions()[i];
            assert(a.inv(&old_self.table(), old_mem));
            assert(area_mapped(&a, &old_self.table(), old_mem));
            assert forall|p: u64| #[trigger] a.owned().contains(p) implies !self.table().frame_set().contains(
                p,
            ) by {
                assert(areas_owned(old_self.regions()).contains(p));
            }
            assert forall|v: u64| a.contains(v) implies #[trigger] self.table().view(
                mem,
            ).contains_key(v) && self.table().view(mem)[v].spec_ppn() == old_self.table().view(
                old_mem,
            )[v].spec_ppn() by {
                assert(page_mapped(&a, &old_self.table(), old_mem, v));
                assert(old_self.table().view(old_mem).contains_key(v));
                assert(same_at(self.table().view(mem), old_self.table().view(old_mem), v));
            }
            lemma_area_kept(
                &a,
                &old_self.table(),
                old_mem,
                &self.table(),
                mem,
                self.table().frame_set(),
            );
        }
        assert(mem.stepped(old_mem, old_self.footprint(), self.footprint())) by {
            assert forall|p: u64| !(old_self.footprint() + self.footprint()).contains(p) implies (
            #[trigger] mem.is_allocated(p) == old_mem.is_allocated(p)) by {
                assert(!self.table().frame_set().contains(p));
            }
            assert forall|p: u64|
                old_mem.managed(p) && !(old_self.footprint() + self.footprint()).contains(
                    p,
                ) implies #[trigger] mem.words(p) == old_mem.words(p) by {
                assert(!self.table().frame_set().contains(p));
            }
        }
    }

    /// Maps `map_area`, writes `data` to its first pages if there is any,
    /// and adds it as the last region.
    #[verifier::rlimit(30)]
    fn push(&mut self, mem: &mut PhysMemory, map_area: MapArea, data: Option<&[u8]>)
        requires
            old(self).wf(old(mem)),
            map_area.wf(),
            map_area.owned() == Set::<u64>::empty(),
            map_area.frame_total() == 0,
            forall|v: u64|
                map_area.contains(v) ==> !#[trigger] old(self).view(old(mem)).contains_key(v),
            old(mem).free_count() >= old(self).table().tables(old(mem)).map_cost(
                map_area.start() as int,
                map_area.end() as int,
                map_area.is_framed(),
            ),
            data matches Some(d) ==> map_area.is_framed() && map_area.start() < map_area.end()
                && d.len() <= (map_area.end() - map_area.start()) * 4096,
        ensures
            final(self).wf(final(mem)),
            final(self).regions().len() == old(self).regions().len() + 1,
            final(self).regions().drop_last() == old(self).regions(),
            final(self).regions().last().same_shape(&map_area),
            area_loaded(
                &final(self).regions().last(),
                &final(self).table(),
                final(mem),
                match data {
                    Some(d) => d@,
                    None => Seq::<u8>::empty(),
                },
            ),
            forall|v: u64|
                !map_area.contains(v) ==> #[trigger] final(self).view(final(mem)).contains_key(v)
                    == old(self).view(old(mem)).contains_key(v) && final(self).view(final(mem))[v]
                    == old(self).view(old(mem))[v],
            final(self).table().tables(final(mem)) == old(self).table().tables(old(mem)).cover(
                map_area.start() as int,
                map_area.end() as int,
            ),
            final(self).table().root() == old(self).table().root(),
            final(mem).stepped(old(mem), old(self).footprint(), final(self).footprint()),
            old(self).footprint().subset_of(final(self).footprint()),
            forall|p: u64| #[trigger]
                areas_owned(old(self).regions()).contains(p) ==> final(mem).words(p) == old(
                    mem,
                ).words(p),
            final(mem).free_count() == old(mem).free_count() - old(self).table().tables(
                old(mem),
            ).map_cost(map_area.start() as int, map_area.end() as int, map_area.is_framed()),
            final(mem).free_count() + final(self).frame_total() == old(mem).free_count() + old(
                self,
            ).frame_total(),
    {
        let ghost old_self = *self;
        let ghost old_mem = *mem;
        let ghost given = map_area;
        let mut map_area = map_area;
        proof {
            map_area.lemma_wf();
            old_self.lemma_footprint_allocated(&old_mem);
            old_self.table().lemma_frames_allocated(&old_mem);
            assert forall|v: u64| !#[trigger] map_area.frames().contains_key(v) by {
                if map_area.frames().contains_key(v) {
                    assert(map_area.owned().contains(map_area.frames()[v]));
                }
            }
            assert forall|v: u64| map_area.contains(v) implies !#[trigger] self.page_table.view(
                mem,
            ).contains_key(v) by {
                assert(!old_self.view(&old_mem).contains_key(v));
            }
        }
        map_area.map(&mut self.page_table, mem);
        let ghost mid_mem = *mem;
        let ghost mid_area = map_area;
        proof {
            assert forall|v: u64| mid_area.contains(v) implies #[trigger] mem.bytes(
                mid_area.frames()[v],
            ) =~= overlay(
                words_to_bytes(zero_words()),
                Seq::<u8>::empty(),
                (v - mid_area.start()) * 4096,
            ) || !mid_area.is_framed() by {
                assert(mid_area.fresh_at(&self.page_table, mem, v));
            }
        }
        if let Some(d) = data {
            proof {
                assert forall|v: u64| map_area.contains(v) implies #[trigger] map_area.frames().contains_key(
                    v,
                ) by {
                    assert(map_area.fresh_at(&self.page_table, mem, v));
                }
            }
            map_area.copy_data(&mut self.page_table, mem, d);
            proof {
                assert forall|v: u64| mid_area.contains(v) implies #[trigger] mem.bytes(
                    mid_area.frames()[v],
                ) == overlay(words_to_bytes(zero_words()), d@, (v - mid_area.start()) * 4096) by {
                    assert(mid_area.fresh_at(&self.page_table, &mid_mem, v));
                }
            }
        }
        self.areas.push(map_area);
        proof {
            let area = self.regions().last();
            let pt = self.table();
            assert(self.regions().drop_last() =~= old_self.regions());
            assert(area == mid_area);
            let ghost bytes = match data {
                Some(d) => d@,
                None => Seq::<u8>::empty(),
            };
            assert forall|v: u64| area.contains(v) implies #[trigger] page_loaded(
                &area,
                &pt,
                mem,
                bytes,
                v,
            ) by {
                assert(mid_area.fresh_at(&pt, &mid_mem, v));
            }
            // frames of the new region and of the table, against the rest
            let touched = given.footprint(&old_self.table()) + area.footprint(&pt);
            assert(mem.same_outside(&old_mem, touched) && forall|p: u64| #[trigger]
                area.owned().contains(p) ==> !old_mem.is_allocated(p)) by {
                assert(mid_mem.stepped(
                    &old_mem,
                    given.footprint(&old_self.table()),
                    mid_area.footprint(&pt),
                ));
                assert forall|p: u64| #[trigger] area.owned().contains(p) implies !old_mem.is_allocated(
                    p,
                ) by {
                    assert(mid_area.footprint(&pt).contains(p));
                    assert(!given.owned().contains(p));
                    if old_self.table().frame_set().contains(p) {
                        assert(pt.frame_set().contains(p));
                        assert(false);
                    }
                }
                if data is Some {
                    assert forall|p: u64| !touched.contains(p) implies (#[trigger] mem.is_allocated(
                        p,
                    ) == old_mem.is_allocated(p)) by {
                        assert(mem.is_allocated(p) == mid_mem.is_allocated(p));
                    }
                    assert forall|p: u64| old_mem.managed(p) && !touched.contains(
                        p,
                    ) implies #[trigger] mem.words(p) == old_mem.words(p) by {
                        assert(!area.owned().contains(p));
                        assert(mem.words(p) == mid_mem.words(p));
                    }
                }
            }
            assert forall|p: u64| #[trigger]
                areas_owned(old_self.regions()).contains(p) implies !touched.contains(p)
                && !pt.frame_set().contains(p) && mem.words(p) == old_mem.words(p) by {
                let i = choose|i: int|
                    0 <= i < old_self.regions().len() && #[trigger] old_self.regions()[i].owned().contains(
                        p,
                    );
                assert(old_self.regions()[i].inv(&old_self.table(), &old_mem));
                assert(old_self.footprint().contains(p));
                old_mem.lemma_allocated_managed(p);
                if pt.frame_set().contains(p) {
                    assert(!old_self.table().frame_set().contains(p));
                    assert(area.footprint(&pt).contains(p));
                    assert(!given.footprint(&old_self.table()).contains(p));
                }
            }
            assert forall|i: int| 0 <= i < self.regions().len() implies (
            #[trigger] self.regions()[i]).inv(&pt, mem) && area_mapped(
                &self.regions()[i],
                &pt,
                mem,
            ) by {
                let a = self.regions()[i];
                if i < old_self.regions().len() {
                    assert(a == old_self.regions()[i]);
                    assert(a.inv(&old_self.table(), &old_mem));
                    assert(area_mapped(&a, &old_self.table(), &old_mem));
                    assert forall|p: u64| #[trigger] a.owned().contains(p) implies !touched.contains(
                        p,
                    ) && !pt.frame_set().contains(p) by {
                        assert(areas_owned(old_self.regions()).contains(p));
                    }
                    assert forall|v: u64| a.contains(v) implies #[trigger] pt.view(mem).contains_key(v)
                        && pt.view(mem)[v].spec_ppn() == old_self.view(&old_mem)[v].spec_ppn() by {
                        assert(page_mapped(&a, &old_self.table(), &old_mem, v));
                        assert(old_self.view(&old_mem).contains_key(v));
                        assert(!given.contains(v));
                        assert(!mid_area.contains(v));
                        assert(pt.view(&mid_mem).contains_key(v));
                        assert(pt.view(&mid_mem)[v] == old_self.view(&old_mem)[v]);
                    }
                    lemma_area_kept(&a, &old_self.table(), &old_mem, &pt, mem, touched);
                } else {
                    assert forall|v: u64| a.contains(v) implies #[trigger] page_mapped(
                        &a,
                        &pt,
                        mem,
                        v,
                    ) by {
                        assert(page_loaded(&area, &pt, mem, bytes, v));
                        a.lemma_wf();
                        let b = a.perm().flags().bits;
                        crate::pte::lemma_flag_bits(b);
                        assert(pt.view(mem).contains_key(v));
                        assert(pt.view(mem)[v] == a.fresh_entry(v));
                        if a.is_framed() {
                            assert(a.frames().contains_key(v));
                            assert(a.owned().contains(a.frames()[v]));
                            assert(a.inv(&pt, mem));
                            pt.lemma_frames_allocated(mem);
                            mem.lemma_allocated_managed(a.frames()[v]);
                        }
                        PageTableEntry::lemma_new_fields(
                            a.target(v),
                            a.perm().flags().with(PTE_V),
                        );
                    }
                }
            }
            assert forall|i: int, j: int|
                0 <= i < self.regions().len() && 0 <= j < self.regions().len() && i
                    != j implies areas_apart(
                &#[trigger] self.regions()[i],
                &#[trigger] self.regions()[j],
            ) by {
                let n = old_self.regions().len() as int;
                if i < n && j < n {
                    assert(areas_apart(&old_self.regions()[i], &old_self.regions()[j]));
                } else {
                    let k = if i < n {
                        i
                    } else {
                        j
                    };
                    let a = old_self.regions()[k];
                    assert(area_mapped(&a, &old_self.table(), &old_mem));
                    assert forall|v: u64| !(a.contains(v) && area.contains(v)) by {
                        if a.contains(v) {
                            assert(page_mapped(&a, &old_self.table(), &old_mem, v));
                            assert(old_self.view(&old_mem).contains_key(v));
                        }
                    }
                    assert forall|p: u64| !(a.owned().contains(p) && area.owned().contains(p)) by {
                        if a.owned().contains(p) {
                            assert(a.inv(&old_self.table(), &old_mem));
                        }
                    }
                }
            }
            assert(areas_owned(self.regions()) =~= areas_owned(old_self.regions())
                + area.owned()) by {
                assert forall|p: u64| areas_owned(self.regions()).contains(p) implies (
                areas_owned(old_self.regions()) + area.owned()).contains(p) by {
                    let i = choose|i: int|
                        0 <= i < self.regions().len() && #[trigger] self.regions()[i].owned().contains(
                            p,
                        );
                    if i < old_self.regions().len() {
                        assert(old_self.regions()[i].owned().contains(p));
                    }
                }
                assert forall|p: u64| (areas_owned(old_self.regions()) + area.owned()).contains(
                    p,
                ) implies areas_owned(self.regions()).contains(p) by {
                    if area.owned().contains(p) {
                        assert(self.regions()[self.regions().len() - 1].owned().contains(p));
                    } else {
                        let i = choose|i: int|
                            0 <= i < old_self.regions().len() && #[trigger] old_self.regions()[i].owned().contains(
                                p,
                            );
                        assert(self.regions()[i].owned().contains(p));
                    }
                }
            }
            assert(mem.stepped(&old_mem, old_self.footprint(), self.footprint())) by {
                assert forall|p: u64| !(old_self.footprint() + self.footprint()).contains(
                    p,
                ) implies (#[trigger] mem.is_allocated(p) == old_mem.is_allocated(p)) by {
                    assert(!touched.contains(p));
                }
                assert forall|p: u64|
                    old_mem.managed(p) && !(old_self.footprint() + self.footprint()).contains(
                        p,
                    ) implies #[trigger] mem.words(p) == old_mem.words(p) by {
                    assert(!touched.contains(p));
                }
                assert forall|p: u64|
                    self.footprint().contains(p) && !old_self.footprint().contains(
                        p,
                    ) implies !old_mem.is_allocated(p) by {
                    if area.owned().contains(p) {
                    } else {
                        assert(pt.frame_set().contains(p));
                        assert(area.footprint(&pt).contains(p));
                        assert(!given.footprint(&old_self.table()).contains(p));
                    }
                }
            }
        }
    }

    /// Adds a framed region for the addresses `[start_va, end_va)`, its
    /// pages mapped to fresh zeroed frames with `permission`.
    pub fn insert_framed_area(
        &mut self,
        mem: &mut PhysMemory,
        start_va: VirtAddr,
        end_va: VirtAddr,
        permission: MapPermission,
    )
        requires
            old(self).wf(old(mem)),
            start_va.wf(),
            end_va.wf(),
            page_floor(start_va.0 as int) <= page_ceil(end_va.0 as int),
            permission.wf(),
            forall|v: u64|
                page_floor(start_va.0 as int) <= v < page_ceil(end_va.0 as int) ==> !#[trigger] old(
                    self,
                ).view(old(mem)).contains_key(v),
            old(mem).free_count() >= old(self).table().tables(old(mem)).map_cost(
                page_floor(start_va.0 as int),
                page_ceil(end_va.0 as int),
                true,
            ),
        ensures
            final(self).wf(final(mem)),
            final(self).regions().len() == old(self).regions().len() + 1,
            final(self).regions().drop_last() == old(self).regions(),
            final(self).regions().last().start() == page_floor(start_va.0 as int),
            final(self).regions().last().end() == page_ceil(end_va.0 as int),
            final(self).regions().last().kind() == MapType::Framed,
            final(self).regions().last().perm() == permission,
            area_loaded(
                &final(self).regions().last(),
                &final(self).table(),
                final(mem),
                Seq::<u8>::empty(),
            ),
            forall|v: u64|
                !(page_floor(start_va.0 as int) <= v < page_ceil(end_va.0 as int))
                    ==> #[trigger] final(self).view(final(mem)).contains_key(v) == old(self).view(
                    old(mem),
                ).contains_key(v) && final(self).view(final(mem))[v] == old(self).view(
                    old(mem),
                )[v],
            final(self).table().tables(final(mem)) == old(self).table().tables(old(mem)).cover(
                page_floor(start_va.0 as int),
                page_ceil(end_va.0 as int),
            ),
            final(mem).stepped(old(mem), old(self).footprint(), final(self).footprint()),
            old(self).footprint().subset_of(final(self).footprint()),
            forall|p: u64| #[trigger]
                areas_owned(old(self).regions()).contains(p) ==> final(mem).words(p) == old(
                    mem,
                ).words(p),
            final(mem).free_count() + final(self).frame_total() == old(mem).free_count() + old(
                self,
            ).frame_total(),
    {
        self.push(mem, MapArea::new(start_va, end_va, MapType::Framed, permission), None);
    }

    /// Maps `map_area` and adds it as the last region. `data` is not
    /// written: a memory mapping starts as zeros.
    fn push_mmap(&mut self, mem: &mut PhysMemory, map_area: MapArea, data: Option<&[u8]>)
        requires
            old(self).wf(old(mem)),
            map_area.wf(),
            map_area.owned() == Set::<u64>::empty(),
            map_area.frame_total() == 0,
            forall|v: u64|
                map_area.contains(v) ==> !#[trigger] old(self).view(old(mem)).contains_key(v),
            old(mem).free_count() >= old(self).table().tables(old(mem)).map_cost(
                map_area.start() as int,
                map_area.end() as int,
                map_area.is_framed(),
            ),
        ensures
            final(self).wf(final(mem)),
            final(self).regions().len() == old(self).regions().len() + 1,
            final(self).regions().drop_last() == old(self).regions(),
            final(self).regions().last().same_shape(&map_area),
            area_loaded(
                &final(self).regions().last(),
                &final(self).table(),
                final(mem),
                Seq::<u8>::empty(),
            ),
            forall|v: u64|
                !map_area.contains(v) ==> #[trigger] final(self).view(final(mem)).contains_key(v)
                    == old(self).view(old(mem)).contains_key(v) && final(self).view(final(mem))[v]
                    == old(self).view(old(mem))[v],
            final(self).table().tables(final(mem)) == old(self).table().tables(old(mem)).cover(
                map_area.start() as int,
                map_area.end() as int,
            ),
            final(mem).stepped(old(mem), old(self).footprint(), final(self).footprint()),
            old(self).footprint().subset_of(final(self).footprint()),
            forall|p: u64| #[trigger]
                areas_owned(old(self).regions()).contains(p) ==> final(mem).words(p) == old(
                    mem,
                ).words(p),
            final(mem).free_count() + final(self).frame_total() == old(mem).free_count() + old(
                self,
            ).frame_total(),
    {
        self.push(mem, map_area, None);
    }

    /// Adds a framed region for a memory mapping. It is mapped as by
    /// `insert_framed_area`.
    pub fn insert_mmap_area(
        &mut self,
        mem: &mut PhysMemory,
        start_va: VirtAddr,
        end_va: VirtAddr,
        permission: MapPermission,
    )
        requires
            old(self).wf(old(mem)),
            start_va.wf(),
            end_va.wf(),
            page_floor(start_va.0 as int) <= page_ceil(end_va.0 as int),
            permission.wf(),
            forall|v: u64|
                page_floor(start_va.0 as int) <= v < page_ceil(end_va.0 as int) ==> !#[trigger] old(
                    self,
                ).view(old(mem)).contains_key(v),
            old(mem).free_count() >= old(self).table().tables(old(mem)).map_cost(
                page_floor(start_va.0 as int),
                page_ceil(end_va.0 as int),
                true,
            ),
        ensures
            final(self).wf(final(mem)),
            final(self).regions().len() == old(self).regions().len() + 1,
            final(self).regions().drop_last() == old(self).regions(),
            final(self).regions().last().start() == page_floor(start_va.0 as int),
            final(self).regions().last().end() == page_ceil(end_va.0 as int),
            final(self).regions().last().kind() == MapType::Framed,
            final(self).regions().last().perm() == permission,
            area_loaded(
                &final(self).regions().last(),
                &final(self).table(),
                final(mem),
                Seq::<u8>::empty(),
            ),
            forall|v: u64|
                !(page_floor(start_va.0 as int) <= v < page_ceil(end_va.0 as int))
                    ==> #[trigger] final(self).view(final(mem)).contains_key(v) == old(self).view(
                    old(mem),
                ).contains_key(v) && final(self).view(final(mem))[v] == old(self).view(
                    old(mem),
                )[v],
            final(self).table().tables(final(mem)) == old(self).table().tables(old(mem)).cover(
                page_floor(start_va.0 as int),
                page_ceil(end_va.0 as int),
            ),
            final(mem).stepped(old(mem), old(self).footprint(), final(self).footprint()),
            old(self).footprint().subset_of(final(self).footprint()),
            forall|p: u64| #[trigger]
                areas_owned(old(self).regions()).contains(p) ==> final(mem).words(p) == old(
                    mem,
                ).words(p),
            final(mem).free_count() + final(self).frame_total() == old(mem).free_count() + old(
                self,
            ).frame_total(),
    {
        self.push_mmap(mem, MapArea::new(start_va, end_va, MapType::Framed, permission), None);
    }

    /// Adds `map_area`, whose pages the caller has mapped, as the last
    /// region.
    fn push_mapped(&mut self, Ghost(mem): Ghost<&PhysMemory>, map_area: MapArea)
        requires
            old(self).wf(mem),
            map_area.inv(&old(self).table(), mem),
            area_mapped(&map_area, &old(self).table(), mem),
            forall|i: int|
                0 <= i < old(self).regions().len() ==> areas_apart(
                    &#[trigger] old(self).regions()[i],
                    &map_area,
                ),
        ensures
            final(self).wf(mem),
            final(self).table() == old(self).table(),
            final(self).regions() == old(self).regions().push(map_area),
            final(self).footprint() == old(self).footprint() + map_area.owned(),
            final(self).frame_total() == old(self).frame_total() + map_area.frame_total(),
    {
        let ghost old_self = *self;
        self.areas.push(map_area);
        proof {
            assert(self.regions().drop_last() =~= old_self.regions());
            assert forall|i: int, j: int|
                0 <= i < self.regions().len() && 0 <= j < self.regions().len() && i
                    != j implies areas_apart(
                &#[trigger] self.regions()[i],
                &#[trigger] self.regions()[j],
            ) by {
                let n = old_self.regions().len() as int;
                if i < n && j < n {
                    assert(areas_apart(&old_self.regions()[i], &old_self.regions()[j]));
                } else if i < n {
                    assert(areas_apart(&old_self.regions()[i], &map_area));
                } else {
                    assert(areas_apart(&old_self.regions()[j], &map_area));
                }
            }
            assert(areas_owned(self.regions()) =~= areas_owned(old_self.regions())
                + map_area.owned()) by {
                assert forall|p: u64| areas_owned(self.regions()).contains(p) implies (
                areas_owned(old_self.regions()) + map_area.owned()).contains(p) by {
                    let i = choose|i: int|
                        0 <= i < self.regions().len() && #[trigger] self.regions()[i].owned().contains(
                            p,
                        );
                    if i < old_self.regions().len() {
                        assert(old_self.regions()[i].owned().contains(p));
                    }
                }
                assert forall|p: u64| (areas_owned(old_self.regions()) + map_area.owned()).contains(
                    p,
                ) implies areas_owned(self.regions()).contains(p) by {
                    if map_area.owned().contains(p) {
                        assert(self.regions()[self.regions().len() - 1].owned().contains(p));
                    } else {
                        let i = choose|i: int|
                            0 <= i < old_self.regions().len() && #[trigger] old_self.regions()[i].owned().contains(
                                p,
                            );
                        assert(self.regions()[i].owned().contains(p));
                    }
                }
            }
            assert(self.footprint() =~= old_self.footprint() + map_area.owned());
        }
    }

    /// Removes the first region that starts at page `start_vpn`: unmaps its
    /// pages and gives back its frames. Does nothing if no region starts
    /// there.
    #[verifier::rlimit(30)]
    pub fn remove_area_with_start_vpn(&mut self, mem: &mut PhysMemory, start_vpn: VirtPageNum)
        requires
            old(self).wf(old(mem)),
        ensures
            final(self).wf(final(mem)),
            final(self).table() == old(self).table(),
            final(self).table().tables(final(mem)) == old(self).table().tables(old(mem)),
            first_with_start(old(self).regions(), start_vpn.0) == old(self).regions().len() ==> {
                &&& final(self).regions() == old(self).regions()
                &&& *final(mem) == *old(mem)
            },
            first_with_start(old(self).regions(), start_vpn.0) < old(self).regions().len() ==> {
                let k = first_with_start(old(self).regions(), start_vpn.0);
                let gone = old(self).regions()[k];
                &&& gone.start() == start_vpn.0
                &&& final(self).regions() == old(self).regions().remove(k)
                &&& forall|v: u64| #[trigger]
                    final(self).view(final(mem)).contains_key(v) == (old(self).view(
                        old(mem),
                    ).contains_key(v) && !gone.contains(v))
                &&& forall|v: u64|
                    !gone.contains(v) ==> #[trigger] final(self).view(final(mem))[v] == old(
                        self,
                    ).view(old(mem))[v]
                &&& final(self).footprint() == old(self).footprint().difference(gone.owned())
            },
            final(mem).stepped(old(mem), old(self).footprint(), final(self).footprint()),
            forall|p: u64| old(mem).managed(p) && !old(self).table().frame_set().contains(p)
                ==> #[trigger] final(mem).words(p) == old(mem).words(p),
            final(mem).free_count() + final(self).frame_total() == old(mem).free_count() + old(
                self,
            ).frame_total(),
    {
        let ghost old_self = *self;
        let ghost old_mem = *mem;
        let n = self.areas.len();
        let mut i: usize = 0;
        while i < n
            invariant_except_break
                forall|j: int| 0 <= j < i ==> (#[trigger] self.regions()[j]).start() != start_vpn.0,
            invariant
                i <= n,
                n == self.areas.len(),
                *self == old_self,
            ensures
                i <= n,
                forall|j: int| 0 <= j < i ==> (#[trigger] self.regions()[j]).start() != start_vpn.0,
                i < n ==> self.regions()[i as int].start() == start_vpn.0,
            decreases n - i,
        {
            if self.areas[i].get_start().0 == start_vpn.0 {
                break ;
            }
            i += 1;
        }
        proof {
            lemma_first_with_start(self.regions(), start_vpn.0, i as int);
            if i < n {
                assert(self.regions().skip(i as int)[0] == self.regions()[i as int]);
            } else {
                assert(self.regions().skip(i as int).len() == 0);
            }
            old_self.lemma_footprint_allocated(&old_mem);
        }
        if i < n {
            let ghost k = i as int;
            let mut area = self.areas.remove(i);
            let ghost gone = area;
            proof {
                assert(gone == old_self.regions()[k]);
                assert(gone.inv(&old_self.table(), &old_mem));
                assert(area_mapped(&gone, &old_self.table(), &old_mem));
                assert forall|v: u64| gone.contains(v) implies #[trigger] old_self.table().view(
                    &old_mem,
                ).contains_key(v) by {
                    assert(page_mapped(&gone, &old_self.table(), &old_mem, v));
                }
                lemma_areas_owned_remove(old_self.regions(), k);
                lemma_areas_total_remove(old_self.regions(), k);
            }
            area.unmap(&mut self.page_table, mem);
            let ghost mid_mem = *mem;
            let ghost mid_area = area;
            proof {
                mid_area.lemma_wf();
                assert forall|p: u64| #[trigger] mid_area.owned().contains(p) implies mid_mem.is_allocated(
                    p,
                ) by {
                    assert(mid_area.inv(&self.page_table, &mid_mem));
                }
                self.page_table.lemma_frames_allocated(&mid_mem);
            }
            area.release(mem);
            proof {
                let pt = self.table();
                let t1 = gone.footprint(&pt) + mid_area.footprint(&pt);
                pt.lemma_untouched(&mid_mem, mem, mid_area.owned());
                assert forall|j: int| 0 <= j < self.regions().len() implies (
                #[trigger] self.regions()[j]).inv(&pt, mem) && area_mapped(
                    &self.regions()[j],
                    &pt,
                    mem,
                ) by {
                    let a = self.regions()[j];
                    let jj = if j < k {
                        j
                    } else {
                        j + 1
                    };
                    assert(a == old_self.regions()[jj]);
                    assert(a.inv(&pt, &old_mem));
                    assert(area_mapped(&a, &pt, &old_mem));
                    assert(areas_apart(&old_self.regions()[jj], &old_self.regions()[k]));
                    assert forall|p: u64| #[trigger] a.owned().contains(p) implies !t1.contains(p)
                        && !pt.frame_set().contains(p) && !mid_area.owned().contains(p) by {
                        assert(gone.owned().contains(p) ==> false);
                    }
                    assert forall|v: u64| a.contains(v) implies #[trigger] pt.view(
                        &mid_mem,
                    ).contains_key(v) && pt.view(&mid_mem)[v].spec_ppn() == pt.view(
                        &old_mem,
                    )[v].spec_ppn() by {
                        assert(page_mapped(&a, &pt, &old_mem, v));
                        assert(pt.view(&old_mem).contains_key(v));
                        assert(!gone.contains(v));
                    }
                    lemma_area_kept(&a, &pt, &old_mem, &pt, &mid_mem, t1);
                    assert forall|v: u64| a.contains(v) implies #[trigger] pt.view(mem).contains_key(
                        v,
                    ) && pt.view(mem)[v].spec_ppn() == pt.view(&mid_mem)[v].spec_ppn() by {
                        assert(page_mapped(&a, &pt, &mid_mem, v));
                        assert(pt.view(&mid_mem).contains_key(v));
                    }
                    lemma_area_kept(&a, &pt, &mid_mem, &pt, mem, mid_area.owned());
                }
                assert forall|a: int, b: int|
                    0 <= a < self.regions().len() && 0 <= b < self.regions().len() && a
                        != b implies areas_apart(
                    &#[trigger] self.regions()[a],
                    &#[trigger] self.regions()[b],
                ) by {
                    let aa = if a < k {
                        a
                    } else {
                        a + 1
                    };
                    let bb = if b < k {
                        b
                    } else {
                        b + 1
                    };
                    assert(areas_apart(&old_self.regions()[aa], &old_self.regions()[bb]));
                }
                assert(self.footprint() =~= old_self.footprint().difference(gone.owned())) by {
                    assert forall|p: u64| gone.owned().contains(p) implies !pt.frame_set().contains(
                        p,
                    ) by {}
                }
                assert forall|p: u64| gone.owned().contains(p) implies !mem.is_allocated(p) by {
                    if mid_area.owned().contains(p) {
                    } else {
                        assert(gone.footprint(&pt).contains(p));
                        assert(!mid_area.footprint(&pt).contains(p));
                        assert(!mid_mem.is_allocated(p));
                        assert(mem.is_allocated(p) == mid_mem.is_allocated(p));
                    }
                }
                assert(mem.stepped(&old_mem, old_self.footprint(), self.footprint())) by {
                    assert forall|p: u64| !(old_self.footprint() + self.footprint()).contains(
                        p,
                    ) implies (#[trigger] mem.is_allocated(p) == old_mem.is_allocated(p)) by {
                        assert(areas_owned(old_self.regions()).contains(p) ==> false);
                        assert(!gone.owned().contains(p)) by {
                            if gone.owned().contains(p) {
                                assert(old_self.regions()[k].owned().contains(p));
                                assert(areas_owned(old_self.regions()).contains(p));
                            }
                        }
                        assert(!t1.contains(p));
                        assert(mem.is_allocated(p) == mid_mem.is_allocated(p));
                    }
                    assert forall|p: u64|
                        old_mem.managed(p) && !(old_self.footprint() + self.footprint()).contains(
                            p,
                        ) implies #[trigger] mem.words(p) == old_mem.words(p) by {
                        assert(!gone.owned().contains(p)) by {
                            if gone.owned().contains(p) {
                                assert(old_self.regions()[k].owned().contains(p));
                                assert(areas_owned(old_self.regions()).contains(p));
                            }
                        }
                        assert(!t1.contains(p));
                        assert(mid_mem.words(p) == old_mem.words(p));
                    }
                    assert forall|p: u64|
                        old_self.footprint().contains(p) && !self.footprint().contains(
                            p,
                        ) implies !mem.is_allocated(p) by {
                        assert(gone.owned().contains(p));
                    }
                }
                assert forall|p: u64|
                    old_mem.managed(p) && !old_self.table().frame_set().contains(
                        p,
                    ) implies #[trigger] mem.words(p) == old_mem.words(p) by {
                    assert(mem.words(p) == mid_mem.words(p));
                    if gone.owned().contains(p) {
                        assert(mid_mem.words(p) == old_mem.words(p));
                    } else {
                        assert(!t1.contains(p));
                        assert(mid_mem.words(p) == old_mem.words(p));
                    }
                }
                assert forall|v: u64|
                    !gone.contains(v) implies #[trigger] self.view(mem)[v] == old_self.view(
                    &old_mem,
                )[v] by {
                    assert(pt.view(&mid_mem)[v] == pt.view(&old_mem)[v]);
                }
                assert forall|v: u64| #[trigger]
                    self.view(mem).contains_key(v) == (old_self.view(&old_mem).contains_key(v)
                        && !gone.contains(v)) by {
                    assert(pt.view(&mid_mem).contains_key(v) == (pt.view(&old_mem).contains_key(v)
                        && !gone.contains(v)));
                }
            }
        }
    }

    /// Gives back the frames of every region and forgets the regions. The
    /// page table stays as it is, with the entries that pointed at these
    /// frames.
    #[verifier::rlimit(30)]
    pub fn recycle_data_pages(&mut self, mem: &mut PhysMemory)
        requires
            old(self).wf(old(mem)),
        ensures
            final(self).wf(final(mem)),
            final(self).table() == old(self).table(),
            final(self).regions() == Seq::<MapArea>::empty(),
            final(self).view(final(mem)) == old(self).view(old(mem)),
            final(self).table().tables(final(mem)) == old(self).table().tables(old(mem)),
            final(mem).stepped(old(mem), old(self).footprint(), final(self).footprint()),
            final(self).footprint() == old(self).table().frame_set(),
            forall|p: u64| old(mem).managed(p) ==> #[trigger] final(mem).words(p) == old(mem).words(p),
            final(mem).free_count() + final(self).frame_total() == old(mem).free_count() + old(
                self,
            ).frame_total(),
    {
        let ghost old_self = *self;
        let ghost old_mem = *mem;
        proof {
            old_self.lemma_footprint_allocated(&old_mem);
            self.page_table.lemma_frames_allocated(mem);
        }
        while self.areas.len() > 0
            invariant
                old_self.wf(&old_mem),
                old_mem.wf(),
                mem.wf(),
                self.page_table == old_self.page_table,
                self.areas@ == old_self.areas@.subrange(0, self.areas.len() as int),
                self.areas.len() <= old_self.areas.len(),
                mem.same_range(&old_mem),
                forall|p: u64| old_mem.managed(p) ==> #[trigger] mem.words(p) == old_mem.words(p),
                forall|p: u64| #[trigger]
                    mem.is_allocated(p) == (old_mem.is_allocated(p) && !(exists|j: int|
                        self.areas.len() <= j < old_self.areas.len()
                            && #[trigger] old_self.areas[j].owned().contains(p))),
                mem.free_count() + areas_total(self.areas@) == old_mem.free_count() + areas_total(
                    old_self.areas@,
                ),
            decreases self.areas.len(),
        {
            let ghost before = self.areas@;
            let ghost mid = *mem;
            let area = self.areas.pop().unwrap();
            let ghost k = self.areas.len() as int;
            proof {
                assert(area == old_self.areas[k]);
                assert(old_self.regions()[k].inv(&old_self.table(), &old_mem));
                assert(area.inv(&old_self.table(), &old_mem));
                assert(before.drop_last() =~= self.areas@);
                assert forall|p: u64| #[trigger] area.owned().contains(p) implies mid.is_allocated(
                    p,
                ) by {
                    if exists|j: int|
                        k + 1 <= j < old_self.areas.len() && #[trigger] old_self.areas[j].owned().contains(
                            p,
                        ) {
                        let j = choose|j: int|
                            k + 1 <= j < old_self.areas.len() && #[trigger] old_self.areas[j].owned().contains(
                                p,
                            );
                        assert(areas_apart(&old_self.regions()[j], &old_self.regions()[k]));
                    }
                }
            }
            area.release(mem);
            proof {
                assert(self.areas@ =~= old_self.areas@.subrange(0, k));
                assert forall|p: u64| #[trigger]
                    mem.is_allocated(p) == (old_mem.is_allocated(p) && !(exists|j: int|
                        k <= j < old_self.areas.len() && #[trigger] old_self.areas[j].owned().contains(
                            p,
                        ))) by {
                    if area.owned().contains(p) {
                        assert(old_self.areas[k].owned().contains(p));
                    } else {
                        assert(mem.is_allocated(p) == mid.is_allocated(p));
                        if exists|j: int|
                            k <= j < old_self.areas.len() && #[trigger] old_self.areas[j].owned().contains(
                                p,
                            ) {
                            let j = choose|j: int|
                                k <= j < old_self.areas.len() && #[trigger] old_self.areas[j].owned().contains(
                                    p,
                                );
                            assert(j != k);
                            assert(old_self.areas[j].owned().contains(p));
                        }
                    }
                }
                assert forall|p: u64| old_mem.managed(p) implies #[trigger] mem.words(p)
                    == old_mem.words(p) by {
                    assert(mem.words(p) == mid.words(p));
                }
            }
        }
        proof {
            assert(self.regions() =~= Seq::<MapArea>::empty());
            assert(areas_owned(self.regions()) =~= Set::<u64>::empty());
            assert(self.footprint() =~= old_self.table().frame_set());
            assert forall|p: u64| #[trigger]
                mem.is_allocated(p) == (old_mem.is_allocated(p) && !areas_owned(
                    old_self.regions(),
                ).contains(p)) by {
                if areas_owned(old_self.regions()).contains(p) {
                    let j = choose|j: int|
                        0 <= j < old_self.regions().len() && #[trigger] old_self.regions()[j].owned().contains(
                            p,
                        );
                    assert(old_self.areas[j].owned().contains(p));
                }
            }
            assert forall|p: u64| areas_owned(old_self.regions()).contains(
                p,
            ) implies !old_self.table().frame_set().contains(p) by {
                let j = choose|j: int|
                    0 <= j < old_self.regions().len() && #[trigger] old_self.regions()[j].owned().contains(
                        p,
                    );
                assert(old_self.regions()[j].inv(&old_self.table(), &old_mem));
            }
            self.page_table.lemma_untouched(&old_mem, mem, areas_owned(old_self.regions()));
        }
    }

    /// Gives every frame of the address space back to `mem`: those of the
    /// regions, then those of the page table.
    pub fn release(self, mem: &mut PhysMemory)
        requires
            self.wf(old(mem)),
        ensures
            final(mem).wf(),
            final(mem).stepped(old(mem), self.footprint(), Set::<u64>::empty()),
            forall|p: u64| old(mem).managed(p) ==> #[trigger] final(mem).words(p) == old(mem).words(p),
            final(mem).free_count() == old(mem).free_count() + self.frame_total(),
    {
        let ghost old_self = self;
        let ghost old_mem = *mem;
        let mut this = self;
        this.recycle_data_pages(mem);
        let ghost mid = *mem;
        let MemorySet { page_table, areas: _ } = this;
        page_table.release(mem);
        proof {
            assert(areas_total(Seq::<MapArea>::empty()) == 0);
            assert forall|p: u64| old_mem.managed(p) implies #[trigger] mem.words(p)
                == old_mem.words(p) by {
                assert(mem.words(p) == mid.words(p));
            }
            assert(mem.stepped(&old_mem, old_self.footprint(), Set::<u64>::empty())) by {
                assert forall|p: u64| !old_self.footprint().contains(p) implies (
                #[trigger] mem.is_allocated(p) == old_mem.is_allocated(p)) by {
                    assert(mem.is_allocated(p) == mid.is_allocated(p));
                }
                assert forall|p: u64| old_self.footprint().contains(p) implies !mem.is_allocated(
                    p,
                ) by {
                    if old_self.table().frame_set().contains(p) {
                    } else {
                        assert(!mid.is_allocated(p));
                        assert(mem.is_allocated(p) == mid.is_allocated(p));
                    }
                }
            }
        }
    }

    /// Copies of the descriptions of the regions, in order.
    pub fn clone_areas(&self) -> (r: Vec<MapArea>)
        ensures
            r.len() == self.regions().len(),
            forall|i: int|
                0 <= i < r.len() ==> {
                    &&& (#[trigger] r[i]).same_shape(&self.regions()[i])
                    &&& r[i].frames() == self.regions()[i].frames()
                    &&& r[i].retired_frames() == self.regions()[i].retired_frames()
                },
    {
        let mut r: Vec<MapArea> = Vec::new();
        let mut i: usize = 0;
        while i < self.areas.len()
            invariant
                i <= self.areas.len(),
                r.len() == i,
                forall|j: int|
                    0 <= j < i ==> {
                        &&& (#[trigger] r[j]).same_shape(&self.regions()[j])
                        &&& r[j].frames() == self.regions()[j].frames()
                        &&& r[j].retired_frames() == self.regions()[j].retired_frames()
                    },
            decreases self.areas.len() - i,
        {
            r.push(self.areas[i].duplicate());
            i += 1;
        }
        r
    }

    /// The address space holds the trampoline page and one region for each
    /// of the first `k` spans, and no other page is mapped.
    pub open spec fn built(
        &self,
        mem: &PhysMemory,
        spans: Seq<Span>,
        k: int,
        trampoline: PhysPageNum,
    ) -> bool {
        &&& self.wf(mem)
        &&& self.has_trampoline(mem, trampoline)
        &&& self.regions().len() == k
        &&& forall|i: int| 0 <= i < k ==> spans[i].describes(&#[trigger] self.regions()[i])
        &&& forall|v: u64| #[trigger]
            self.view(mem).contains_key(v) ==> v == TRAMPOLINE_VPN || spans_hold(spans, k, v)
    }

    /// Maps `area`, which is to be region `k` of an address space under
    /// construction, with `data` in its first pages.
    #[verifier::rlimit(30)]
    fn push_span(
        &mut self,
        mem: &mut PhysMemory,
        area: MapArea,
        data: Option<&[u8]>,
        Ghost(spans): Ghost<Seq<Span>>,
        Ghost(k): Ghost<int>,
        Ghost(trampoline): Ghost<PhysPageNum>,
    )
        requires
            old(self).built(old(mem), spans, k, trampoline),
            0 <= k < spans.len(),
            spans_apart(spans),
            spans[k].describes(&area),
            !spans[k].shared,
            area.wf(),
            area.owned() == Set::<u64>::empty(),
            area.frame_total() == 0,
            old(mem).free_count() >= spans_cost(old(self).table().tables(old(mem)), spans.skip(k)),
            data matches Some(d) ==> area.is_framed() && area.start() < area.end() && d.len() <= (
            area.end() - area.start()) * 4096,
        ensures
            final(self).built(final(mem), spans, k + 1, trampoline),
            final(self).regions().drop_last() == old(self).regions(),
            final(mem).free_count() >= spans_cost(
                final(self).table().tables(final(mem)),
                spans.skip(k + 1),
            ),
            area_loaded(
                &final(self).regions().last(),
                &final(self).table(),
                final(mem),
                match data {
                    Some(d) => d@,
                    None => Seq::<u8>::empty(),
                },
            ),
            forall|i: int, d: Seq<u8>|
                0 <= i < k && #[trigger] area_loaded(
                    &old(self).regions()[i],
                    &old(self).table(),
                    old(mem),
                    d,
                ) ==> area_loaded(&old(self).regions()[i], &final(self).table(), final(mem), d),
            forall|v: u64|
                !spans[k].contains(v) ==> #[trigger] final(self).view(final(mem)).contains_key(v)
                    == old(self).view(old(mem)).contains_key(v) && final(self).view(final(mem))[v]
                    == old(self).view(old(mem))[v],
            final(self).table().root() == old(self).table().root(),
            final(mem).stepped(old(mem), old(self).footprint(), final(self).footprint()),
            old(self).footprint().subset_of(final(self).footprint()),
            forall|p: u64| #[trigger]
                areas_owned(old(self).regions()).contains(p) ==> final(mem).words(p) == old(
                    mem,
                ).words(p),
            final(mem).free_count() + final(self).frame_total() == old(mem).free_count() + old(
                self,
            ).frame_total(),
    {
        let ghost old_self = *self;
        let ghost old_mem = *mem;
        proof {
            assert(spans.skip(k)[0] == spans[k]);
            assert(spans.skip(k).skip(1) =~= spans.skip(k + 1));
            assert forall|v: u64| area.contains(v) implies !#[trigger] old_self.view(
                &old_mem,
            ).contains_key(v) by {
                if old_self.view(&old_mem).contains_key(v) {
                    assert(spans[k].contains(v));
                    if v != TRAMPOLINE_VPN {
                        let i = choose|i: int| 0 <= i < k && #[trigger] spans[i].contains(v);
                        assert(spans[i].contains(v) && spans[k].contains(v));
                    }
                }
            }
        }
        self.push(mem, area, data);
        proof {
            assert forall|i: int| 0 <= i < k + 1 implies spans[i].describes(
                &#[trigger] self.regions()[i],
            ) by {
                if i < k {
                    assert(self.regions()[i] == self.regions().drop_last()[i]);
                    assert(spans[i].describes(&old_self.regions()[i]));
                } else {
                    assert(self.regions()[i] == self.regions().last());
                    assert(self.regions().last().same_shape(&area));
                }
            }
            assert(!area.contains(TRAMPOLINE_VPN));
            assert(old_self.view(&old_mem).contains_key(TRAMPOLINE_VPN));
            assert(self.view(mem).contains_key(TRAMPOLINE_VPN) == old_self.view(
                &old_mem,
            ).contains_key(TRAMPOLINE_VPN));
            assert(self.view(mem)[TRAMPOLINE_VPN] == old_self.view(&old_mem)[TRAMPOLINE_VPN]);
            assert(self.has_trampoline(mem, trampoline));
            assert forall|v: u64| #[trigger] self.view(mem).contains_key(v) implies v
                == TRAMPOLINE_VPN || spans_hold(spans, k + 1, v) by {
                if spans[k].contains(v) {
                } else {
                    assert(old_self.view(&old_mem).contains_key(v));
                    if v != TRAMPOLINE_VPN {
                        let i = choose|i: int| 0 <= i < k && #[trigger] spans[i].contains(v);
                        assert(spans[i].contains(v));
                    }
                }
            }
            assert(!spans[k].contains(TRAMPOLINE_VPN));
            assert forall|i: int, d: Seq<u8>|
                0 <= i < k && #[trigger] area_loaded(
                    &old_self.regions()[i],
                    &old_self.table(),
                    &old_mem,
                    d,
                ) implies area_loaded(&old_self.regions()[i], &self.table(), mem, d) by {
                let a = old_self.regions()[i];
                assert(a.inv(&old_self.table(), &old_mem));
                assert(spans[i].describes(&a));
                assert forall|v: u64| a.contains(v) implies #[trigger] self.table().view(
                    mem,
                ).contains_key(v) && self.table().view(mem)[v] == old_self.table().view(
                    &old_mem,
                )[v] by {
                    assert(page_loaded(&a, &old_self.table(), &old_mem, d, v));
                    assert(old_self.table().view(&old_mem).contains_key(v));
                    assert(spans[i].contains(v));
                    assert(!spans[k].contains(v));
                    assert(self.view(mem).contains_key(v) == old_self.view(&old_mem).contains_key(
                        v,
                    ));
                }
                assert forall|p: u64| #[trigger] a.owned().contains(p) implies mem.words(p)
                    == old_mem.words(p) by {
                    assert(areas_owned(old_self.regions()).contains(p));
                }
                lemma_loaded_kept(&a, &old_self.table(), &old_mem, &self.table(), mem, d);
            }
        }
    }

    /// An address space with the trampoline page mapped and no region.
    fn with_trampoline(mem: &mut PhysMemory, strampoline: PhysAddr, Ghost(spans): Ghost<Seq<Span>>) -> (r:
        Self)
        requires
            old(mem).wf(),
            strampoline.wf(),
            old(mem).free_count() >= build_cost(spans),
        ensures
            r.built(final(mem), spans, 0, PhysPageNum(page_floor(strampoline.0 as int) as u64)),
            r.regions() == Seq::<MapArea>::empty(),
            final(mem).free_count() >= spans_cost(r.table().tables(final(mem)), spans.skip(0)),
            final(mem).stepped(old(mem), Set::<u64>::empty(), r.footprint()),
            final(mem).free_count() + r.frame_total() == old(mem).free_count(),
    {
        let ghost old_mem = *mem;
        proof {
            assert(TableSet::empty().needed(
                TRAMPOLINE_VPN as int,
                TRAMPOLINE_VPN + 1,
                TRAMPOLINE_VPN + 1,
            ) == 0);
            assert(spans.skip(0) =~= spans);
        }
        let mut r = Self::new_bare(mem);
        let ghost mid_mem = *mem;
        let ghost mid = r;
        r.map_trampoline(mem, strampoline);
        proof {
            assert(mem.stepped(&old_mem, Set::<u64>::empty(), r.footprint())) by {
                assert forall|p: u64| !r.footprint().contains(p) implies (#[trigger] mem.is_allocated(
                    p,
                ) == old_mem.is_allocated(p)) by {
                    assert(!(mid.footprint() + r.footprint()).contains(p));
                    assert(mem.is_allocated(p) == mid_mem.is_allocated(p));
                }
                assert forall|p: u64| old_mem.managed(p) && !r.footprint().contains(
                    p,
                ) implies #[trigger] mem.words(p) == old_mem.words(p) by {
                    assert(!(mid.footprint() + r.footprint()).contains(p));
                    assert(mem.words(p) == mid_mem.words(p));
                }
                assert forall|p: u64| r.footprint().contains(p) implies !old_mem.is_allocated(
                    p,
                ) by {
                    if mid.footprint().contains(p) {
                    } else {
                        assert(!mid_mem.is_allocated(p));
                        assert(mid_mem.is_allocated(p) == old_mem.is_allocated(p));
                    }
                }
            }
        }
        r
    }

    /// The kernel address space: the trampoline page and the regions of
    /// `layout`, every page of them mapped to the frame of its own number.
    #[verifier::rlimit(30)]
    pub fn new_kernel(mem: &mut PhysMemory, layout: &KernelLayout) -> (r: Self)
        requires
            old(mem).wf(),
            layout.wf(),
            spans_apart(layout.spans()),
            old(mem).free_count() >= build_cost(layout.spans()),
        ensures
            r.built(
                final(mem),
                layout.spans(),
                layout.spans().len() as int,
                PhysPageNum(page_floor(layout.strampoline as int) as u64),
            ),
            forall|i: int|
                0 <= i < r.regions().len() ==> area_loaded(
                    &#[trigger] r.regions()[i],
                    &r.table(),
                    final(mem),
                    Seq::<u8>::empty(),
                ),
            final(mem).stepped(old(mem), Set::<u64>::empty(), r.footprint()),
            final(mem).free_count() + r.frame_total() == old(mem).free_count(),
    {
        let ghost spans = layout.spans();
        let ghost tramp = PhysPageNum(page_floor(layout.strampoline as int) as u64);
        let ghost old_mem = *mem;
        proof {
            crate::map_area::lemma_permission_constants();
        }
        let mut memory_set = Self::with_trampoline(
            mem,
            PhysAddr::new(layout.strampoline),
            Ghost(spans),
        );
        memory_set.push_kernel_area(
            mem,
            layout.stext,
            layout.etext,
            MAP_R | MAP_X,
            Ghost(spans),
            Ghost(0),
            Ghost(tramp),
            Ghost(old_mem),
        );
        memory_set.push_kernel_area(
            mem,
            layout.srodata,
            layout.erodata,
            MAP_R,
            Ghost(spans),
            Ghost(1),
            Ghost(tramp),
            Ghost(old_mem),
        );
        memory_set.push_kernel_area(
            mem,
            layout.sdata,
            layout.edata,
            MAP_R | MAP_W,
            Ghost(spans),
            Ghost(2),
            Ghost(tramp),
            Ghost(old_mem),
        );
        memory_set.push_kernel_area(
            mem,
            layout.sbss_with_stack,
            layout.ebss,
            MAP_R | MAP_W,
            Ghost(spans),
            Ghost(3),
            Ghost(tramp),
            Ghost(old_mem),
        );
        memory_set.push_kernel_area(
            mem,
            layout.ekernel,
            MEMORY_END,
            MAP_R | MAP_W,
            Ghost(spans),
            Ghost(4),
            Ghost(tramp),
            Ghost(old_mem),
        );
        let mut i: usize = 0;
        while i < MMIO.len()
            invariant
                i <= MMIO@.len(),
                spans == layout.spans(),
                spans.len() == 5 + MMIO@.len(),
                spans_apart(spans),
                (MAP_R | MAP_W) & 0xe1 == 0,
                memory_set.built(mem, spans, 5 + i, tramp),
                mem.free_count() >= spans_cost(memory_set.table().tables(mem), spans.skip(5 + i)),
                forall|j: int|
                    0 <= j < memory_set.regions().len() ==> area_loaded(
                        &#[trigger] memory_set.regions()[j],
                        &memory_set.table(),
                        mem,
                        Seq::<u8>::empty(),
                    ),
                mem.stepped(&old_mem, Set::<u64>::empty(), memory_set.footprint()),
                mem.free_count() + memory_set.frame_total() == old_mem.free_count(),
            decreases MMIO@.len() - i,
        {
            let pair = MMIO[i];
            proof {
                assert(spans[5 + i] == mmio_span(i as int));
                assert(spans.skip(5 + i)[0] == spans[5 + i]);
                assert(spans[5 + i].wf());
            }
            memory_set.push_kernel_area(
                mem,
                pair.0,
                pair.0 + pair.1,
                MAP_R | MAP_W,
                Ghost(spans),
                Ghost(5 + i),
                Ghost(tramp),
                Ghost(old_mem),
            );
            i += 1;
        }
        memory_set
    }

    /// Adds the identical region for the addresses `[start, end)` as region
    /// `k` of the kernel address space under construction.
    #[verifier::rlimit(30)]
    fn push_kernel_area(
        &mut self,
        mem: &mut PhysMemory,
        start: u64,
        end: u64,
        perm: u8,
        Ghost(spans): Ghost<Seq<Span>>,
        Ghost(k): Ghost<int>,
        Ghost(trampoline): Ghost<PhysPageNum>,
        Ghost(first_mem): Ghost<PhysMemory>,
    )
        requires
            old(self).built(old(mem), spans, k, trampoline),
            0 <= k < spans.len(),
            spans_apart(spans),
            spans[k] == Span::of_addresses(start, end, false, perm),
            start <= end < VA_LIMIT,
            perm & 0xe1 == 0,
            old(mem).free_count() >= spans_cost(old(self).table().tables(old(mem)), spans.skip(k)),
            forall|j: int|
                0 <= j < old(self).regions().len() ==> area_loaded(
                    &#[trigger] old(self).regions()[j],
                    &old(self).table(),
                    old(mem),
                    Seq::<u8>::empty(),
                ),
            old(mem).stepped(&first_mem, Set::<u64>::empty(), old(self).footprint()),
            old(mem).free_count() + old(self).frame_total() == first_mem.free_count(),
        ensures
            final(self).built(final(mem), spans, k + 1, trampoline),
            final(mem).free_count() >= spans_cost(
                final(self).table().tables(final(mem)),
                spans.skip(k + 1),
            ),
            forall|j: int|
                0 <= j < final(self).regions().len() ==> area_loaded(
                    &#[trigger] final(self).regions()[j],
                    &final(self).table(),
                    final(mem),
                    Seq::<u8>::empty(),
                ),
            final(mem).stepped(&first_mem, Set::<u64>::empty(), final(self).footprint()),
            final(mem).free_count() + final(self).frame_total() == first_mem.free_count(),
    {
        let ghost old_self = *self;
        let ghost old_mem = *mem;
        let area = MapArea::new(
            VirtAddr::new(start),
            VirtAddr::new(end),
            MapType::Identical,
            MapPermission { bits: perm },
        );
        self.push_span(mem, area, None, Ghost(spans), Ghost(k), Ghost(trampoline));
        proof {
            assert forall|j: int| 0 <= j < self.regions().len() implies area_loaded(
                &#[trigger] self.regions()[j],
                &self.table(),
                mem,
                Seq::<u8>::empty(),
            ) by {
                if j < k {
                    assert(self.regions()[j] == self.regions().drop_last()[j]);
                    assert(area_loaded(
                        &old_self.regions()[j],
                        &old_self.table(),
                        &old_mem,
                        Seq::<u8>::empty(),
                    ));
                } else {
                    assert(self.regions()[j] == self.regions().last());
                }
            }
            lemma_stepped_chain(
                &first_mem,
                &old_mem,
                mem,
                Set::<u64>::empty(),
                old_self.footprint(),
                self.footprint(),
            );
        }
    }

    /// The address space of a program: the trampoline page, a region for
    /// each loadable segment with the segment's bytes from `elf_data`, the
    /// user heap one page behind the segments, the trap context below the
    /// trampoline, and the user stack one page below the trap context.
    /// Returns the address space, the top of the user stack, the bottom of
    /// the user heap and the entry point.
    #[verifier::rlimit(30)]
    pub fn from_elf(
        mem: &mut PhysMemory,
        strampoline: PhysAddr,
        elf_data: &[u8],
        headers: &ElfHeaders,
    ) -> (r: (Self, u64, u64, u64))
        requires
            old(mem).wf(),
            strampoline.wf(),
            elf_data.len() >= 4,
            elf_data@.subrange(0, 4) == ELF_MAGIC@,
            forall|i: int|
                0 <= i < headers.program_headers.len() && (
                #[trigger] headers.program_headers[i]).is_load
                    ==> headers.program_headers[i].loadable(elf_data.len() as int),
            heap_bottom(headers.program_headers@) + USER_HEAP_SIZE < VA_LIMIT,
            spans_apart(elf_spans(headers.program_headers@)),
            old(mem).free_count() >= build_cost(elf_spans(headers.program_headers@)),
        ensures
            r.0.built(
                final(mem),
                elf_spans(headers.program_headers@),
                elf_spans(headers.program_headers@).len() as int,
                PhysPageNum(page_floor(strampoline.0 as int) as u64),
            ),
            segments_loaded(
                &r.0,
                final(mem),
                headers.program_headers@,
                elf_data@,
                headers.program_headers.len() as int,
            ),
            forall|k: int|
                load_spans(headers.program_headers@).len() <= k < r.0.regions().len()
                    ==> area_loaded(
                    &#[trigger] r.0.regions()[k],
                    &r.0.table(),
                    final(mem),
                    Seq::<u8>::empty(),
                ),
            r.1 == TRAP_CONTEXT - PAGE_SIZE,
            r.2 == heap_bottom(headers.program_headers@),
            r.3 == headers.entry_point,
            final(mem).stepped(old(mem), Set::<u64>::empty(), r.0.footprint()),
            final(mem).free_count() + r.0.frame_total() == old(mem).free_count(),
    {
        let ghost hs = headers.program_headers@;
        let ghost image = elf_data@;
        let ghost spans = elf_spans(hs);
        let ghost tramp = PhysPageNum(page_floor(strampoline.0 as int) as u64);
        let ghost old_mem = *mem;
        let ghost loads = load_spans(hs).len() as int;
        let mut memory_set = Self::with_trampoline(mem, strampoline, Ghost(spans));
        let ph_count = headers.program_headers.len();
        let mut max_end: VirtPageNum = VirtPageNum(0);
        let mut i: usize = 0;
        proof {
            assert(hs.take(0) =~= Seq::<ProgramHeader>::empty());
            lemma_load_spans_prefix(hs, 0);
        }
        while i < ph_count
            invariant
                i <= ph_count,
                ph_count == headers.program_headers.len(),
                hs == headers.program_headers@,
                image == elf_data@,
                spans == elf_spans(hs),
                loads == load_spans(hs).len(),
                spans_apart(spans),
                forall|j: int|
                    0 <= j < hs.len() && (#[trigger] hs[j]).is_load ==> hs[j].loadable(
                        elf_data.len() as int,
                    ),
                memory_set.built(mem, spans, load_index(hs, i as int), tramp),
                load_index(hs, i as int) <= loads,
                mem.free_count() >= spans_cost(
                    memory_set.table().tables(mem),
                    spans.skip(load_index(hs, i as int)),
                ),
                max_end.0 == max_end_vpn(hs.take(i as int)),
                max_end.0 <= VPN_LIMIT,
                segments_loaded(&memory_set, mem, hs, image, i as int),
                mem.stepped(&old_mem, Set::<u64>::empty(), memory_set.footprint()),
                mem.free_count() + memory_set.frame_total() == old_mem.free_count(),
            decreases ph_count - i,
        {
            let ph = headers.program_headers[i];
            proof {
                lemma_load_spans_step(hs, i as int);
                lemma_load_spans_prefix(hs, i + 1);
            }
            if ph.is_load {
                let end = memory_set.push_segment(
                    mem,
                    &ph,
                    elf_data,
                    Ghost(spans),
                    Ghost(tramp),
                    Ghost(old_mem),
                    Ghost(hs),
                    Ghost(i as int),
                );
                if end.0 > max_end.0 {
                    max_end = end;
                }
            }
            i += 1;
        }
        proof {
            assert(hs.take(ph_count as int) =~= hs);
        }
        let (user_stack_top, user_heap_bottom) = memory_set.push_heap_and_stack(
            mem,
            max_end,
            Ghost(spans),
            Ghost(tramp),
            Ghost(old_mem),
            Ghost(hs),
            Ghost(image),
        );
        (memory_set, user_stack_top, user_heap_bottom, headers.entry_point)
    }

    /// Adds the region of the loadable segment of header `i`, with the
    /// segment's bytes from `elf_data`. Returns the page behind the region.
    #[verifier::rlimit(30)]
    fn push_segment(
        &mut self,
        mem: &mut PhysMemory,
        ph: &ProgramHeader,
        elf_data: &[u8],
        Ghost(spans): Ghost<Seq<Span>>,
        Ghost(trampoline): Ghost<PhysPageNum>,
        Ghost(first_mem): Ghost<PhysMemory>,
        Ghost(headers): Ghost<Seq<ProgramHeader>>,
        Ghost(i): Ghost<int>,
    ) -> (end: VirtPageNum)
        requires
            0 <= i < headers.len(),
            headers[i] == *ph,
            ph.is_load,
            ph.loadable(elf_data.len() as int),
            spans == elf_spans(headers),
            spans_apart(spans),
            old(self).built(old(mem), spans, load_index(headers, i), trampoline),
            load_index(headers, i) < load_spans(headers).len(),
            load_spans(headers)[load_index(headers, i)] == ph.span(),
            old(mem).free_count() >= spans_cost(
                old(self).table().tables(old(mem)),
                spans.skip(load_index(headers, i)),
            ),
            segments_loaded(old(self), old(mem), headers, elf_data@, i),
            old(mem).stepped(&first_mem, Set::<u64>::empty(), old(self).footprint()),
            old(mem).free_count() + old(self).frame_total() == first_mem.free_count(),
        ensures
            end.0 == ph.span().end,
            end.0 <= VPN_LIMIT,
            final(self).built(final(mem), spans, load_index(headers, i) + 1, trampoline),
            final(mem).free_count() >= spans_cost(
                final(self).table().tables(final(mem)),
                spans.skip(load_index(headers, i) + 1),
            ),
            segments_loaded(final(self), final(mem), headers, elf_data@, i + 1),
            final(mem).stepped(&first_mem, Set::<u64>::empty(), final(self).footprint()),
            final(mem).free_count() + final(self).frame_total() == first_mem.free_count(),
    {
        let ghost before = *self;
        let ghost before_mem = *mem;
        let ghost k = load_index(headers, i);
        proof {
            assert(spans[k] == ph.span());
        }
        let start_va = VirtAddr::new(ph.virtual_addr);
        let end_va = VirtAddr::new(ph.virtual_addr + ph.mem_size);
        let map_perm = ph.map_perm();
        let map_area = MapArea::new(start_va, end_va, MapType::Framed, map_perm);
        let end = map_area.get_end();
        let data = slice_subrange(
            elf_data,
            ph.offset as usize,
            (ph.offset + ph.file_size) as usize,
        );
        self.push_span(mem, map_area, Some(data), Ghost(spans), Ghost(k), Ghost(trampoline));
        proof {
            lemma_segments_kept(&before, &before_mem, self, mem, headers, elf_data@, i);
            lemma_stepped_chain(
                &first_mem,
                &before_mem,
                mem,
                Set::<u64>::empty(),
                before.footprint(),
                self.footprint(),
            );
        }
        end
    }

    /// Adds the user heap, one page behind the page `max_end`, the trap
    /// context, and the user stack, one page below the trap context.
    /// Returns the top of the user stack and the bottom of the user heap.
    #[verifier::rlimit(30)]
    fn push_heap_and_stack(
        &mut self,
        mem: &mut PhysMemory,
        max_end: VirtPageNum,
        Ghost(spans): Ghost<Seq<Span>>,
        Ghost(trampoline): Ghost<PhysPageNum>,
        Ghost(first_mem): Ghost<PhysMemory>,
        Ghost(headers): Ghost<Seq<ProgramHeader>>,
        Ghost(image): Ghost<Seq<u8>>,
    ) -> (r: (u64, u64))
        requires
            spans == elf_spans(headers),
            spans_apart(spans),
            max_end.0 == max_end_vpn(headers),
            heap_bottom(headers) + USER_HEAP_SIZE < VA_LIMIT,
            old(self).built(old(mem), spans, load_spans(headers).len() as int, trampoline),
            old(mem).free_count() >= spans_cost(
                old(self).table().tables(old(mem)),
                spans.skip(load_spans(headers).len() as int),
            ),
            segments_loaded(old(self), old(mem), headers, image, headers.len() as int),
            old(mem).stepped(&first_mem, Set::<u64>::empty(), old(self).footprint()),
            old(mem).free_count() + old(self).frame_total() == first_mem.free_count(),
        ensures
            r.0 == TRAP_CONTEXT - PAGE_SIZE,
            r.1 == heap_bottom(headers),
            final(self).built(final(mem), spans, spans.len() as int, trampoline),
            segments_loaded(final(self), final(mem), headers, image, headers.len() as int),
            forall|j: int|
                load_spans(headers).len() <= j < final(self).regions().len() ==> area_loaded(
                    &#[trigger] final(self).regions()[j],
                    &final(self).table(),
                    final(mem),
                    Seq::<u8>::empty(),
                ),
            final(mem).stepped(&first_mem, Set::<u64>::empty(), final(self).footprint()),
            final(mem).free_count() + final(self).frame_total() == first_mem.free_count(),
    {
        let ghost loads = load_spans(headers).len() as int;
        proof {
            crate::map_area::lemma_permission_constants();
            assert(spans.len() == loads + 3);
            assert(spans[loads].start == max_end.0 + 1);
            assert(spans[loads + 1].start == TRAMPOLINE_VPN - 1);
            assert(spans[loads + 2].end == TRAMPOLINE_VPN - 2);
        }
        // the user heap, behind a guard page
        let user_heap_bottom: u64 = max_end.0 * PAGE_SIZE + PAGE_SIZE;
        let user_heap_top: u64 = user_heap_bottom + USER_HEAP_SIZE;
        let heap_start = VirtAddr::new(user_heap_bottom);
        let heap_end = VirtAddr::new(user_heap_top);
        assert(page_floor(heap_start.0 as int) == max_end.0 + 1);
        assert(page_ceil(heap_end.0 as int) == page_ceil(heap_bottom(headers) + USER_HEAP_SIZE));
        self.push_user_area(
            mem,
            heap_start,
            heap_end,
            MAP_R | MAP_W | MAP_U,
            Ghost(spans),
            Ghost(loads),
            Ghost(trampoline),
            Ghost(first_mem),
            Ghost(headers),
            Ghost(image),
        );
        // the trap context
        let trap_start = VirtAddr::new(TRAP_CONTEXT);
        let trap_end = VirtAddr::new(TRAMPOLINE);
        assert(trap_start.0 == 0x7f_ffff_e000);
        assert(trap_end.0 == 0x7f_ffff_f000);
        self.push_user_area(
            mem,
            trap_start,
            trap_end,
            MAP_R | MAP_W,
            Ghost(spans),
            Ghost(loads + 1),
            Ghost(trampoline),
            Ghost(first_mem),
            Ghost(headers),
            Ghost(image),
        );
        // the user stack, below a guard page
        let user_stack_top: u64 = TRAP_CONTEXT - PAGE_SIZE;
        let user_stack_bottom: u64 = user_stack_top - USER_STACK_SIZE;
        let stack_start = VirtAddr::new(user_stack_bottom);
        let stack_end = VirtAddr::new(user_stack_top);
        assert(stack_start.0 == 0x7f_ffff_b000);
        assert(stack_end.0 == 0x7f_ffff_d000);
        self.push_user_area(
            mem,
            stack_start,
            stack_end,
            MAP_R | MAP_W | MAP_U,
            Ghost(spans),
            Ghost(loads + 2),
            Ghost(trampoline),
            Ghost(first_mem),
            Ghost(headers),
            Ghost(image),
        );
        (user_stack_top, user_heap_bottom)
    }

    /// Adds the framed region for the addresses `[start_va, end_va)`, with
    /// no data, as region `k` of a program's address space under
    /// construction.
    #[verifier::rlimit(30)]
    fn push_user_area(
        &mut self,
        mem: &mut PhysMemory,
        start_va: VirtAddr,
        end_va: VirtAddr,
        perm: u8,
        Ghost(spans): Ghost<Seq<Span>>,
        Ghost(k): Ghost<int>,
        Ghost(trampoline): Ghost<PhysPageNum>,
        Ghost(first_mem): Ghost<PhysMemory>,
        Ghost(headers): Ghost<Seq<ProgramHeader>>,
        Ghost(image): Ghost<Seq<u8>>,
    )
        requires
            old(self).built(old(mem), spans, k, trampoline),
            load_spans(headers).len() <= k < spans.len(),
            spans_apart(spans),
            spans[k] == (Span {
                start: page_floor(start_va.0 as int),
                end: page_ceil(end_va.0 as int),
                framed: true,
                perm: MapPermission { bits: perm },
                shared: false,
            }),
            start_va.wf(),
            end_va.wf(),
            page_floor(start_va.0 as int) <= page_ceil(end_va.0 as int),
            perm & 0xe1 == 0,
            old(mem).free_count() >= spans_cost(old(self).table().tables(old(mem)), spans.skip(k)),
            segments_loaded(old(self), old(mem), headers, image, headers.len() as int),
            forall|j: int|
                load_spans(headers).len() <= j < k ==> area_loaded(
                    &#[trigger] old(self).regions()[j],
                    &old(self).table(),
                    old(mem),
                    Seq::<u8>::empty(),
                ),
            old(mem).stepped(&first_mem, Set::<u64>::empty(), old(self).footprint()),
            old(mem).free_count() + old(self).frame_total() == first_mem.free_count(),
        ensures
            final(self).built(final(mem), spans, k + 1, trampoline),
            final(mem).free_count() >= spans_cost(
                final(self).table().tables(final(mem)),
                spans.skip(k + 1),
            ),
            segments_loaded(final(self), final(mem), headers, image, headers.len() as int),
            forall|j: int|
                load_spans(headers).len() <= j < k + 1 ==> area_loaded(
                    &#[trigger] final(self).regions()[j],
                    &final(self).table(),
                    final(mem),
                    Seq::<u8>::empty(),
                ),
            final(mem).stepped(&first_mem, Set::<u64>::empty(), final(self).footprint()),
            final(mem).free_count() + final(self).frame_total() == first_mem.free_count(),
    {
        let ghost old_self = *self;
        let ghost old_mem = *mem;
        let area = MapArea::new(start_va, end_va, MapType::Framed, MapPermission { bits: perm });
        self.push_span(mem, area, None, Ghost(spans), Ghost(k), Ghost(trampoline));
        proof {
            lemma_segments_kept(
                &old_self,
                &old_mem,
                self,
                mem,
                headers,
                image,
                headers.len() as int,
            );
            assert forall|j: int| load_spans(headers).len() <= j < k + 1 implies area_loaded(
                &#[trigger] self.regions()[j],
                &self.table(),
                mem,
                Seq::<u8>::empty(),
            ) by {
                if j < k {
                    assert(self.regions()[j] == self.regions().drop_last()[j]);
                    assert(area_loaded(
                        &old_self.regions()[j],
                        &old_self.table(),
                        &old_mem,
                        Seq::<u8>::empty(),
                    ));
                } else {
                    assert(self.regions()[j] == self.regions().last());
                }
            }
            lemma_stepped_chain(
                &first_mem,
                &old_mem,
                mem,
                Set::<u64>::empty(),
                old_self.footprint(),
                self.footprint(),
            );
        }
    }

    /// A well-formed address space stays so, with the same mappings,
    /// when frames that are none of its page table's get other contents.
    pub proof fn lemma_contents_changed(&self, mem: &PhysMemory, mem2: &PhysMemory)
        requires
            self.wf(mem),
            mem2.wf(),
            mem2.same_range(mem),
            forall|p: u64| mem2.is_allocated(p) == mem.is_allocated(p),
            forall|p: u64|
                self.table().frame_set().contains(p) ==> #[trigger] mem2.words(p) == mem.words(p),
        ensures
            self.wf(mem2),
            self.view(mem2) == self.view(mem),
            self.table().tables(mem2) == self.table().tables(mem),
    {
        self.table().lemma_frames_allocated(mem);
        self.table().lemma_same_frames(mem, mem2);
        assert forall|i: int| 0 <= i < self.regions().len() implies (
        #[trigger] self.regions()[i]).inv(&self.table(), mem2) && area_mapped(
            &self.regions()[i],
            &self.table(),
            mem2,
        ) by {
            let a = self.regions()[i];
            assert(a.inv(&self.table(), mem));
            assert(area_mapped(&a, &self.table(), mem));
            assert forall|v: u64| a.contains(v) implies #[trigger] page_mapped(
                &a,
                &self.table(),
                mem2,
                v,
            ) by {
                assert(page_mapped(&a, &self.table(), mem, v));
            }
        }
    }

    /// Adds a copy of region `j` of `parent` as region `k` of an address
    /// space under construction: the same range, policy and permissions,
    /// frames of its own, and in them what the pages of `parent` hold.
    #[verifier::rlimit(30)]
    fn copy_area(
        &mut self,
        mem: &mut PhysMemory,
        parent: &MemorySet,
        j: usize,
        Ghost(spans): Ghost<Seq<Span>>,
        Ghost(k): Ghost<int>,
        Ghost(trampoline): Ghost<PhysPageNum>,
        Ghost(first_mem): Ghost<PhysMemory>,
    )
        requires
            old(self).built(old(mem), spans, k, trampoline),
            0 <= k < spans.len(),
            spans_apart(spans),
            !spans[k].shared,
            j < parent.regions().len(),
            spans[k].describes(&parent.regions()[j as int]),
            parent.wf(&first_mem),
            parent.wf(old(mem)),
            parent.view(old(mem)) == parent.view(&first_mem),
            old(mem).stepped(&first_mem, Set::<u64>::empty(), old(self).footprint()),
            old(mem).free_count() + old(self).frame_total() == first_mem.free_count(),
            old(mem).free_count() >= spans_cost(old(self).table().tables(old(mem)), spans.skip(k)),
        ensures
            final(self).built(final(mem), spans, k + 1, trampoline),
            final(self).regions().drop_last() == old(self).regions(),
            final(mem).free_count() >= spans_cost(
                final(self).table().tables(final(mem)),
                spans.skip(k + 1),
            ),
            parent.wf(final(mem)),
            parent.view(final(mem)) == parent.view(&first_mem),
            area_copied(
                &final(self).regions().last(),
                &final(self).table(),
                final(mem),
                parent.view(&first_mem),
                &first_mem,
            ),
            forall|i: int, sv: Map<u64, PageTableEntry>, sm: PhysMemory|
                0 <= i < k && #[trigger] area_copied(
                    &old(self).regions()[i],
                    &old(self).table(),
                    old(mem),
                    sv,
                    &sm,
                ) ==> area_copied(&old(self).regions()[i], &final(self).table(), final(mem), sv, &sm),
            final(mem).stepped(&first_mem, Set::<u64>::empty(), final(self).footprint()),
            final(mem).free_count() + final(self).frame_total() == first_mem.free_count(),
    {
        let ghost old_self = *self;
        let ghost old_mem = *mem;
        let ghost src_view = parent.view(&first_mem);
        proof {
            assert(parent.regions()[j as int].inv(&parent.table(), &old_mem));
            parent.lemma_footprint_allocated(&first_mem);
            old_self.lemma_footprint_allocated(&old_mem);
        }
        let area = &parent.areas[j];
        let new_area = MapArea::from_another(area);
        let start: u64 = area.get_start().0;
        let end: u64 = area.get_end().0;
        self.push_span(mem, new_area, None, Ghost(spans), Ghost(k), Ghost(trampoline));
        let ghost mid_self = *self;
        let ghost mid_mem = *mem;
        let ghost last = self.regions().last();
        proof {
            lemma_stepped_chain(
                &first_mem,
                &old_mem,
                mem,
                Set::<u64>::empty(),
                old_self.footprint(),
                self.footprint(),
            );
            self.lemma_footprint_allocated(mem);
            parent.lemma_untouched(&first_mem, mem, self.footprint());
            assert(self.regions()[k] == last);
            assert(self.regions()[k].inv(&self.table(), mem));
            last.lemma_wf();
            assert forall|u: u64| last.contains(u) implies #[trigger] page_placed(
                &last,
                &self.table(),
                mem,
                u,
            ) by {
                assert(page_loaded(&last, &self.table(), mem, Seq::<u8>::empty(), u));
            }
        }
        let mut v: u64 = start;
        while v < end
            invariant
                start <= v <= end <= VPN_LIMIT,
                start == last.start(),
                end == last.end(),
                j < parent.regions().len(),
                area_mapped(&parent.regions()[j as int], &parent.table(), &first_mem),
                parent.regions()[j as int].start() == start,
                parent.regions()[j as int].end() == end,
                parent.regions()[j as int].is_framed() == last.is_framed(),
                src_view == parent.view(&first_mem),
                parent.wf(&first_mem),
                parent.wf(mem),
                parent.view(mem) == parent.view(&first_mem),
                self.built(mem, spans, k + 1, trampoline),
                self.regions() == mid_self.regions(),
                self.table() == mid_self.table(),
                0 <= k,
                self.regions().len() == k + 1,
                last == self.regions()[k],
                mem.wf(),
                mid_mem.wf(),
                self.view(mem) == mid_self.view(&mid_mem),
                self.table().tables(mem) == mid_self.table().tables(&mid_mem),
                forall|u: u64|
                    last.contains(u) ==> #[trigger] page_placed(&last, &self.table(), mem, u),
                forall|u: u64|
                    start <= u < v ==> #[trigger] page_copied(
                        &last,
                        &self.table(),
                        mem,
                        src_view,
                        &first_mem,
                        u,
                    ),
                forall|p: u64| mem.is_allocated(p) == mid_mem.is_allocated(p),
                mem.same_range(&mid_mem),
                forall|p: u64|
                    mid_mem.managed(p) && !last.owned().contains(p) ==> #[trigger] mem.words(p)
                        == mid_mem.words(p),
                mid_mem.stepped(&first_mem, Set::<u64>::empty(), mid_self.footprint()),
                mem.free_count() == mid_mem.free_count(),
            decreases end - v,
        {
            let ghost before = *mem;
            proof {
                assert(page_mapped(&parent.regions()[j as int], &parent.table(), &first_mem, v));
                assert(page_placed(&last, &self.table(), mem, v));
                assert(self.regions()[k].inv(&self.table(), mem));
                last.lemma_wf();
                let b = last.perm().flags().bits;
                crate::pte::lemma_flag_bits(b);
                if last.is_framed() {
                    assert(last.frames().contains_key(v));
                    assert(last.owned().contains(last.frames()[v]));
                    self.table().lemma_frames_allocated(mem);
                    mem.lemma_allocated_managed(last.frames()[v]);
                }
                PageTableEntry::lemma_new_fields(last.target(v), last.perm().flags().with(PTE_V));
            }
            let src_ppn = parent.translate(mem, VirtPageNum(v)).unwrap().ppn();
            let dst_ppn = self.translate(mem, VirtPageNum(v)).unwrap().ppn();
            if src_ppn.0 != dst_ppn.0 {
                mem.copy_frame(dst_ppn, src_ppn);
            }
            proof {
                assert(dst_ppn == last.target(v));
                if src_ppn.0 != dst_ppn.0 {
                    assert(last.is_framed());
                    let d = dst_ppn.0;
                    assert(last.owned().contains(d));
                    assert(self.regions()[k].owned().contains(d));
                    assert(areas_owned(self.regions()).contains(d));
                    assert(mid_self.footprint().contains(d));
                    assert(!first_mem.is_allocated(d));
                    assert(!self.table().frame_set().contains(d));
                    self.lemma_contents_changed(&before, mem);
                    parent.lemma_footprint_allocated(&first_mem);
                    parent.lemma_untouched(&before, mem, set![d]);
                }
                assert forall|u: u64| start <= u < v + 1 implies #[trigger] page_copied(
                    &last,
                    &self.table(),
                    mem,
                    src_view,
                    &first_mem,
                    u,
                ) by {
                    assert(page_placed(&last, &self.table(), &before, u));
                    if u == v {
                        if last.is_framed() && first_mem.is_allocated(src_ppn.0) {
                            first_mem.lemma_allocated_managed(src_ppn.0);
                            assert(!mid_self.footprint().contains(src_ppn.0));
                            assert(mid_mem.words(src_ppn.0) == first_mem.words(src_ppn.0));
                            assert(!last.owned().contains(src_ppn.0)) by {
                                if last.owned().contains(src_ppn.0) {
                                    assert(self.regions()[k].owned().contains(src_ppn.0));
                                    assert(areas_owned(mid_self.regions()).contains(src_ppn.0));
                                }
                            }
                            assert(before.words(src_ppn.0) == mid_mem.words(src_ppn.0));
                        }
                    } else {
                        assert(page_copied(&last, &self.table(), &before, src_view, &first_mem, u));
                        if last.is_framed() {
                            assert(last.frames().contains_key(u));
                            assert(last.frames().contains_key(v));
                            assert(last.frames()[u] != last.frames()[v]);
                            assert(last.owned().contains(last.frames()[u]));
                            before.lemma_allocated_managed(last.frames()[u]);
                        }
                    }
                }
                assert forall|u: u64| last.contains(u) implies #[trigger] page_placed(
                    &last,
                    &self.table(),
                    mem,
                    u,
                ) by {
                    assert(page_placed(&last, &self.table(), &before, u));
                }
                assert forall|p: u64|
                    mid_mem.managed(p) && !last.owned().contains(p) implies #[trigger] mem.words(p)
                    == mid_mem.words(p) by {
                    assert(before.words(p) == mid_mem.words(p));
                }
                assert(self.has_trampoline(mem, trampoline));
            }
            v = v + 1;
        }
        proof {
            assert forall|u: u64| last.contains(u) implies #[trigger] page_copied(
                &last,
                &self.table(),
                mem,
                src_view,
                &first_mem,
                u,
            ) by {}
            assert(mem.stepped(&first_mem, Set::<u64>::empty(), self.footprint())) by {
                assert(self.footprint() =~= mid_self.footprint());
                assert forall|p: u64| !self.footprint().contains(p) implies (
                #[trigger] mem.is_allocated(p) == first_mem.is_allocated(p)) by {
                    assert(mem.is_allocated(p) == mid_mem.is_allocated(p));
                }
                assert forall|p: u64| first_mem.managed(p) && !self.footprint().contains(
                    p,
                ) implies #[trigger] mem.words(p) == first_mem.words(p) by {
                    assert(!last.owned().contains(p)) by {
                        if last.owned().contains(p) {
                            assert(self.regions()[k].owned().contains(p));
                            assert(areas_owned(self.regions()).contains(p));
                        }
                    }
                    assert(mem.words(p) == mid_mem.words(p));
                }
            }
            assert forall|i: int, sv: Map<u64, PageTableEntry>, sm: PhysMemory|
                0 <= i < k && #[trigger] area_copied(
                    &old_self.regions()[i],
                    &old_self.table(),
                    &old_mem,
                    sv,
                    &sm,
                ) implies area_copied(&old_self.regions()[i], &self.table(), mem, sv, &sm) by {
                let a = old_self.regions()[i];
                assert(a.inv(&old_self.table(), &old_mem));
                assert(self.regions()[i] == self.regions().drop_last()[i]);
                assert(spans[i].describes(&a));
                assert(areas_apart(&self.regions()[i], &self.regions()[k]));
                assert forall|u: u64| a.contains(u) implies #[trigger] self.table().view(
                    mem,
                ).contains_key(u) && self.table().view(mem)[u] == old_self.table().view(
                    &old_mem,
                )[u] by {
                    assert(page_copied(&a, &old_self.table(), &old_mem, sv, &sm, u));
                    assert(spans[i].contains(u));
                    assert(!spans[k].contains(u));
                    assert(mid_self.view(&mid_mem).contains_key(u) == old_self.view(
                        &old_mem,
                    ).contains_key(u));
                }
                assert forall|p: u64| #[trigger] a.owned().contains(p) implies mem.words(p)
                    == old_mem.words(p) by {
                    assert(areas_owned(old_self.regions()).contains(p));
                    old_mem.lemma_allocated_managed(p);
                    assert(mid_mem.words(p) == old_mem.words(p));
                    assert(mid_mem.managed(p));
                }
                lemma_copied_kept(&a, &old_self.table(), &old_mem, &self.table(), mem, sv, &sm);
            }
        }
    }

    /// A full copy of the user address space `user_space`: the trampoline
    /// page, and for each region a region with frames of its own that hold
    /// what the pages of `user_space` hold.
    #[verifier::rlimit(30)]
    pub fn from_existed_user(
        mem: &mut PhysMemory,
        strampoline: PhysAddr,
        user_space: &MemorySet,
    ) -> (r: MemorySet)
        requires
            old(mem).wf(),
            strampoline.wf(),
            user_space.wf(old(mem)),
            forall|i: int|
                0 <= i < user_space.regions().len() ==> !(#[trigger] user_space.regions()[i]).contains(
                    TRAMPOLINE_VPN,
                ),
            old(mem).free_count() >= build_cost(region_spans(user_space.regions())),
        ensures
            r.built(
                final(mem),
                region_spans(user_space.regions()),
                user_space.regions().len() as int,
                PhysPageNum(page_floor(strampoline.0 as int) as u64),
            ),
            forall|i: int|
                0 <= i < r.regions().len() ==> area_copied(
                    &#[trigger] r.regions()[i],
                    &r.table(),
                    final(mem),
                    user_space.view(old(mem)),
                    old(mem),
                ),
            user_space.wf(final(mem)),
            user_space.view(final(mem)) == user_space.view(old(mem)),
            forall|p: u64|
                old(mem).is_allocated(p) ==> final(mem).is_allocated(p) && #[trigger] final(mem).words(p) == old(mem).words(p),
            final(mem).stepped(old(mem), Set::<u64>::empty(), r.footprint()),
            final(mem).free_count() + r.frame_total() == old(mem).free_count(),
    {
        let ghost first_mem = *mem;
        let ghost spans = region_spans(user_space.regions());
        let ghost tramp = PhysPageNum(page_floor(strampoline.0 as int) as u64);
        proof {
            user_space.lemma_footprint_allocated(&first_mem);
            assert(spans_apart(spans)) by {
                assert forall|i: int, j: int, v: u64|
                    0 <= i < spans.len() && 0 <= j < spans.len() && i != j implies !(
                #[trigger] spans[i].contains(v) && #[trigger] spans[j].contains(v)) by {
                    assert(areas_apart(&user_space.regions()[i], &user_space.regions()[j]));
                    assert(!(user_space.regions()[i].contains(v) && user_space.regions()[j].contains(
                        v,
                    )));
                }
            }
        }
        let mut memory_set = Self::with_trampoline(mem, strampoline, Ghost(spans));
        proof {
            memory_set.lemma_footprint_allocated(mem);
            user_space.lemma_untouched(&first_mem, mem, memory_set.footprint());
        }
        let n = user_space.areas.len();
        let mut i: usize = 0;
        while i < n
            invariant
                i <= n,
                n == user_space.regions().len(),
                spans == region_spans(user_space.regions()),
                spans_apart(spans),
                user_space.wf(&first_mem),
                user_space.wf(mem),
                user_space.view(mem) == user_space.view(&first_mem),
                memory_set.built(mem, spans, i as int, tramp),
                mem.free_count() >= spans_cost(
                    memory_set.table().tables(mem),
                    spans.skip(i as int),
                ),
                forall|q: int|
                    0 <= q < memory_set.regions().len() ==> area_copied(
                        &#[trigger] memory_set.regions()[q],
                        &memory_set.table(),
                        mem,
                        user_space.view(&first_mem),
                        &first_mem,
                    ),
                mem.stepped(&first_mem, Set::<u64>::empty(), memory_set.footprint()),
                mem.free_count() + memory_set.frame_total() == first_mem.free_count(),
            decreases n - i,
        {
            let ghost before = memory_set;
            let ghost before_mem = *mem;
            memory_set.copy_area(
                mem,
                user_space,
                i,
                Ghost(spans),
                Ghost(i as int),
                Ghost(tramp),
                Ghost(first_mem),
            );
            proof {
                assert forall|q: int| 0 <= q < memory_set.regions().len() implies area_copied(
                    &#[trigger] memory_set.regions()[q],
                    &memory_set.table(),
                    mem,
                    user_space.view(&first_mem),
                    &first_mem,
                ) by {
                    if q < i {
                        assert(memory_set.regions()[q] == memory_set.regions().drop_last()[q]);
                        assert(area_copied(
                            &before.regions()[q],
                            &before.table(),
                            &before_mem,
                            user_space.view(&first_mem),
                            &first_mem,
                        ));
                    } else {
                        assert(memory_set.regions()[q] == memory_set.regions().last());
                    }
                }
            }
            i += 1;
        }
        proof {
            assert forall|p: u64| first_mem.is_allocated(p) implies mem.is_allocated(p)
                && #[trigger] mem.words(p) == first_mem.words(p) by {
                first_mem.lemma_allocated_managed(p);
                assert(!memory_set.footprint().contains(p));
            }
        }
        memory_set
    }

    /// Shares page `vpn` of `parent` with this address space: both map it
    /// to the parent's frame from now on, not writable and marked
    /// copy-on-write.
    #[verifier::rlimit(30)]
    fn share_page(&mut self, mem: &mut PhysMemory, parent: &mut MemorySet, vpn: VirtPageNum)
        requires
            old(self).wf(old(mem)),
            old(parent).wf(old(mem)),
            forall|p: u64| !(old(self).footprint().contains(p) && old(parent).footprint().contains(p)),
            vpn.wf(),
            old(parent).view(old(mem)).contains_key(vpn.0),
            !old(self).view(old(mem)).contains_key(vpn.0),
            old(mem).free_count() >= old(self).table().tables(old(mem)).needed(
                vpn.0 as int,
                vpn.0 as int,
                vpn.0 + 1,
            ),
        ensures
            final(self).wf(final(mem)),
            final(parent).wf(final(mem)),
            *final(parent) == *old(parent),
            final(self).regions() == old(self).regions(),
            final(self).table().root() == old(self).table().root(),
            old(self).table().frame_set().subset_of(final(self).table().frame_set()),
            forall|p: u64| !(final(self).footprint().contains(p) && final(parent).footprint().contains(p)),
            final(parent).view(final(mem)) == old(parent).view(old(mem)).insert(
                vpn.0,
                shared_entry(old(parent).view(old(mem))[vpn.0]),
            ),
            final(self).view(final(mem)) == old(self).view(old(mem)).insert(
                vpn.0,
                shared_entry(old(parent).view(old(mem))[vpn.0]),
            ),
            final(self).table().tables(final(mem)) == old(self).table().tables(old(mem)).cover(
                vpn.0 as int,
                vpn.0 + 1,
            ),
            final(mem).free_count() == old(mem).free_count() - old(self).table().tables(
                old(mem),
            ).needed(vpn.0 as int, vpn.0 as int, vpn.0 + 1),
            final(mem).free_count() + final(self).frame_total() == old(mem).free_count() + old(
                self,
            ).frame_total(),
            final(mem).same_range(old(mem)),
            forall|p: u64|
                !final(self).table().frame_set().contains(p) ==> (#[trigger] final(mem).is_allocated(
                    p,
                ) == old(mem).is_allocated(p)),
            forall|p: u64|
                final(self).table().frame_set().contains(p) && !old(self).table().frame_set().contains(
                    p,
                ) ==> !old(mem).is_allocated(p),
            forall|p: u64|
                old(mem).managed(p) && !final(self).table().frame_set().contains(p) && !old(
                    parent,
                ).table().frame_set().contains(p) ==> #[trigger] final(mem).words(p) == old(
                    mem,
                ).words(p),
    {
        let ghost old_self = *self;
        let ghost old_parent = *parent;
        let ghost m0 = *mem;
        let ghost e = old_parent.view(&m0)[vpn.0];
        let ghost pf = old_parent.table().frame_set();
        proof {
            old_self.lemma_footprint_allocated(&m0);
            old_parent.lemma_footprint_allocated(&m0);
            old_self.table().lemma_missing_tables(&m0, vpn.0);
        }
        let pte = parent.page_table.translate(mem, vpn).unwrap();
        let pte_flags = pte.flags().difference(PTE_W);
        let src_ppn = pte.ppn();
        parent.set_flags(mem, vpn, pte_flags);
        let ghost m1 = *mem;
        proof {
            parent.lemma_footprint_allocated(&m1);
            self.lemma_untouched(&m0, &m1, pf);
        }
        parent.set_cow(mem, vpn);
        let ghost m2 = *mem;
        proof {
            parent.lemma_footprint_allocated(&m2);
            self.lemma_untouched(&m1, &m2, pf);
            let b = pte_flags.bits;
            crate::pte::lemma_flag_bits(b);
            PageTableEntry::lemma_new_fields(e.spec_ppn(), pte_flags.with(PTE_V));
            lemma_shared_entry(e);
            assert(parent.view(&m2) =~= old_parent.view(&m0).insert(vpn.0, shared_entry(e)));
        }
        self.page_table.map(mem, vpn, src_ppn, pte_flags);
        let ghost m3 = *mem;
        proof {
            assert forall|v: u64| !(vpn.0 <= v <= vpn.0) implies #[trigger] same_at(
                self.table().view(&m3),
                old_self.table().view(&m2),
                v,
            ) by {}
            self.lemma_table_grown(&old_self, &m2, &m3, vpn.0, vpn.0);
            self.lemma_footprint_allocated(&m3);
            assert forall|p: u64| parent.footprint().contains(p) implies !self.table().frame_set().contains(
                p,
            ) by {
                if self.table().frame_set().contains(p) {
                    if old_self.table().frame_set().contains(p) {
                        assert(old_self.footprint().contains(p));
                    } else {
                        assert(!m2.is_allocated(p));
                    }
                }
            }
            parent.lemma_untouched(&m2, &m3, self.table().frame_set());
        }
        self.set_cow(mem, vpn);
        proof {
            self.lemma_footprint_allocated(mem);
            parent.lemma_untouched(&m3, mem, self.table().frame_set());
            assert(self.view(mem) =~= old_self.view(&m0).insert(vpn.0, shared_entry(e)));
            assert forall|p: u64| !(self.footprint().contains(p) && parent.footprint().contains(
                p,
            )) by {
                if self.footprint().contains(p) && parent.footprint().contains(p) {
                    assert(areas_owned(old_self.regions()).contains(p));
                    assert(old_self.footprint().contains(p));
                }
            }
            assert forall|p: u64| !self.table().frame_set().contains(p) implies (
            #[trigger] mem.is_allocated(p) == m0.is_allocated(p)) by {
                assert(m3.is_allocated(p) == m2.is_allocated(p));
            }
            assert forall|p: u64|
                m0.managed(p) && !self.table().frame_set().contains(p) && !pf.contains(
                    p,
                ) implies #[trigger] mem.words(p) == m0.words(p) by {
                assert(m1.words(p) == m0.words(p));
                assert(m2.words(p) == m1.words(p));
                assert(m3.words(p) == m2.words(p));
            }
            assert forall|p: u64|
                self.table().frame_set().contains(p) && !old_self.table().frame_set().contains(
                    p,
                ) implies !m0.is_allocated(p) by {
                assert(!m2.is_allocated(p));
            }
        }
    }

    /// Shares region `j` of `parent` with this address space, as its region
    /// `k`: every page of it is shared, and the new region owns no frame.
    #[verifier::rlimit(30)]
    fn share_area(
        &mut self,
        mem: &mut PhysMemory,
        parent: &mut MemorySet,
        j: usize,
        Ghost(spans): Ghost<Seq<Span>>,
        Ghost(k): Ghost<int>,
        Ghost(trampoline): Ghost<PhysPageNum>,
    )
        requires
            old(self).built(old(mem), spans, k, trampoline),
            0 <= k < spans.len(),
            spans_apart(spans),
            spans[k].shared,
            j < old(parent).regions().len(),
            spans[k].describes(&old(parent).regions()[j as int]),
            old(parent).wf(old(mem)),
            forall|p: u64| !(old(self).footprint().contains(p) && old(parent).footprint().contains(p)),
            old(mem).free_count() >= spans_cost(old(self).table().tables(old(mem)), spans.skip(k)),
        ensures
            final(self).built(final(mem), spans, k + 1, trampoline),
            final(self).regions().drop_last() == old(self).regions(),
            final(self).regions().last().owned() == Set::<u64>::empty(),
            final(self).regions().last().frame_total() == 0,
            final(parent).wf(final(mem)),
            *final(parent) == *old(parent),
            old(self).table().frame_set().subset_of(final(self).table().frame_set()),
            forall|p: u64| !(final(self).footprint().contains(p) && final(parent).footprint().contains(p)),
            forall|v: u64|
                spans[k].contains(v) ==> #[trigger] page_shared(
                    old(parent).view(old(mem)),
                    final(parent).view(final(mem)),
                    final(self).view(final(mem)),
                    v,
                ),
            forall|v: u64|
                !spans[k].contains(v) ==> #[trigger] same_at(
                    final(parent).table().view(final(mem)),
                    old(parent).table().view(old(mem)),
                    v,
                ),
            forall|v: u64|
                !spans[k].contains(v) ==> #[trigger] same_at(
                    final(self).table().view(final(mem)),
                    old(self).table().view(old(mem)),
                    v,
                ),
            final(mem).free_count() >= spans_cost(
                final(self).table().tables(final(mem)),
                spans.skip(k + 1),
            ),
            final(mem).free_count() + final(self).frame_total() == old(mem).free_count() + old(
                self,
            ).frame_total(),
            final(mem).same_range(old(mem)),
            forall|p: u64|
                !final(self).table().frame_set().contains(p) ==> (#[trigger] final(mem).is_allocated(
                    p,
                ) == old(mem).is_allocated(p)),
            forall|p: u64|
                final(self).table().frame_set().contains(p) && !old(self).table().frame_set().contains(
                    p,
                ) ==> !old(mem).is_allocated(p),
            forall|p: u64|
                old(mem).managed(p) && !final(self).table().frame_set().contains(p) && !old(
                    parent,
                ).table().frame_set().contains(p) ==> #[trigger] final(mem).words(p) == old(
                    mem,
                ).words(p),
    {
        let ghost old_self = *self;
        let ghost old_parent = *parent;
        let ghost m0 = *mem;
        let ghost ts = old_self.table().tables(&m0);
        let ghost pv = old_parent.view(&m0);
        let ghost cv = old_self.view(&m0);
        proof {
            assert(old_parent.regions()[j as int].inv(&old_parent.table(), &m0));
            assert(area_mapped(&old_parent.regions()[j as int], &old_parent.table(), &m0));
            assert(spans.skip(k)[0] == spans[k]);
            assert(spans.skip(k).skip(1) =~= spans.skip(k + 1));
            old_parent.regions()[j as int].lemma_wf();
            ts.lemma_cover_step(spans[k].start, spans[k].start);
        }
        let new_area = MapArea::from_another(&parent.areas[j]);
        let start: u64 = parent.areas[j].get_start().0;
        let end: u64 = parent.areas[j].get_end().0;
        let ghost src_area = old_parent.regions()[j as int];
        let mut v: u64 = start;
        while v < end
            invariant
                start <= v <= end <= VPN_LIMIT,
                0 <= k < spans.len(),
                spans[k].start == start,
                spans[k].end == end,
                spans_apart(spans),
                ts == old_self.table().tables(&m0),
                pv == old_parent.view(&m0),
                cv == old_self.view(&m0),
                src_area.start() == start,
                src_area.end() == end,
                area_mapped(&src_area, &old_parent.table(), &m0),
                old_self.built(&m0, spans, k, trampoline),
                self.wf(mem),
                parent.wf(mem),
                *parent == old_parent,
                self.regions() == old_self.regions(),
                self.table().root() == old_self.table().root(),
                old_self.table().frame_set().subset_of(self.table().frame_set()),
                forall|p: u64| !(self.footprint().contains(p) && parent.footprint().contains(p)),
                forall|u: u64|
                    start <= u < v ==> #[trigger] page_shared(pv, parent.view(mem), self.view(mem), u),
                forall|u: u64|
                    !(start <= u < v) ==> #[trigger] same_at(
                        parent.table().view(mem),
                        old_parent.table().view(&m0),
                        u,
                    ),
                forall|u: u64|
                    !(start <= u < v) ==> #[trigger] same_at(
                        self.table().view(mem),
                        old_self.table().view(&m0),
                        u,
                    ),
                self.table().tables(mem) == ts.cover(start as int, v as int),
                mem.free_count() + ts.needed(start as int, start as int, end as int)
                    == m0.free_count() + ts.needed(start as int, v as int, end as int),
                m0.free_count() >= ts.needed(start as int, start as int, end as int) + spans_cost(
                    ts.cover(start as int, end as int),
                    spans.skip(k + 1),
                ),
                mem.free_count() + self.frame_total() == m0.free_count() + old_self.frame_total(),
                mem.same_range(&m0),
                forall|p: u64|
                    !self.table().frame_set().contains(p) ==> (#[trigger] mem.is_allocated(p)
                        == m0.is_allocated(p)),
                forall|p: u64|
                    self.table().frame_set().contains(p) && !old_self.table().frame_set().contains(
                        p,
                    ) ==> !m0.is_allocated(p),
                forall|p: u64|
                    m0.managed(p) && !self.table().frame_set().contains(p)
                        && !old_parent.table().frame_set().contains(p) ==> #[trigger] mem.words(p)
                        == m0.words(p),
            decreases end - v,
        {
            let ghost mid_self = *self;
            let ghost mid = *mem;
            proof {
                ts.lemma_needed_step(start as int, v as int, end as int);
                ts.lemma_cover_step(start as int, v as int);
                assert(page_mapped(&src_area, &old_parent.table(), &m0, v));
                assert(same_at(parent.table().view(mem), old_parent.table().view(&m0), v));
                assert(same_at(self.table().view(mem), old_self.table().view(&m0), v));
                assert(!old_self.view(&m0).contains_key(v)) by {
                    if old_self.view(&m0).contains_key(v) {
                        assert(spans[k].contains(v));
                        if v != TRAMPOLINE_VPN {
                            let i = choose|i: int| 0 <= i < k && #[trigger] spans[i].contains(v);
                            assert(spans[i].contains(v) && spans[k].contains(v));
                        }
                    }
                }
            }
            self.share_page(mem, parent, VirtPageNum(v));
            proof {
                assert forall|u: u64| start <= u < v + 1 implies #[trigger] page_shared(
                    pv,
                    parent.view(mem),
                    self.view(mem),
                    u,
                ) by {
                    if u != v {
                        assert(page_shared(pv, old_parent.view(&mid), mid_self.view(&mid), u));
                    }
                }
                assert forall|u: u64| !(start <= u < v + 1) implies #[trigger] same_at(
                    parent.table().view(mem),
                    old_parent.table().view(&m0),
                    u,
                ) by {
                    assert(same_at(old_parent.table().view(&mid), old_parent.table().view(&m0), u));
                }
                assert forall|u: u64| !(start <= u < v + 1) implies #[trigger] same_at(
                    self.table().view(mem),
                    old_self.table().view(&m0),
                    u,
                ) by {
                    assert(same_at(mid_self.table().view(&mid), old_self.table().view(&m0), u));
                }
                assert forall|p: u64| !self.table().frame_set().contains(p) implies (
                #[trigger] mem.is_allocated(p) == m0.is_allocated(p)) by {
                    assert(mid.is_allocated(p) == m0.is_allocated(p));
                }
                assert forall|p: u64|
                    self.table().frame_set().contains(p) && !old_self.table().frame_set().contains(
                        p,
                    ) implies !m0.is_allocated(p) by {
                    if !mid_self.table().frame_set().contains(p) {
                        assert(!mid.is_allocated(p));
                        assert(mid.is_allocated(p) == m0.is_allocated(p));
                    }
                }
                assert forall|p: u64|
                    m0.managed(p) && !self.table().frame_set().contains(p)
                        && !old_parent.table().frame_set().contains(p) implies #[trigger] mem.words(
                    p,
                ) == m0.words(p) by {
                    assert(mid.words(p) == m0.words(p));
                }
            }
            v = v + 1;
        }
        proof {
            assert(ts.needed(start as int, end as int, end as int) == 0);
            let pt = self.table();
            assert forall|u: u64| new_area.contains(u) implies #[trigger] page_mapped(
                &new_area,
                &pt,
                mem,
                u,
            ) by {
                assert(page_shared(pv, parent.view(mem), self.view(mem), u));
                assert(page_mapped(&src_area, &old_parent.table(), &m0, u));
                lemma_shared_entry(pv[u]);
            }
            assert forall|u: u64| !#[trigger] new_area.frames().contains_key(u) by {
                new_area.lemma_wf();
                if new_area.frames().contains_key(u) {
                    assert(new_area.owned().contains(new_area.frames()[u]));
                }
            }
            assert forall|i: int| 0 <= i < self.regions().len() implies areas_apart(
                &#[trigger] self.regions()[i],
                &new_area,
            ) by {
                assert(spans[i].describes(&old_self.regions()[i]));
                assert forall|u: u64| !(self.regions()[i].contains(u) && new_area.contains(u)) by {
                    if self.regions()[i].contains(u) {
                        assert(spans[i].contains(u));
                        assert(!spans[k].contains(u));
                    }
                }
            }
        }
        let ghost pre = *self;
        self.push_mapped(Ghost(&*mem), new_area);
        proof {
            assert(self.view(mem) == pre.view(mem));
            assert forall|u: u64| spans[k].contains(u) implies #[trigger] page_shared(
                pv,
                parent.view(mem),
                self.view(mem),
                u,
            ) by {
                assert(page_shared(pv, parent.view(mem), pre.view(mem), u));
            }
            assert(self.regions().last() == new_area);
            assert(self.regions().drop_last() =~= old_self.regions());
            assert forall|i: int| 0 <= i < k + 1 implies spans[i].describes(
                &#[trigger] self.regions()[i],
            ) by {
                if i < k {
                    assert(self.regions()[i] == old_self.regions()[i]);
                    assert(spans[i].describes(&old_self.regions()[i]));
                }
            }
            assert forall|u: u64| #[trigger] self.view(mem).contains_key(u) implies u
                == TRAMPOLINE_VPN || spans_hold(spans, k + 1, u) by {
                if spans[k].contains(u) {
                } else {
                    assert(same_at(self.table().view(mem), old_self.table().view(&m0), u));
                    assert(old_self.view(&m0).contains_key(u));
                    if u != TRAMPOLINE_VPN {
                        let i = choose|i: int| 0 <= i < k && #[trigger] spans[i].contains(u);
                        assert(spans[i].contains(u));
                    }
                }
            }
            assert(!spans[k].contains(TRAMPOLINE_VPN));
            assert(same_at(
                self.table().view(mem),
                old_self.table().view(&m0),
                TRAMPOLINE_VPN,
            ));
            assert(self.has_trampoline(mem, trampoline));
            assert(areas_total(self.regions()) == areas_total(old_self.regions())
                + new_area.frame_total()) by {
                assert(self.regions().drop_last() =~= old_self.regions());
            }
        }
    }

    /// A copy-on-write fork of the user address space `user_space`, whose
    /// heap ends at the address `user_heap_top`. The regions that start at
    /// or above the page of the heap top are copied, as `from_existed_user`
    /// copies them. The regions that start below it are shared: the child
    /// maps their pages to the parent's frames, both address spaces lose
    /// the write permission for them and mark them copy-on-write, and the
    /// frames stay the parent's.
    #[verifier::rlimit(30)]
    pub fn from_copy_on_write(
        mem: &mut PhysMemory,
        strampoline: PhysAddr,
        user_space: &mut MemorySet,
        user_heap_top: u64,
    ) -> (r: MemorySet)
        requires
            old(mem).wf(),
            strampoline.wf(),
            old(user_space).wf(old(mem)),
            forall|i: int|
                0 <= i < old(user_space).regions().len() ==> !(#[trigger] old(
                    user_space,
                ).regions()[i]).contains(TRAMPOLINE_VPN),
            old(mem).free_count() >= build_cost(
                cow_spans(old(user_space).regions(), heap_top_vpn(user_heap_top)),
            ),
        ensures
            r.built(
                final(mem),
                cow_spans(old(user_space).regions(), heap_top_vpn(user_heap_top)),
                cow_order(old(user_space).regions(), heap_top_vpn(user_heap_top)).len() as int,
                PhysPageNum(page_floor(strampoline.0 as int) as u64),
            ),
            *final(user_space) == *old(user_space),
            final(user_space).wf(final(mem)),
            forall|j: int, v: u64|
                0 <= j < old(user_space).regions().len() && is_low(
                    &old(user_space).regions()[j],
                    heap_top_vpn(user_heap_top),
                ) && #[trigger] old(user_space).regions()[j].contains(v) ==> page_shared(
                    old(user_space).view(old(mem)),
                    final(user_space).view(final(mem)),
                    r.view(final(mem)),
                    v,
                ),
            forall|v: u64| #[trigger]
                same_at(
                    final(user_space).table().view(final(mem)),
                    old(user_space).table().view(old(mem)),
                    v,
                ) || page_shared(
                    old(user_space).view(old(mem)),
                    final(user_space).view(final(mem)),
                    r.view(final(mem)),
                    v,
                ),
            forall|i: int|
                0 <= i < r.regions().len() && !is_low(
                    &old(user_space).regions()[cow_order(
                        old(user_space).regions(),
                        heap_top_vpn(user_heap_top),
                    )[i]],
                    heap_top_vpn(user_heap_top),
                ) ==> area_copied(
                    &#[trigger] r.regions()[i],
                    &r.table(),
                    final(mem),
                    old(user_space).view(old(mem)),
                    old(mem),
                ),
            forall|i: int|
                0 <= i < r.regions().len() && is_low(
                    &old(user_space).regions()[cow_order(
                        old(user_space).regions(),
                        heap_top_vpn(user_heap_top),
                    )[i]],
                    heap_top_vpn(user_heap_top),
                ) ==> (#[trigger] r.regions()[i]).owned() == Set::<u64>::empty(),
            forall|p: u64| old(mem).is_allocated(p) ==> #[trigger] final(mem).is_allocated(p),
            forall|p: u64|
                old(mem).is_allocated(p) && !old(user_space).table().frame_set().contains(p)
                    ==> #[trigger] final(mem).words(p) == old(mem).words(p),
            forall|p: u64| r.footprint().contains(p) ==> !old(mem).is_allocated(p),
            forall|p: u64|
                !r.footprint().contains(p) ==> (#[trigger] final(mem).is_allocated(p) == old(
                    mem,
                ).is_allocated(p)),
            final(mem).free_count() + r.frame_total() == old(mem).free_count(),
    {
        let ghost first_mem = *mem;
        let ghost parent0 = *user_space;
        let ghost areas = user_space.regions();
        let ghost top = heap_top_vpn(user_heap_top);
        let ghost spans = cow_spans(areas, top);
        let ghost order = cow_order(areas, top);
        let ghost highs = picked(areas, top, false).len() as int;
        let ghost tramp = PhysPageNum(page_floor(strampoline.0 as int) as u64);
        let ghost pv = user_space.view(&first_mem);
        proof {
            user_space.lemma_footprint_allocated(&first_mem);
            lemma_cow_spans_apart(areas, top);
            lemma_picked(areas, top, false);
            lemma_picked(areas, top, true);
            assert(areas.take(0) =~= Seq::<MapArea>::empty());
        }
        let top_vpn: VirtPageNum = VirtAddr::new(user_heap_top).floor();
        let mut memory_set = Self::with_trampoline(mem, strampoline, Ghost(spans));
        proof {
            memory_set.lemma_footprint_allocated(mem);
            user_space.lemma_untouched(&first_mem, mem, memory_set.footprint());
        }
        let n = user_space.areas.len();
        // the regions at or above the heap top get frames of their own
        let mut j: usize = 0;
        while j < n
            invariant
                j <= n,
                n == areas.len(),
                areas == user_space.regions(),
                *user_space == parent0,
                top == top_vpn.0,
                spans == cow_spans(areas, top),
                order == cow_order(areas, top),
                highs == picked(areas, top, false).len(),
                spans.len() == order.len(),
                pv == user_space.view(&first_mem),
                spans_apart(spans),
                user_space.wf(&first_mem),
                user_space.wf(mem),
                user_space.view(mem) == user_space.view(&first_mem),
                picked(areas.take(j as int), top, false).len() <= highs,
                memory_set.built(
                    mem,
                    spans,
                    picked(areas.take(j as int), top, false).len() as int,
                    tramp,
                ),
                mem.free_count() >= spans_cost(
                    memory_set.table().tables(mem),
                    spans.skip(picked(areas.take(j as int), top, false).len() as int),
                ),
                forall|q: int|
                    0 <= q < memory_set.regions().len() ==> area_copied(
                        &#[trigger] memory_set.regions()[q],
                        &memory_set.table(),
                        mem,
                        pv,
                        &first_mem,
                    ),
                mem.stepped(&first_mem, Set::<u64>::empty(), memory_set.footprint()),
                mem.free_count() + memory_set.frame_total() == first_mem.free_count(),
            decreases n - j,
        {
            let ghost k = picked(areas.take(j as int), top, false).len() as int;
            let ghost before = memory_set;
            let ghost before_mem = *mem;
            proof {
                lemma_picked_step(areas, top, false, j as int);
            }
            let head_vpn = user_space.areas[j].get_start();
            if !(head_vpn.0 < top_vpn.0) {
                proof {
                    assert(order[k] == picked(areas, top, false)[k]);
                    assert(order[k] == j);
                    assert(spans[k] == span_of(&areas[j as int], false));
                }
                memory_set.copy_area(
                    mem,
                    &*user_space,
                    j,
                    Ghost(spans),
                    Ghost(k),
                    Ghost(tramp),
                    Ghost(first_mem),
                );
                proof {
                    assert forall|q: int| 0 <= q < memory_set.regions().len() implies area_copied(
                        &#[trigger] memory_set.regions()[q],
                        &memory_set.table(),
                        mem,
                        pv,
                        &first_mem,
                    ) by {
                        if q < k {
                            assert(memory_set.regions()[q] == memory_set.regions().drop_last()[q]);
                            assert(area_copied(
                                &before.regions()[q],
                                &before.table(),
                                &before_mem,
                                pv,
                                &first_mem,
                            ));
                        } else {
                            assert(memory_set.regions()[q] == memory_set.regions().last());
                        }
                    }
                }
            }
            j += 1;
        }
        proof {
            assert(areas.take(n as int) =~= areas);
            memory_set.lemma_footprint_allocated(mem);
            assert forall|p: u64| !(memory_set.footprint().contains(p)
                && user_space.footprint().contains(p)) by {}
            assert forall|p: u64| first_mem.is_allocated(p) implies #[trigger] mem.words(p)
                == first_mem.words(p) by {
                first_mem.lemma_allocated_managed(p);
                assert(!memory_set.footprint().contains(p));
            }
        }
        // the regions below the heap top are shared
        let mut j: usize = 0;
        while j < n
            invariant
                j <= n,
                n == areas.len(),
                areas == parent0.regions(),
                *user_space == parent0,
                top == top_vpn.0,
                spans == cow_spans(areas, top),
                order == cow_order(areas, top),
                highs == picked(areas, top, false).len(),
                spans.len() == order.len(),
                order.len() == highs + picked(areas, top, true).len(),
                pv == parent0.view(&first_mem),
                spans_apart(spans),
                parent0.wf(&first_mem),
                first_mem.wf(),
                user_space.wf(mem),
                picked(areas.take(j as int), top, true).len() <= picked(areas, top, true).len(),
                memory_set.built(
                    mem,
                    spans,
                    highs + picked(areas.take(j as int), top, true).len(),
                    tramp,
                ),
                mem.free_count() >= spans_cost(
                    memory_set.table().tables(mem),
                    spans.skip(highs + picked(areas.take(j as int), top, true).len()),
                ),
                forall|p: u64|
                    !(memory_set.footprint().contains(p) && user_space.footprint().contains(p)),
                forall|q: int|
                    0 <= q < highs ==> area_copied(
                        &#[trigger] memory_set.regions()[q],
                        &memory_set.table(),
                        mem,
                        pv,
                        &first_mem,
                    ),
                forall|q: int|
                    highs <= q < memory_set.regions().len() ==> (
                    #[trigger] memory_set.regions()[q]).owned() == Set::<u64>::empty(),
                forall|i: int, v: u64|
                    0 <= i < j && is_low(&areas[i], top) && #[trigger] areas[i].contains(v)
                        ==> page_shared(pv, user_space.view(mem), memory_set.view(mem), v),
                forall|v: u64| #[trigger]
                    same_at(user_space.table().view(mem), parent0.table().view(&first_mem), v)
                        || page_shared(pv, user_space.view(mem), memory_set.view(mem), v),
                mem.same_range(&first_mem),
                forall|p: u64| first_mem.is_allocated(p) ==> #[trigger] mem.is_allocated(p),
                forall|p: u64|
                    first_mem.is_allocated(p) && !parent0.table().frame_set().contains(p)
                        ==> #[trigger] mem.words(p) == first_mem.words(p),
                forall|p: u64| memory_set.footprint().contains(p) ==> !first_mem.is_allocated(p),
                forall|p: u64|
                    !memory_set.footprint().contains(p) ==> (#[trigger] mem.is_allocated(p)
                        == first_mem.is_allocated(p)),
                mem.free_count() + memory_set.frame_total() == first_mem.free_count(),
            decreases n - j,
        {
            let ghost k = highs + picked(areas.take(j as int), top, true).len();
            let ghost before = memory_set;
            let ghost before_mem = *mem;
            let ghost before_pv = user_space.view(mem);
            proof {
                lemma_picked_step(areas, top, true, j as int);
            }
            let head_vpn = user_space.areas[j].get_start();
            if head_vpn.0 < top_vpn.0 {
                proof {
                    assert(order[k] == picked(areas, top, true)[k - highs]);
                    assert(order[k] == j);
                    assert(spans[k] == span_of(&areas[j as int], true));
                    before.lemma_footprint_allocated(&before_mem);
                }
                memory_set.share_area(mem, user_space, j, Ghost(spans), Ghost(k), Ghost(tramp));
                proof {
                    let cv0 = before.view(&before_mem);
                    assert forall|q: int| 0 <= q < highs implies area_copied(
                        &#[trigger] memory_set.regions()[q],
                        &memory_set.table(),
                        mem,
                        pv,
                        &first_mem,
                    ) by {
                        let a = before.regions()[q];
                        assert(memory_set.regions()[q] == memory_set.regions().drop_last()[q]);
                        assert(area_copied(&a, &before.table(), &before_mem, pv, &first_mem));
                        assert(a.inv(&before.table(), &before_mem));
                        assert(spans[q].describes(&a));
                        assert forall|u: u64| a.contains(u) implies #[trigger] memory_set.table().view(
                            mem,
                        ).contains_key(u) && memory_set.table().view(mem)[u] == before.table().view(
                            &before_mem,
                        )[u] by {
                            assert(page_copied(&a, &before.table(), &before_mem, pv, &first_mem, u));
                            assert(spans[q].contains(u));
                            assert(!spans[k].contains(u));
                            assert(same_at(
                                memory_set.table().view(mem),
                                before.table().view(&before_mem),
                                u,
                            ));
                        }
                        assert forall|p: u64| #[trigger] a.owned().contains(p) implies mem.words(p)
                            == before_mem.words(p) by {
                            assert(areas_owned(before.regions()).contains(p));
                            assert(before.footprint().contains(p));
                            before_mem.lemma_allocated_managed(p);
                            assert(memory_set.regions()[q].inv(&memory_set.table(), mem));
                            assert(memory_set.regions()[q].owned().contains(p));
                        }
                        lemma_copied_kept(
                            &a,
                            &before.table(),
                            &before_mem,
                            &memory_set.table(),
                            mem,
                            pv,
                            &first_mem,
                        );
                    }
                    assert forall|q: int| highs <= q < memory_set.regions().len() implies (
                    #[trigger] memory_set.regions()[q]).owned() == Set::<u64>::empty() by {
                        if q < k {
                            assert(memory_set.regions()[q] == memory_set.regions().drop_last()[q]);
                            assert(before.regions()[q].owned() == Set::<u64>::empty());
                        } else {
                            assert(memory_set.regions()[q] == memory_set.regions().last());
                        }
                    }
                    assert forall|v: u64| #[trigger]
                        same_at(user_space.table().view(mem), parent0.table().view(&first_mem), v)
                            || page_shared(pv, user_space.view(mem), memory_set.view(mem), v) by {
                        if spans[k].contains(v) {
                            assert(page_shared(before_pv, user_space.view(mem), memory_set.view(mem), v));
                            assert(same_at(before.table().view(&before_mem), cv0, v));
                            if same_at(
                                parent0.table().view(&before_mem),
                                parent0.table().view(&first_mem),
                                v,
                            ) {
                            } else {
                                // a page of two regions of the parent
                                assert(page_shared(pv, before_pv, cv0, v));
                                assert(cv0.contains_key(v));
                                assert(v == TRAMPOLINE_VPN || spans_hold(spans, k, v));
                                if v != TRAMPOLINE_VPN {
                                    let i = choose|i: int| 0 <= i < k && #[trigger] spans[i].contains(v);
                                    assert(spans[i].contains(v) && spans[k].contains(v));
                                }
                            }
                        } else {
                            assert(same_at(
                                user_space.table().view(mem),
                                parent0.table().view(&before_mem),
                                v,
                            ));
                            assert(same_at(
                                memory_set.table().view(mem),
                                before.table().view(&before_mem),
                                v,
                            ));
                            if !same_at(
                                parent0.table().view(&before_mem),
                                parent0.table().view(&first_mem),
                                v,
                            ) {
                                assert(page_shared(pv, before_pv, cv0, v));
                            }
                        }
                    }
                    assert forall|i: int, v: u64|
                        0 <= i < j + 1 && is_low(&areas[i], top) && #[trigger] areas[i].contains(
                            v,
                        ) implies page_shared(pv, user_space.view(mem), memory_set.view(mem), v) by {
                        if i == j {
                            assert(spans[k].contains(v));
                            assert(page_shared(before_pv, user_space.view(mem), memory_set.view(mem), v));
                            assert(same_at(
                                parent0.table().view(&before_mem),
                                parent0.table().view(&first_mem),
                                v,
                            ) || page_shared(pv, before_pv, cv0, v));
                            if !same_at(
                                parent0.table().view(&before_mem),
                                parent0.table().view(&first_mem),
                                v,
                            ) {
                                assert(cv0.contains_key(v));
                                assert(v == TRAMPOLINE_VPN || spans_hold(spans, k, v));
                                if v != TRAMPOLINE_VPN {
                                    let q = choose|q: int| 0 <= q < k && #[trigger] spans[q].contains(v);
                                    assert(spans[q].contains(v) && spans[k].contains(v));
                                }
                            }
                        } else {
                            assert(page_shared(pv, before_pv, cv0, v));
                            assert(areas_apart(&areas[i], &areas[j as int]));
                            assert(!(areas[i].contains(v) && areas[j as int].contains(v)));
                            assert(!spans[k].contains(v));
                            assert(same_at(
                                user_space.table().view(mem),
                                parent0.table().view(&before_mem),
                                v,
                            ));
                            assert(same_at(
                                memory_set.table().view(mem),
                                before.table().view(&before_mem),
                                v,
                            ));
                        }
                    }
                    assert forall|p: u64| memory_set.footprint().contains(
                        p,
                    ) implies !first_mem.is_allocated(p) by {
                        if before.footprint().contains(p) {
                        } else {
                            assert(memory_set.table().frame_set().contains(p)) by {
                                if areas_owned(memory_set.regions()).contains(p) {
                                    let q = choose|q: int|
                                        0 <= q < memory_set.regions().len()
                                            && #[trigger] memory_set.regions()[q].owned().contains(p);
                                    if q < k {
                                        assert(memory_set.regions()[q]
                                            == memory_set.regions().drop_last()[q]);
                                        assert(before.regions()[q].owned().contains(p));
                                        assert(areas_owned(before.regions()).contains(p));
                                    } else {
                                        assert(memory_set.regions()[q] == memory_set.regions().last());
                                    }
                                }
                            }
                            assert(!before_mem.is_allocated(p));
                        }
                    }
                    assert forall|p: u64| !memory_set.footprint().contains(p) implies (
                    #[trigger] mem.is_allocated(p) == first_mem.is_allocated(p)) by {
                        assert(!before.footprint().contains(p)) by {
                            if areas_owned(before.regions()).contains(p) {
                                let q = choose|q: int|
                                    0 <= q < before.regions().len()
                                        && #[trigger] before.regions()[q].owned().contains(p);
                                assert(memory_set.regions()[q] == memory_set.regions().drop_last()[q]);
                                assert(memory_set.regions()[q].owned().contains(p));
                            }
                        }
                    }
                    assert forall|p: u64|
                        first_mem.is_allocated(p) && !parent0.table().frame_set().contains(
                            p,
                        ) implies #[trigger] mem.words(p) == first_mem.words(p) by {
                        first_mem.lemma_allocated_managed(p);
                        assert(!memory_set.footprint().contains(p));
                    }
                }
            }
            j += 1;
        }
        proof {
            assert(areas.take(n as int) =~= areas);
            assert forall|i: int|
                0 <= i < memory_set.regions().len() && !is_low(
                    &areas[order[i]],
                    top,
                ) implies area_copied(
                &#[trigger] memory_set.regions()[i],
                &memory_set.table(),
                mem,
                pv,
                &first_mem,
            ) by {
                if i >= highs {
                    assert(order[i] == picked(areas, top, true)[i - highs]);
                }
            }
            assert forall|i: int|
                0 <= i < memory_set.regions().len() && is_low(&areas[order[i]], top) implies (
            #[trigger] memory_set.regions()[i]).owned() == Set::<u64>::empty() by {
                if i < highs {
                    assert(order[i] == picked(areas, top, false)[i]);
                }
            }
        }
        memory_set
    }

    /// Points the copy-on-write leaf entry of `vpn` from frame
    /// `former_ppn` to frame `ppn`, writable again.
    fn remap_cow(
        &mut self,
        mem: &mut PhysMemory,
        vpn: VirtPageNum,
        ppn: PhysPageNum,
        former_ppn: PhysPageNum,
    )
        requires
            old(self).table().wf(old(mem)),
            vpn.wf(),
            ppn.wf(),
            old(self).view(old(mem)).contains_key(vpn.0),
            old(self).view(old(mem))[vpn.0].spec_ppn() == former_ppn,
            old(self).view(old(mem))[vpn.0].spec_flags().has(PTE_COW),
        ensures
            *final(self) == *old(self),
            final(self).table().wf(final(mem)),
            final(self).view(final(mem)) == old(self).view(old(mem)).insert(
                vpn.0,
                PageTableEntry::spec_new(
                    ppn,
                    old(self).view(old(mem))[vpn.0].spec_flags().without(PTE_COW).with(PTE_W),
                ),
            ),
            final(self).table().leaves_only(final(mem), old(mem)),
    {
        self.page_table.remap_cow(mem, vpn, ppn, former_ppn);
    }

    /// Resolves a write fault on the copy-on-write page `vpn`, which is
    /// mapped to frame `former_ppn`: the page gets a fresh frame with a copy
    /// of that frame's contents, writable and no longer copy-on-write, and
    /// the region that holds the page owns the fresh frame. The former
    /// frame keeps its contents and its owner. The copy is of what the
    /// former frame held, provided it was still allocated. Returns 0.
    #[verifier::rlimit(30)]
    pub fn cow_alloc(&mut self, mem: &mut PhysMemory, vpn: VirtPageNum, former_ppn: PhysPageNum) -> (r:
        usize)
        requires
            old(self).wf(old(mem)),
            vpn.wf(),
            old(self).view(old(mem)).contains_key(vpn.0),
            old(self).view(old(mem))[vpn.0].spec_ppn() == former_ppn,
            old(self).view(old(mem))[vpn.0].spec_flags().has(PTE_COW),
            old(mem).managed(former_ppn.0),
            region_of(old(self).regions(), vpn.0) < old(self).regions().len(),
            old(self).regions()[region_of(old(self).regions(), vpn.0)].is_framed(),
            old(mem).free_count() >= 1,
        ensures
            r == 0,
            final(self).wf(final(mem)),
            final(self).table() == old(self).table(),
            final(self).regions().len() == old(self).regions().len(),
            ({
                let k = region_of(old(self).regions(), vpn.0);
                let area = final(self).regions()[k];
                let former = old(self).regions()[k];
                let fresh = area.frames()[vpn.0];
                &&& final(self).regions() == old(self).regions().update(k, area)
                &&& area.same_shape(&former)
                &&& area.frames() == former.frames().insert(vpn.0, fresh)
                &&& area.retired_frames() == if former.frames().contains_key(vpn.0) {
                    former.retired_frames().push(former.frames()[vpn.0])
                } else {
                    former.retired_frames()
                }
                &&& !old(mem).is_allocated(fresh)
                &&& final(mem).is_allocated(fresh)
                &&& old(mem).is_allocated(former_ppn.0) ==> final(mem).words(fresh) == old(
                    mem,
                ).words(former_ppn.0)
                &&& final(self).view(final(mem)) == old(self).view(old(mem)).insert(
                    vpn.0,
                    PageTableEntry::spec_new(
                        PhysPageNum(fresh),
                        old(self).view(old(mem))[vpn.0].spec_flags().without(PTE_COW).with(PTE_W),
                    ),
                )
                &&& final(self).footprint() == old(self).footprint().insert(fresh)
                &&& forall|p: u64|
                    p != fresh ==> (#[trigger] final(mem).is_allocated(p) == old(mem).is_allocated(
                        p,
                    ))
                &&& forall|p: u64|
                    old(mem).managed(p) && p != fresh && !old(self).table().frame_set().contains(p)
                        ==> #[trigger] final(mem).words(p) == old(mem).words(p)
            }),
            final(mem).stepped(old(mem), old(self).footprint(), final(self).footprint()),
            final(mem).free_count() + final(self).frame_total() == old(mem).free_count() + old(
                self,
            ).frame_total(),
    {
        let ghost old_self = *self;
        let ghost m0 = *mem;
        let ghost e = old_self.view(&m0)[vpn.0];
        let ghost k = region_of(old_self.regions(), vpn.0);
        proof {
            old_self.lemma_footprint_allocated(&m0);
            old_self.table().lemma_frames_allocated(&m0);
        }
        let frame = mem.frame_alloc().unwrap();
        let ppn = frame.ppn;
        let ghost m1 = *mem;
        mem.copy_frame(ppn, former_ppn);
        let ghost m2 = *mem;
        proof {
            assert(!old_self.footprint().contains(ppn.0));
            assert forall|p: u64| old_self.table().frame_set().contains(p) implies m2.is_allocated(p)
                && #[trigger] m2.words(p) == m0.words(p) by {
                m0.lemma_allocated_managed(p);
                assert(m1.words(p) == m0.words(p));
            }
            old_self.table().lemma_same_frames(&m0, &m2);
            assert(former_ppn.0 != ppn.0 ==> m1.words(former_ppn.0) == m0.words(former_ppn.0));
        }
        self.remap_cow(mem, vpn, ppn, former_ppn);
        let ghost m3 = *mem;
        // the region that holds the page takes the frame
        let n = self.areas.len();
        let mut i: usize = 0;
        while i < n
            invariant_except_break
                forall|j: int| 0 <= j < i ==> !(#[trigger] self.regions()[j]).contains(vpn.0),
            invariant
                i <= n,
                n == self.areas.len(),
                *self == old_self,
            ensures
                i <= n,
                forall|j: int| 0 <= j < i ==> !(#[trigger] self.regions()[j]).contains(vpn.0),
                i < n ==> self.regions()[i as int].contains(vpn.0),
            decreases n - i,
        {
            let start = self.areas[i].get_start();
            let end = self.areas[i].get_end();
            if start.0 <= vpn.0 && vpn.0 < end.0 {
                break ;
            }
            i += 1;
        }
        proof {
            lemma_region_of(self.regions(), vpn.0, i as int);
            if i < n {
                assert(self.regions().skip(i as int)[0] == self.regions()[i as int]);
            } else {
                assert(self.regions().skip(i as int).len() == 0);
            }
            assert(i == k);
            assert(old_self.regions()[k].inv(&old_self.table(), &m0));
            assert forall|p: u64| old_self.regions()[k].owned().contains(p) implies p != ppn.0 by {
                assert(areas_owned(old_self.regions()).contains(p));
            }
        }
        let mut area = self.areas.remove(i);
        let ghost former = area;
        area.adopt(vpn, frame);
        let ghost taken = area;
        self.areas.insert(i, area);
        proof {
            let pt = self.table();
            let fresh = ppn.0;
            assert(self.regions() =~= old_self.regions().update(k, taken));
            lemma_areas_owned_update(old_self.regions(), k, taken, fresh);
            lemma_areas_total_update(old_self.regions(), k, taken);
            assert(self.footprint() =~= old_self.footprint().insert(fresh));
            let f2 = e.spec_flags().without(PTE_COW).with(PTE_W);
            let b = e.spec_flags().bits;
            crate::pte::lemma_flag_bits(b);
            PageTableEntry::lemma_new_fields(ppn, f2);
            m2.lemma_allocated_managed(fresh);
            assert(m3.words(fresh) == m2.words(fresh));
            assert(m0.is_allocated(former_ppn.0) ==> m3.words(fresh) == m0.words(former_ppn.0));
            assert forall|p: u64|
                m0.managed(p) && p != fresh && !pt.frame_set().contains(
                    p,
                ) implies #[trigger] mem.words(p) == m0.words(p) by {
                assert(m1.words(p) == m0.words(p));
                assert(m2.words(p) == m1.words(p));
            }
            assert forall|p: u64| p != fresh implies (#[trigger] mem.is_allocated(p)
                == m0.is_allocated(p)) by {
                assert(m1.is_allocated(p) == m0.is_allocated(p));
            }
            // the regions
            assert forall|q: int| 0 <= q < self.regions().len() implies (
            #[trigger] self.regions()[q]).inv(&pt, mem) && area_mapped(&self.regions()[q], &pt, mem) by {
                let a = self.regions()[q];
                if q == k {
                    assert(former.inv(&pt, &m0));
                    assert(area_mapped(&former, &pt, &m0));
                    taken.lemma_wf();
                    assert forall|p: u64| #[trigger] a.owned().contains(p) implies mem.is_allocated(
                        p,
                    ) && !pt.frame_set().contains(p) by {
                        if p != fresh {
                            assert(former.owned().contains(p));
                        }
                    }
                    assert forall|v: u64| #[trigger] a.frames().contains_key(v) implies pt.view(
                        mem,
                    ).contains_key(v) && pt.view(mem)[v].spec_ppn().0 == a.frames()[v] by {
                        if v != vpn.0 {
                            assert(former.frames().contains_key(v));
                        }
                    }
                    assert forall|v: u64| a.contains(v) implies #[trigger] page_mapped(
                        &a,
                        &pt,
                        mem,
                        v,
                    ) by {
                        assert(page_mapped(&former, &pt, &m0, v));
                    }
                } else {
                    assert(a == old_self.regions()[q]);
                    assert(a.inv(&pt, &m0));
                    assert(area_mapped(&a, &pt, &m0));
                    assert(areas_apart(&old_self.regions()[q], &old_self.regions()[k]));
                    assert forall|p: u64| #[trigger] a.owned().contains(p) implies !(pt.frame_set()
                        + set![fresh]).contains(p) && !pt.frame_set().contains(p) by {
                        assert(areas_owned(old_self.regions()).contains(p));
                    }
                    assert forall|v: u64| a.contains(v) implies #[trigger] pt.view(mem).contains_key(
                        v,
                    ) && pt.view(mem)[v].spec_ppn() == pt.view(&m0)[v].spec_ppn() by {
                        assert(page_mapped(&a, &pt, &m0, v));
                        assert(!(a.contains(v) && old_self.regions()[k].contains(v)));
                    }
                    assert(mem.same_outside(&m0, pt.frame_set() + set![fresh]));
                    lemma_area_kept(&a, &pt, &m0, &pt, mem, pt.frame_set() + set![fresh]);
                }
            }
            assert forall|a: int, b: int|
                0 <= a < self.regions().len() && 0 <= b < self.regions().len() && a
                    != b implies areas_apart(
                &#[trigger] self.regions()[a],
                &#[trigger] self.regions()[b],
            ) by {
                assert(areas_apart(&old_self.regions()[a], &old_self.regions()[b]));
                let other = if a == k {
                    b
                } else {
                    a
                };
                assert forall|p: u64| old_self.regions()[other].owned().contains(p) implies p
                    != fresh by {
                    assert(areas_owned(old_self.regions()).contains(p));
                }
            }
        }
        0
    }

    /// Number of regions.
    pub fn area_count(&self) -> (r: usize)
        ensures
            r == self.regions().len(),
    {
        self.areas.len()
    }
}

} // verus!
