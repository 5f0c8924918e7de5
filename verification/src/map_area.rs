//! A memory region of an address space: a range of virtual pages, how they
//! are mapped, and the frames that back them.

use vstd::prelude::*;
use std::collections::BTreeMap;
use crate::address::{page_ceil, page_floor, PhysPageNum, VPNRange, VirtAddr, VirtPageNum};
use crate::config::VPN_LIMIT;
use crate::frame::{zero_words, FrameTracker, PhysMemory};
use crate::page_table::PageTable;
use crate::pte::{PTEFlags, PageTableEntry, PTE_V};

verus! {

/// How the pages of a region get their frames.
#[derive(Copy, Clone, PartialEq, Eq, Debug, Structural)]
pub enum MapType {
    /// Page `n` is mapped to frame `n`.
    Identical,
    /// Each page is mapped to a frame of its own, which the region owns.
    Framed,
}

/// May be read.
pub const MAP_R: u8 = 0x02;

/// May be written.
pub const MAP_W: u8 = 0x04;

/// May be executed.
pub const MAP_X: u8 = 0x08;

/// May be accessed in user mode.
pub const MAP_U: u8 = 0x10;

/// The permissions of a region: a subset of `MAP_R`, `MAP_W`, `MAP_X` and
/// `MAP_U`, at the bit positions of the same page-table flags.
#[derive(Copy, Clone, PartialEq, Eq, Debug, Structural)]
pub struct MapPermission {
    pub bits: u8,
}

impl MapPermission {
    /// Only the four permission bits are set.
    pub open spec fn wf(self) -> bool {
        self.bits & 0xe1 == 0
    }

    /// Whether every bit of `mask` is set.
    pub open spec fn has(self, mask: u8) -> bool {
        self.bits & mask == mask
    }

    /// The page-table flags with the same bits.
    pub open spec fn flags(self) -> PTEFlags {
        PTEFlags { bits: self.bits as u16 }
    }

    /// The permissions with exactly the bits of `bits`, if all of them are
    /// permission bits.
    pub fn from_bits(bits: u8) -> (r: Option<Self>)
        ensures
            r == if bits & 0xe1 == 0 {
                Some(MapPermission { bits })
            } else {
                None
            },
    {
        if bits & 0xe1 == 0 {
            Some(MapPermission { bits })
        } else {
            None
        }
    }

    /// Whether every bit of `mask` is set.
    pub fn contains(&self, mask: u8) -> (r: bool)
        ensures
            r == self.has(mask),
    {
        self.bits & mask == mask
    }

    /// These permissions and those of `mask`.
    pub fn union(&self, mask: u8) -> (r: Self)
        ensures
            r.bits == self.bits | mask,
            self.wf() && mask & 0xe1 == 0 ==> r.wf(),
    {
        let a = self.bits;
        proof {
            assert(a & 0xe1 == 0 && mask & 0xe1 == 0 ==> (a | mask) & 0xe1 == 0) by (bit_vector);
        }
        MapPermission { bits: a | mask }
    }
}

/// The page `page` after the bytes of `data` from index `from` on were
/// written to its start: the bytes that `data` has left, at most 4096, and
/// behind them what the page held.
pub open spec fn overlay(page: Seq<u8>, data: Seq<u8>, from: int) -> Seq<u8> {
    Seq::new(
        4096,
        |off: int|
            if from + off < data.len() {
                data[from + off]
            } else {
                page[off]
            },
    )
}

/// Writes the bytes of `data` from index `from` on, at most 4096 of them, to
/// the start of frame `ppn`.
fn write_page(mem: &mut PhysMemory, ppn: PhysPageNum, data: &[u8], from: usize)
    requires
        old(mem).wf(),
        old(mem).managed(ppn.0),
        from <= data.len(),
    ensures
        final(mem).wf(),
        final(mem).bytes(ppn.0) == overlay(old(mem).bytes(ppn.0), data@, from as int),
        final(mem).free_count() == old(mem).free_count(),
        final(mem).same_range(old(mem)),
        forall|p: u64| final(mem).is_allocated(p) == old(mem).is_allocated(p),
        forall|p: u64|
            old(mem).managed(p) && p != ppn.0 ==> #[trigger] final(mem).words(p) == old(mem).words(
                p,
            ),
{
    let ghost old_mem = *mem;
    let left: usize = data.len() - from;
    let n: usize = if left < 4096 {
        left
    } else {
        4096
    };
    let mut i: usize = 0;
    while i < n
        invariant
            i <= n <= 4096,
            from + n <= data.len(),
            n == if data.len() - from < 4096 {
                data.len() - from
            } else {
                4096
            },
            mem.wf(),
            mem.managed(ppn.0),
            mem.free_count() == old_mem.free_count(),
            mem.same_range(&old_mem),
            forall|p: u64| mem.is_allocated(p) == old_mem.is_allocated(p),
            forall|p: u64|
                old_mem.managed(p) && p != ppn.0 ==> #[trigger] mem.words(p) == old_mem.words(p),
            forall|off: int|
                0 <= off < 4096 ==> #[trigger] mem.bytes(ppn.0)[off] == if off < i {
                    data@[from + off]
                } else {
                    old_mem.bytes(ppn.0)[off]
                },
        decreases n - i,
    {
        mem.write_byte(ppn, i, data[from + i]);
        i += 1;
    }
    proof {
        assert(mem.bytes(ppn.0) =~= overlay(old_mem.bytes(ppn.0), data@, from as int));
    }
}

/// How permission bits `p` show in the flags of a leaf entry.
pub proof fn lemma_permission_bits(p: u8)
    ensures
        p & 0xe1 == 0 ==> ((p as u16) | 1) < 0x200,
        (((p as u16) | 1) & 2 == 2) == (p & 2 == 2),
        (((p as u16) | 1) & 4 == 4) == (p & 4 == 4),
        (((p as u16) | 1) & 8 == 8) == (p & 8 == 8),
        (((p as u16) | 1) & 0x10 == 0x10) == (p & 0x10 == 0x10),
        ((p as u16) | 1) & 0x100 != 0x100,
        ((p as u16) | 1) & 1 == 1,
{
    assert((p & 0xe1 == 0 ==> ((p as u16) | 1) < 0x200) && ((((p as u16) | 1) & 2 == 2) == (p & 2
        == 2)) && ((((p as u16) | 1) & 4 == 4) == (p & 4 == 4)) && ((((p as u16) | 1) & 8 == 8)
        == (p & 8 == 8)) && ((((p as u16) | 1) & 0x10 == 0x10) == (p & 0x10 == 0x10)) && ((p as u16)
        | 1) & 0x100 != 0x100 && ((p as u16) | 1) & 1 == 1) by (bit_vector);
}

/// Which permissions the combinations hold that the address spaces of the
/// kernel and of programs use.
pub proof fn lemma_permission_constants()
    ensures
        MAP_R & 0xe1 == 0,
        MAP_W & 0xe1 == 0,
        MAP_X & 0xe1 == 0,
        MAP_U & 0xe1 == 0,
        (MAP_R | MAP_X) & 0xe1 == 0,
        (MAP_R | MAP_W) & 0xe1 == 0,
        (MAP_R | MAP_W | MAP_U) & 0xe1 == 0,
        (MAP_R | MAP_X) & MAP_R == MAP_R,
        (MAP_R | MAP_X) & MAP_X == MAP_X,
        (MAP_R | MAP_X) & MAP_W != MAP_W,
        (MAP_R | MAP_X) & MAP_U != MAP_U,
        MAP_R & MAP_R == MAP_R,
        MAP_R & MAP_W != MAP_W,
        MAP_R & MAP_U != MAP_U,
        (MAP_R | MAP_W) & MAP_W == MAP_W,
        (MAP_R | MAP_W) & MAP_X != MAP_X,
        (MAP_R | MAP_W) & MAP_U != MAP_U,
{
    assert(MAP_R & 0xe1 == 0 && MAP_W & 0xe1 == 0 && MAP_X & 0xe1 == 0 && MAP_U & 0xe1 == 0 && (
    MAP_R | MAP_X) & 0xe1 == 0 && (MAP_R | MAP_W) & 0xe1 == 0 && (MAP_R | MAP_W | MAP_U) & 0xe1 == 0
        && (MAP_R | MAP_X) & MAP_R == MAP_R && (MAP_R | MAP_X) & MAP_X == MAP_X && (MAP_R | MAP_X)
        & MAP_W != MAP_W && (MAP_R | MAP_X) & MAP_U != MAP_U && MAP_R & MAP_R == MAP_R && MAP_R
        & MAP_W != MAP_W && MAP_R & MAP_U != MAP_U && (MAP_R | MAP_W) & MAP_W == MAP_W && (MAP_R
        | MAP_W) & MAP_X != MAP_X && (MAP_R | MAP_W) & MAP_U != MAP_U) by (bit_vector);
}

/// A region: the pages `[start, end)`, their mapping policy and
/// permissions, and for a framed region the frames it owns.
pub struct MapArea {
    vpn_range: VPNRange,
    data_frames: BTreeMap<u64, FrameTracker>,
    retired: Vec<FrameTracker>,
    map_type: MapType,
    map_perm: MapPermission,
    owner: Ghost<Map<u64, u64>>,
}

impl MapArea {
    /// First page of the region.
    pub closed spec fn start(&self) -> u64 {
        self.vpn_range.start()
    }

    /// The page after the last page of the region.
    pub closed spec fn end(&self) -> u64 {
        self.vpn_range.end()
    }

    /// Whether `vpn` is a page of the region.
    pub open spec fn contains(&self, vpn: u64) -> bool {
        self.start() <= vpn < self.end()
    }

    pub closed spec fn kind(&self) -> MapType {
        self.map_type
    }

    pub open spec fn is_framed(&self) -> bool {
        self.kind() == MapType::Framed
    }

    pub closed spec fn perm(&self) -> MapPermission {
        self.map_perm
    }

    /// The frames that back pages at present: page number to frame number.
    pub closed spec fn frames(&self) -> Map<u64, u64> {
        Map::new(|v: u64| self.data_frames@.contains_key(v), |v: u64| self.data_frames@[v].ppn.0)
    }

    /// The frames that pages of the region had before a copy-on-write
    /// fault gave them another. The region keeps them until it is released.
    pub closed spec fn retired_frames(&self) -> Seq<u64> {
        self.retired@.map_values(|f: FrameTracker| f.ppn.0)
    }

    /// Every frame that the region owns.
    pub closed spec fn owned(&self) -> Set<u64> {
        self.owner@.dom() + self.retired_frames().to_set()
    }

    /// Number of frames that the region owns.
    pub closed spec fn frame_total(&self) -> nat {
        (self.data_frames@.len() + self.retired.len()) as nat
    }

    /// The region is the same as `other` but for the frames.
    pub open spec fn same_shape(&self, other: &MapArea) -> bool {
        &&& self.start() == other.start()
        &&& self.end() == other.end()
        &&& self.kind() == other.kind()
        &&& self.perm() == other.perm()
    }

    /// The frame that `map_one` maps page `vpn` to.
    pub open spec fn target(&self, vpn: u64) -> PhysPageNum {
        if self.is_framed() {
            PhysPageNum(self.frames()[vpn])
        } else {
            PhysPageNum(vpn)
        }
    }

    /// The leaf entry that `map_one` installs for page `vpn`.
    pub open spec fn fresh_entry(&self, vpn: u64) -> PageTableEntry {
        PageTableEntry::spec_new(self.target(vpn), self.perm().flags().with(PTE_V))
    }

    /// Page `vpn` is mapped as `map_one` leaves it: to its target frame with
    /// the region's permissions, and in a framed region the frame is all
    /// zero.
    pub open spec fn fresh_at(&self, page_table: &PageTable, mem: &PhysMemory, vpn: u64) -> bool {
        &&& page_table.view(mem).contains_key(vpn)
        &&& page_table.view(mem)[vpn] == self.fresh_entry(vpn)
        &&& self.is_framed() ==> self.frames().contains_key(vpn) && mem.words(self.frames()[vpn])
            == zero_words()
    }

    /// The region by itself is consistent: the range is ordered and inside
    /// the address space, only a framed region has frames, they belong to
    /// pages of the range, and no frame is held twice.
    pub closed spec fn wf(&self) -> bool {
        &&& self.vpn_range.wf()
        &&& self.vpn_range.end() <= VPN_LIMIT
        &&& self.map_perm.wf()
        &&& self.data_frames@.dom().finite()
        &&& self.map_type == MapType::Identical ==> self.data_frames@.dom() == Set::<u64>::empty()
            && self.retired.len() == 0
        &&& forall|v: u64| #[trigger]
            self.data_frames@.contains_key(v) ==> {
                &&& self.vpn_range.contains(v)
                &&& self.owner@.contains_key(self.data_frames@[v].ppn.0)
                &&& self.owner@[self.data_frames@[v].ppn.0] == v
            }
        &&& forall|p: u64| #[trigger]
            self.owner@.contains_key(p) ==> {
                &&& self.data_frames@.contains_key(self.owner@[p])
                &&& self.data_frames@[self.owner@[p]].ppn.0 == p
            }
        &&& forall|i: int, j: int|
            0 <= i < self.retired.len() && 0 <= j < self.retired.len() && i != j
                ==> self.retired[i].ppn.0 != self.retired[j].ppn.0
        &&& forall|i: int|
            0 <= i < self.retired.len() ==> !self.owner@.contains_key(
                #[trigger] self.retired[i].ppn.0,
            )
    }

    /// The region fits the table and the memory: its frames are allocated
    /// and are none of the table's, and each page that has a frame is mapped
    /// to it.
    pub open spec fn inv(&self, page_table: &PageTable, mem: &PhysMemory) -> bool {
        &&& self.wf()
        &&& page_table.wf(mem)
        &&& forall|p: u64| #[trigger]
            self.owned().contains(p) ==> mem.is_allocated(p) && !page_table.frame_set().contains(p)
        &&& forall|v: u64| #[trigger]
            self.frames().contains_key(v) ==> page_table.view(mem).contains_key(v)
                && page_table.view(mem)[v].spec_ppn().0 == self.frames()[v]
    }

    /// The frames of the region and of the table.
    pub open spec fn footprint(&self, page_table: &PageTable) -> Set<u64> {
        page_table.frame_set() + self.owned()
    }

    /// What holds of a well-formed region.
    pub proof fn lemma_wf(&self)
        requires
            self.wf(),
        ensures
            self.start() <= self.end() <= VPN_LIMIT,
            self.perm().wf(),
            self.perm().flags().wf(),
            forall|v: u64| self.frames().contains_key(v) ==> self.contains(v),
            forall|v: u64|
                self.frames().contains_key(v) ==> self.owned().contains(
                    #[trigger] self.frames()[v],
                ),
            forall|v: u64, w: u64|
                self.frames().contains_key(v) && self.frames().contains_key(w) && v != w
                    ==> self.frames()[v] != self.frames()[w],
            !self.is_framed() ==> self.frames() == Map::<u64, u64>::empty() && self.owned()
                == Set::<u64>::empty() && self.frame_total() == 0,
    {
        let b = self.map_perm.bits;
        assert(b & 0xe1 == 0 ==> (b as u16) < 0x200) by (bit_vector);
        assert forall|v: u64| self.frames().contains_key(v) implies self.contains(v)
            && self.owned().contains(#[trigger] self.frames()[v]) by {
            assert(self.data_frames@.contains_key(v));
        }
        assert forall|v: u64, w: u64|
            self.frames().contains_key(v) && self.frames().contains_key(w) && v
                != w implies self.frames()[v] != self.frames()[w] by {
            assert(self.data_frames@.contains_key(v));
            assert(self.data_frames@.contains_key(w));
        }
        if !self.is_framed() {
            assert(self.frames() =~= Map::<u64, u64>::empty());
            assert(self.retired_frames() =~= Seq::<u64>::empty());
            assert(self.owner@.dom() =~= Set::<u64>::empty()) by {
                assert forall|p: u64| !self.owner@.contains_key(p) by {
                    if self.owner@.contains_key(p) {
                        assert(self.data_frames@.contains_key(self.owner@[p]));
                    }
                }
            }
            assert(self.owned() =~= Set::<u64>::empty());
            assert(self.data_frames@ =~= Map::<u64, FrameTracker>::empty());
        }
    }

    /// The region of the pages from the one that holds `start_va` to the
    /// one that holds the byte before `end_va`, with no frame and nothing
    /// mapped.
    pub fn new(start_va: VirtAddr, end_va: VirtAddr, map_type: MapType, map_perm: MapPermission) -> (r:
        Self)
        requires
            start_va.wf(),
            end_va.wf(),
            page_floor(start_va.0 as int) <= page_ceil(end_va.0 as int),
            map_perm.wf(),
        ensures
            r.wf(),
            r.start() == page_floor(start_va.0 as int),
            r.end() == page_ceil(end_va.0 as int),
            r.kind() == map_type,
            r.perm() == map_perm,
            r.frames() == Map::<u64, u64>::empty(),
            r.owned() == Set::<u64>::empty(),
            r.frame_total() == 0,
    {
        let start_vpn: VirtPageNum = start_va.floor();
        let end_vpn: VirtPageNum = end_va.ceil();
        let r = MapArea {
            vpn_range: VPNRange::new(start_vpn, end_vpn),
            data_frames: BTreeMap::new(),
            retired: Vec::new(),
            map_type,
            map_perm,
            owner: Ghost(Map::empty()),
        };
        proof {
            assert(r.frames() =~= Map::<u64, u64>::empty());
            assert(r.retired_frames() =~= Seq::<u64>::empty());
            assert(r.owned() =~= Set::<u64>::empty());
        }
        r
    }

    /// A region with the range, policy and permissions of `another`, with
    /// no frame and nothing mapped.
    pub fn from_another(another: &MapArea) -> (r: Self)
        requires
            another.wf(),
        ensures
            r.wf(),
            r.same_shape(another),
            r.frames() == Map::<u64, u64>::empty(),
            r.owned() == Set::<u64>::empty(),
            r.frame_total() == 0,
    {
        let r = MapArea {
            vpn_range: VPNRange::new(another.vpn_range.get_start(), another.vpn_range.get_end()),
            data_frames: BTreeMap::new(),
            retired: Vec::new(),
            map_type: another.map_type,
            map_perm: another.map_perm,
            owner: Ghost(Map::empty()),
        };
        proof {
            assert(r.frames() =~= Map::<u64, u64>::empty());
            assert(r.retired_frames() =~= Seq::<u64>::empty());
            assert(r.owned() =~= Set::<u64>::empty());
        }
        r
    }

    pub fn get_start(&self) -> (r: VirtPageNum)
        ensures
            r.0 == self.start(),
    {
        self.vpn_range.get_start()
    }

    pub fn get_end(&self) -> (r: VirtPageNum)
        ensures
            r.0 == self.end(),
    {
        self.vpn_range.get_end()
    }

    pub fn get_type(&self) -> (r: MapType)
        ensures
            r == self.kind(),
    {
        self.map_type
    }

    pub fn get_perm(&self) -> (r: MapPermission)
        ensures
            r == self.perm(),
    {
        self.map_perm
    }

    /// The frame that backs page `vpn`, if the region owns one for it.
    pub fn frame_of(&self, vpn: VirtPageNum) -> (r: Option<PhysPageNum>)
        ensures
            r == if self.frames().contains_key(vpn.0) {
                Some(PhysPageNum(self.frames()[vpn.0]))
            } else {
                None
            },
    {
        match self.data_frames.get(&vpn.0) {
            Some(f) => Some(f.ppn),
            None => None,
        }
    }

    /// Maps page `vpn`: to the frame of its own number in an identical
    /// region, to a fresh zeroed frame in a framed one, with the region's
    /// permissions.
    #[verifier::rlimit(40)]
    pub fn map_one(&mut self, page_table: &mut PageTable, mem: &mut PhysMemory, vpn: VirtPageNum)
        requires
            old(self).inv(old(page_table), old(mem)),
            old(self).contains(vpn.0),
            !old(page_table).view(old(mem)).contains_key(vpn.0),
            old(mem).free_count() >= old(page_table).tables(old(mem)).map_cost(
                vpn.0 as int,
                vpn.0 + 1,
                old(self).is_framed(),
            ),
        ensures
            final(self).inv(final(page_table), final(mem)),
            final(self).same_shape(old(self)),
            final(self).retired_frames() == old(self).retired_frames(),
            final(self).frames() == if old(self).is_framed() {
                old(self).frames().insert(vpn.0, final(self).target(vpn.0).0)
            } else {
                old(self).frames()
            },
            final(self).owned() == if old(self).is_framed() {
                old(self).owned().insert(final(self).target(vpn.0).0)
            } else {
                old(self).owned()
            },
            old(self).is_framed() ==> final(mem).words(final(self).target(vpn.0).0)
                == zero_words(),
            forall|p: u64| #[trigger]
                old(self).owned().contains(p) ==> final(mem).words(p) == old(mem).words(p),
            final(page_table).view(final(mem)) == old(page_table).view(old(mem)).insert(
                vpn.0,
                final(self).fresh_entry(vpn.0),
            ),
            final(page_table).tables(final(mem)) == old(page_table).tables(old(mem)).cover(
                vpn.0 as int,
                vpn.0 + 1,
            ),
            final(page_table).root() == old(page_table).root(),
            old(page_table).frame_set().subset_of(final(page_table).frame_set()),
            final(mem).stepped(
                old(mem),
                old(self).footprint(old(page_table)),
                final(self).footprint(final(page_table)),
            ),
            final(mem).free_count() == old(mem).free_count() - old(page_table).tables(
                old(mem),
            ).map_cost(vpn.0 as int, vpn.0 + 1, old(self).is_framed()),
            final(mem).free_count() + final(self).frame_total() + final(page_table).frame_total()
                == old(mem).free_count() + old(self).frame_total() + old(
                page_table,
            ).frame_total(),
    {
        let ghost old_self = *self;
        let ghost old_pt = *page_table;
        let ghost old_mem = *mem;
        proof {
            self.lemma_wf();
            page_table.lemma_frames_allocated(mem);
            page_table.lemma_missing_tables(mem, vpn.0);
        }
        let ppn: PhysPageNum;
        match self.map_type {
            MapType::Identical => {
                ppn = PhysPageNum(vpn.0);
            },
            MapType::Framed => {
                let frame = mem.frame_alloc().unwrap();
                ppn = frame.ppn;
                proof {
                    assert(!self.frames().contains_key(vpn.0));
                    assert(!self.owned().contains(ppn.0));
                    assert(!self.owner@.contains_key(ppn.0));
                    page_table.lemma_untouched(&old_mem, mem, set![ppn.0]);
                }
                let _ = self.data_frames.insert(vpn.0, frame);
                self.owner = Ghost(self.owner@.insert(ppn.0, vpn.0));
                proof {
                    assert(self.frames() =~= old_self.frames().insert(vpn.0, ppn.0));
                    assert(self.owned() =~= old_self.owned().insert(ppn.0));
                    assert forall|v: u64| #[trigger]
                        self.data_frames@.contains_key(v) implies {
                        &&& self.vpn_range.contains(v)
                        &&& self.owner@.contains_key(self.data_frames@[v].ppn.0)
                        &&& self.owner@[self.data_frames@[v].ppn.0] == v
                    } by {
                        if v != vpn.0 {
                            assert(old_self.data_frames@.contains_key(v));
                            assert(old_self.owned().contains(old_self.data_frames@[v].ppn.0));
                        }
                    }
                    assert forall|p: u64| #[trigger] self.owner@.contains_key(p) implies {
                        &&& self.data_frames@.contains_key(self.owner@[p])
                        &&& self.data_frames@[self.owner@[p]].ppn.0 == p
                    } by {
                        if p != ppn.0 {
                            assert(old_self.owner@.contains_key(p));
                        }
                    }
                    assert forall|i: int| 0 <= i < self.retired.len() implies !self.owner@.contains_key(
                        #[trigger] self.retired[i].ppn.0,
                    ) by {
                        assert(old_self.retired_frames()[i] == self.retired[i].ppn.0);
                        assert(old_self.retired_frames().to_set().contains(self.retired[i].ppn.0));
                        assert(old_self.owned().contains(self.retired[i].ppn.0));
                    }
                    assert(self.wf());
                }
            },
        }
        let ghost mid_mem = *mem;
        let pte_flags = PTEFlags::from_bits(self.map_perm.bits as u16).unwrap();
        page_table.map(mem, vpn, ppn, pte_flags);
        proof {
            let b = pte_flags.bits;
            crate::pte::lemma_flag_bits(b);
            PageTableEntry::lemma_new_fields(ppn, pte_flags.with(PTE_V));
            assert(self.target(vpn.0) == ppn);
            assert forall|p: u64| self.owned().contains(p) implies mem.is_allocated(p)
                && !page_table.frame_set().contains(p) by {
                assert(mid_mem.is_allocated(p));
            }
            assert forall|v: u64| #[trigger] self.frames().contains_key(v) implies page_table.view(
                mem,
            ).contains_key(v) && page_table.view(mem)[v].spec_ppn().0 == self.frames()[v] by {
                if v != vpn.0 {
                    assert(old_self.frames().contains_key(v));
                }
            }
            let before = old_self.footprint(&old_pt);
            let after = self.footprint(page_table);
            assert(mem.same_outside(&old_mem, before + after)) by {
                assert forall|p: u64| !(before + after).contains(p) implies (
                #[trigger] mem.is_allocated(p) == old_mem.is_allocated(p)) by {
                    assert(!page_table.frame_set().contains(p));
                    assert(mem.is_allocated(p) == mid_mem.is_allocated(p));
                }
                assert forall|p: u64|
                    old_mem.managed(p) && !(before + after).contains(
                        p,
                    ) implies #[trigger] mem.words(p) == old_mem.words(p) by {
                    assert(!page_table.frame_set().contains(p));
                    assert(mem.words(p) == mid_mem.words(p));
                }
            }
            assert forall|p: u64| after.contains(p) && !before.contains(
                p,
            ) implies !old_mem.is_allocated(p) by {
                if page_table.frame_set().contains(p) {
                    assert(!mid_mem.is_allocated(p));
                }
            }
            if old_self.is_framed() {
                assert(mem.words(ppn.0) == mid_mem.words(ppn.0));
            }
            assert(self.wf());
            assert(self.inv(page_table, mem));
            assert forall|p: u64| #[trigger] old_self.owned().contains(p) implies mem.words(p)
                == old_mem.words(p) by {
                old_mem.lemma_allocated_managed(p);
                assert(self.owned().contains(p));
                assert(mid_mem.is_allocated(p));
                assert(!old_pt.frame_set().contains(p));
                assert(!page_table.frame_set().contains(p));
                assert(mid_mem.words(p) == old_mem.words(p));
                assert(mem.words(p) == mid_mem.words(p));
            }
        }
    }

    /// Unmaps page `vpn` and gives back the frame that the region owns for
    /// it, if any.
    #[verifier::rlimit(30)]
    pub fn unmap_one(&mut self, page_table: &mut PageTable, mem: &mut PhysMemory, vpn: VirtPageNum)
        requires
            old(self).inv(old(page_table), old(mem)),
            vpn.wf(),
            old(page_table).view(old(mem)).contains_key(vpn.0),
        ensures
            final(self).inv(final(page_table), final(mem)),
            final(self).same_shape(old(self)),
            final(self).retired_frames() == old(self).retired_frames(),
            final(self).frames() == old(self).frames().remove(vpn.0),
            final(self).owned() == if old(self).frames().contains_key(vpn.0) {
                old(self).owned().remove(old(self).frames()[vpn.0])
            } else {
                old(self).owned()
            },
            forall|p: u64| #[trigger]
                old(self).owned().contains(p) ==> final(mem).words(p) == old(mem).words(p),
            *final(page_table) == *old(page_table),
            final(page_table).view(final(mem)) == old(page_table).view(old(mem)).remove(vpn.0),
            final(page_table).tables(final(mem)) == old(page_table).tables(old(mem)),
            final(mem).stepped(
                old(mem),
                old(self).footprint(old(page_table)),
                final(self).footprint(final(page_table)),
            ),
            final(mem).free_count() + final(self).frame_total() + final(page_table).frame_total()
                == old(mem).free_count() + old(self).frame_total() + old(
                page_table,
            ).frame_total(),
    {
        let ghost old_self = *self;
        let ghost old_pt = *page_table;
        let ghost old_mem = *mem;
        proof {
            self.lemma_wf();
            page_table.lemma_frames_allocated(mem);
        }
        match self.map_type {
            MapType::Framed => {
                let removed = self.data_frames.remove(&vpn.0);
                if let Some(frame) = removed {
                    proof {
                        assert(old_self.data_frames@.contains_key(vpn.0));
                        assert(old_self.frames().contains_key(vpn.0));
                        assert(old_self.owned().contains(frame.ppn.0));
                    }
                    mem.frame_dealloc(frame);
                    self.owner = Ghost(self.owner@.remove(frame.ppn.0));
                    proof {
                        assert(self.frames() =~= old_self.frames().remove(vpn.0));
                        assert forall|i: int| 0 <= i < self.retired.len() implies old_self.retired[i].ppn.0
                            != frame.ppn.0 by {
                            assert(!old_self.owner@.contains_key(old_self.retired[i].ppn.0));
                        }
                        assert(!self.retired_frames().to_set().contains(frame.ppn.0)) by {
                            if self.retired_frames().to_set().contains(frame.ppn.0) {
                                let k = choose|k: int|
                                    0 <= k < self.retired_frames().len()
                                        && self.retired_frames()[k] == frame.ppn.0;
                                assert(old_self.retired[k].ppn.0 == frame.ppn.0);
                            }
                        }
                        assert(self.owned() =~= old_self.owned().remove(frame.ppn.0));
                        assert forall|v: u64| #[trigger]
                            self.data_frames@.contains_key(v) implies {
                            &&& self.vpn_range.contains(v)
                            &&& self.owner@.contains_key(self.data_frames@[v].ppn.0)
                            &&& self.owner@[self.data_frames@[v].ppn.0] == v
                        } by {
                            assert(old_self.data_frames@.contains_key(v));
                        }
                        assert forall|p: u64| #[trigger] self.owner@.contains_key(p) implies {
                            &&& self.data_frames@.contains_key(self.owner@[p])
                            &&& self.data_frames@[self.owner@[p]].ppn.0 == p
                        } by {
                            assert(old_self.owner@.contains_key(p));
                        }
                        assert(self.wf());
                    }
                } else {
                    proof {
                        assert(self.data_frames@ =~= old_self.data_frames@);
                        assert(self.frames() =~= old_self.frames().remove(vpn.0));
                    }
                }
            },
            _ => {
                proof {
                    assert(self.frames() =~= old_self.frames().remove(vpn.0));
                }
            },
        }
        let ghost mid_mem = *mem;
        proof {
            if old_self.is_framed() && old_self.frames().contains_key(vpn.0) {
                assert(old_self.owned().contains(old_self.frames()[vpn.0]));
                page_table.lemma_untouched(&old_mem, mem, set![old_self.frames()[vpn.0]]);
            }
        }
        page_table.unmap(mem, vpn);
        proof {
            assert forall|p: u64| self.owned().contains(p) implies mem.is_allocated(p)
                && !page_table.frame_set().contains(p) by {
                assert(old_self.owned().contains(p));
            }
            assert forall|v: u64| #[trigger] self.frames().contains_key(v) implies page_table.view(
                mem,
            ).contains_key(v) && page_table.view(mem)[v].spec_ppn().0 == self.frames()[v] by {
                assert(old_self.frames().contains_key(v));
            }
            let before = old_self.footprint(&old_pt);
            let after = self.footprint(page_table);
            assert(mem.same_outside(&old_mem, before + after)) by {
                assert forall|p: u64| !(before + after).contains(p) implies (
                #[trigger] mem.is_allocated(p) == old_mem.is_allocated(p)) by {
                    assert(mem.is_allocated(p) == mid_mem.is_allocated(p));
                }
                assert forall|p: u64|
                    old_mem.managed(p) && !(before + after).contains(
                        p,
                    ) implies #[trigger] mem.words(p) == old_mem.words(p) by {
                    assert(mem.words(p) == mid_mem.words(p));
                }
            }
            assert forall|p: u64| #[trigger] old_self.owned().contains(p) implies mem.words(p)
                == old_mem.words(p) by {
                old_mem.lemma_allocated_managed(p);
                assert(mem.words(p) == mid_mem.words(p));
                assert(mid_mem.words(p) == old_mem.words(p));
            }
        }
    }

    /// Maps every page of the region, lowest first.
    #[verifier::rlimit(30)]
    pub fn map(&mut self, page_table: &mut PageTable, mem: &mut PhysMemory)
        requires
            old(self).inv(old(page_table), old(mem)),
            forall|v: u64|
                old(self).contains(v) ==> !#[trigger] old(page_table).view(old(mem)).contains_key(v),
            old(mem).free_count() >= old(page_table).tables(old(mem)).map_cost(
                old(self).start() as int,
                old(self).end() as int,
                old(self).is_framed(),
            ),
        ensures
            final(self).inv(final(page_table), final(mem)),
            final(self).same_shape(old(self)),
            final(self).retired_frames() == old(self).retired_frames(),
            forall|v: u64|
                final(self).contains(v) ==> #[trigger] final(self).fresh_at(
                    final(page_table),
                    final(mem),
                    v,
                ),
            forall|v: u64|
                !final(self).contains(v) ==> {
                    &&& #[trigger] final(page_table).view(final(mem)).contains_key(v) == old(
                        page_table,
                    ).view(old(mem)).contains_key(v)
                    &&& final(page_table).view(final(mem))[v] == old(page_table).view(old(mem))[v]
                    &&& !final(self).frames().contains_key(v)
                },
            forall|p: u64| #[trigger]
                old(self).owned().contains(p) ==> final(self).owned().contains(p) && final(mem).words(p) == old(mem).words(p),
            final(page_table).tables(final(mem)) == old(page_table).tables(old(mem)).cover(
                old(self).start() as int,
                old(self).end() as int,
            ),
            final(page_table).root() == old(page_table).root(),
            old(page_table).frame_set().subset_of(final(page_table).frame_set()),
            final(mem).stepped(
                old(mem),
                old(self).footprint(old(page_table)),
                final(self).footprint(final(page_table)),
            ),
            final(mem).free_count() == old(mem).free_count() - old(page_table).tables(
                old(mem),
            ).map_cost(old(self).start() as int, old(self).end() as int, old(self).is_framed()),
            final(mem).free_count() + final(self).frame_total() + final(page_table).frame_total()
                == old(mem).free_count() + old(self).frame_total() + old(
                page_table,
            ).frame_total(),
    {
        let ghost old_self = *self;
        let ghost old_pt = *page_table;
        let ghost old_mem = *mem;
        let ghost ts = old_pt.tables(&old_mem);
        let ghost framed = old_self.is_framed();
        let ghost fp0 = old_self.footprint(&old_pt);
        let start: u64 = self.vpn_range.get_start().0;
        let end: u64 = self.vpn_range.get_end().0;
        let mut v: u64 = start;
        proof {
            self.lemma_wf();
            ts.lemma_cover_step(start as int, start as int);
            assert forall|u: u64| !old_self.frames().contains_key(u) by {
                if old_self.frames().contains_key(u) {
                    assert(old_self.contains(u));
                }
            }
        }
        while v < end
            invariant
                start <= v <= end <= VPN_LIMIT,
                start == old_self.start(),
                end == old_self.end(),
                ts == old_pt.tables(&old_mem),
                framed == old_self.is_framed(),
                fp0 == old_self.footprint(&old_pt),
                old_self.inv(&old_pt, &old_mem),
                self.inv(page_table, mem),
                self.same_shape(&old_self),
                self.retired_frames() == old_self.retired_frames(),
                forall|u: u64| start <= u < v ==> #[trigger] self.fresh_at(page_table, mem, u),
                forall|u: u64| v <= u < end ==> !#[trigger] page_table.view(mem).contains_key(u),
                forall|u: u64|
                    !(start <= u < end) ==> {
                        &&& #[trigger] page_table.view(mem).contains_key(u) == old_pt.view(
                            &old_mem,
                        ).contains_key(u)
                        &&& page_table.view(mem)[u] == old_pt.view(&old_mem)[u]
                    },
                forall|u: u64| #[trigger] self.frames().contains_key(u) ==> start <= u < v,
                forall|p: u64| #[trigger]
                    old_self.owned().contains(p) ==> self.owned().contains(p) && mem.words(p)
                        == old_mem.words(p),
                page_table.tables(mem) == ts.cover(start as int, v as int),
                page_table.root() == old_pt.root(),
                old_pt.frame_set().subset_of(page_table.frame_set()),
                mem.stepped(&old_mem, fp0, self.footprint(page_table)),
                fp0.subset_of(self.footprint(page_table)),
                mem.free_count() + ts.needed(start as int, start as int, end as int) + (if framed {
                    v - start
                } else {
                    0
                }) == old_mem.free_count() + ts.needed(start as int, v as int, end as int),
                old_mem.free_count() >= ts.map_cost(start as int, end as int, framed),
                mem.free_count() + self.frame_total() + page_table.frame_total()
                    == old_mem.free_count() + old_self.frame_total() + old_pt.frame_total(),
            decreases end - v,
        {
            let ghost mid_self = *self;
            let ghost mid_pt = *page_table;
            let ghost mid_mem = *mem;
            proof {
                ts.lemma_needed_step(start as int, v as int, end as int);
                ts.lemma_cover_step(start as int, v as int);
            }
            self.map_one(page_table, mem, VirtPageNum(v));
            proof {
                let fp1 = mid_self.footprint(&mid_pt);
                let fp2 = self.footprint(page_table);
                assert(fp1.subset_of(fp2)) by {
                    assert forall|p: u64| fp1.contains(p) implies fp2.contains(p) by {
                        if mid_pt.frame_set().contains(p) {
                            assert(page_table.frame_set().contains(p));
                        }
                    }
                }
                assert forall|u: u64| start <= u < v + 1 implies #[trigger] self.fresh_at(
                    page_table,
                    mem,
                    u,
                ) by {
                    if u != v {
                        assert(mid_self.fresh_at(&mid_pt, &mid_mem, u));
                        assert(mid_pt.view(&mid_mem).contains_key(u));
                        if framed {
                            assert(mid_self.frames().contains_key(u));
                            assert(mid_self.owned().contains(mid_self.frames()[u])) by {
                                mid_self.lemma_wf();
                            }
                        }
                    }
                }
                assert forall|p: u64| #[trigger] old_self.owned().contains(p) implies self.owned().contains(
                    p,
                ) && mem.words(p) == old_mem.words(p) by {
                    assert(mid_self.owned().contains(p));
                }
                assert(mem.stepped(&old_mem, fp0, fp2)) by {
                    assert forall|p: u64| !(fp0 + fp2).contains(p) implies (
                    #[trigger] mem.is_allocated(p) == old_mem.is_allocated(p)) by {
                        assert(!(fp1 + fp2).contains(p));
                        assert(mem.is_allocated(p) == mid_mem.is_allocated(p));
                    }
                    assert forall|p: u64|
                        old_mem.managed(p) && !(fp0 + fp2).contains(
                            p,
                        ) implies #[trigger] mem.words(p) == old_mem.words(p) by {
                        assert(!(fp1 + fp2).contains(p));
                        assert(mem.words(p) == mid_mem.words(p));
                    }
                    assert forall|p: u64| fp2.contains(p) && !fp0.contains(
                        p,
                    ) implies !old_mem.is_allocated(p) by {
                        if fp1.contains(p) {
                        } else {
                            assert(!mid_mem.is_allocated(p));
                            assert(!(fp0 + fp1).contains(p));
                        }
                    }
                }
            }
            v = v + 1;
        }
        proof {
            assert(ts.needed(start as int, end as int, end as int) == 0);
        }
    }

    /// Unmaps every page of the region, lowest first, and gives back the
    /// frames that back them.
    #[verifier::rlimit(30)]
    pub fn unmap(&mut self, page_table: &mut PageTable, mem: &mut PhysMemory)
        requires
            old(self).inv(old(page_table), old(mem)),
            forall|v: u64|
                old(self).contains(v) ==> #[trigger] old(page_table).view(old(mem)).contains_key(v),
        ensures
            final(self).inv(final(page_table), final(mem)),
            final(self).same_shape(old(self)),
            final(self).retired_frames() == old(self).retired_frames(),
            final(self).frames() == Map::<u64, u64>::empty(),
            forall|p: u64| #[trigger]
                final(self).owned().contains(p) ==> old(self).owned().contains(p),
            forall|v: u64|
                old(self).frames().contains_key(v) ==> !final(self).owned().contains(
                    #[trigger] old(self).frames()[v],
                ),
            forall|p: u64| #[trigger]
                old(self).owned().contains(p) ==> final(mem).words(p) == old(mem).words(p),
            *final(page_table) == *old(page_table),
            forall|v: u64| #[trigger]
                final(page_table).view(final(mem)).contains_key(v) == (old(page_table).view(
                    old(mem),
                ).contains_key(v) && !old(self).contains(v)),
            forall|v: u64|
                !old(self).contains(v) ==> #[trigger] final(page_table).view(final(mem))[v] == old(
                    page_table,
                ).view(old(mem))[v],
            final(page_table).tables(final(mem)) == old(page_table).tables(old(mem)),
            final(mem).stepped(
                old(mem),
                old(self).footprint(old(page_table)),
                final(self).footprint(final(page_table)),
            ),
            final(mem).free_count() + final(self).frame_total() + final(page_table).frame_total()
                == old(mem).free_count() + old(self).frame_total() + old(
                page_table,
            ).frame_total(),
    {
        let ghost old_self = *self;
        let ghost old_pt = *page_table;
        let ghost old_mem = *mem;
        let ghost fp0 = old_self.footprint(&old_pt);
        let start: u64 = self.vpn_range.get_start().0;
        let end: u64 = self.vpn_range.get_end().0;
        let mut v: u64 = start;
        proof {
            self.lemma_wf();
            page_table.lemma_frames_allocated(mem);
        }
        while v < end
            invariant
                start <= v <= end <= VPN_LIMIT,
                start == old_self.start(),
                end == old_self.end(),
                fp0 == old_self.footprint(&old_pt),
                old_self.inv(&old_pt, &old_mem),
                self.inv(page_table, mem),
                self.same_shape(&old_self),
                self.retired_frames() == old_self.retired_frames(),
                *page_table == old_pt,
                old_mem.wf(),
                forall|u: u64|
                    start <= u < end ==> #[trigger] old_pt.view(&old_mem).contains_key(u),
                forall|u: u64|
                    #![trigger self.frames().contains_key(u)]
                    self.frames().contains_key(u) == (old_self.frames().contains_key(u) && v <= u),
                forall|u: u64|
                    self.frames().contains_key(u) ==> #[trigger] self.frames()[u]
                        == old_self.frames()[u],
                forall|p: u64| #[trigger] self.owned().contains(p) ==> old_self.owned().contains(p),
                forall|u: u64|
                    old_self.frames().contains_key(u) && u < v ==> !self.owned().contains(
                        #[trigger] old_self.frames()[u],
                    ),
                forall|p: u64| #[trigger]
                    old_self.owned().contains(p) ==> mem.words(p) == old_mem.words(p),
                forall|u: u64| #[trigger]
                    page_table.view(mem).contains_key(u) == (old_pt.view(&old_mem).contains_key(u)
                        && !(start <= u < v)),
                forall|u: u64|
                    !(start <= u < v) ==> #[trigger] page_table.view(mem)[u] == old_pt.view(
                        &old_mem,
                    )[u],
                page_table.tables(mem) == old_pt.tables(&old_mem),
                mem.stepped(&old_mem, fp0, self.footprint(page_table)),
                self.footprint(page_table).subset_of(fp0),
                mem.free_count() + self.frame_total() + page_table.frame_total()
                    == old_mem.free_count() + old_self.frame_total() + old_pt.frame_total(),
            decreases end - v,
        {
            let ghost mid_self = *self;
            let ghost mid_mem = *mem;
            proof {
                assert(old_self.contains(v));
                assert(old_pt.view(&old_mem).contains_key(v));
                assert(page_table.view(mem).contains_key(v));
            }
            self.unmap_one(page_table, mem, VirtPageNum(v));
            proof {
                let fp1 = mid_self.footprint(&old_pt);
                let fp2 = self.footprint(page_table);
                assert(fp2.subset_of(fp1));
                assert forall|u: u64|
                    old_self.frames().contains_key(u) && u < v + 1 implies !self.owned().contains(
                    #[trigger] old_self.frames()[u],
                ) by {
                    if u == v {
                        assert(mid_self.frames().contains_key(v));
                    } else {
                        assert(!mid_self.owned().contains(old_self.frames()[u]));
                    }
                }
                assert forall|p: u64| #[trigger] old_self.owned().contains(p) implies mem.words(p)
                    == old_mem.words(p) by {
                    old_mem.lemma_allocated_managed(p);
                    if mid_self.owned().contains(p) {
                    } else {
                        assert(fp0.contains(p));
                        if fp1.contains(p) {
                            assert(old_pt.frame_set().contains(p));
                            assert(false);
                        }
                        assert(!(fp1 + fp2).contains(p));
                        assert(mem.words(p) == mid_mem.words(p));
                    }
                }
                assert(mem.stepped(&old_mem, fp0, fp2)) by {
                    assert forall|p: u64| !(fp0 + fp2).contains(p) implies (
                    #[trigger] mem.is_allocated(p) == old_mem.is_allocated(p)) by {
                        assert(!(fp1 + fp2).contains(p));
                        assert(mem.is_allocated(p) == mid_mem.is_allocated(p));
                    }
                    assert forall|p: u64|
                        old_mem.managed(p) && !(fp0 + fp2).contains(
                            p,
                        ) implies #[trigger] mem.words(p) == old_mem.words(p) by {
                        assert(!(fp1 + fp2).contains(p));
                        assert(mem.words(p) == mid_mem.words(p));
                    }
                    assert forall|p: u64| fp0.contains(p) && !fp2.contains(
                        p,
                    ) implies !mem.is_allocated(p) by {
                        if fp1.contains(p) {
                        } else {
                            assert(!mid_mem.is_allocated(p));
                            assert(!(fp1 + fp2).contains(p));
                            assert(mem.is_allocated(p) == mid_mem.is_allocated(p));
                        }
                    }
                }
            }
            v = v + 1;
        }
        proof {
            assert(self.frames() =~= Map::<u64, u64>::empty()) by {
                assert forall|u: u64| !self.frames().contains_key(u) by {
                    if old_self.frames().contains_key(u) {
                        assert(old_self.contains(u));
                    }
                }
            }
        }
    }

    /// Writes `data` to the pages of the region from its first page on, a
    /// page at a time, and stops where `data` ends. What lies behind the
    /// last byte written stays as it was.
    #[verifier::rlimit(30)]
    pub fn copy_data(&mut self, page_table: &mut PageTable, mem: &mut PhysMemory, data: &[u8])
        requires
            old(self).inv(old(page_table), old(mem)),
            old(self).is_framed(),
            old(self).start() < old(self).end(),
            data.len() <= (old(self).end() - old(self).start()) * 4096,
            forall|v: u64| old(self).contains(v) ==> #[trigger] old(self).frames().contains_key(v),
        ensures
            *final(self) == *old(self),
            *final(page_table) == *old(page_table),
            final(self).inv(final(page_table), final(mem)),
            final(page_table).view(final(mem)) == old(page_table).view(old(mem)),
            final(page_table).tables(final(mem)) == old(page_table).tables(old(mem)),
            forall|v: u64|
                old(self).contains(v) ==> #[trigger] final(mem).bytes(old(self).frames()[v])
                    == overlay(
                    old(mem).bytes(old(self).frames()[v]),
                    data@,
                    (v - old(self).start()) * 4096,
                ),
            forall|p: u64| final(mem).is_allocated(p) == old(mem).is_allocated(p),
            final(mem).same_outside(old(mem), old(self).owned()),
            final(mem).free_count() == old(mem).free_count(),
    {
        let ghost old_mem = *mem;
        let ghost first = self.start();
        let len: usize = data.len();
        let mut start: usize = 0;
        let mut current_vpn: VirtPageNum = self.vpn_range.get_start();
        proof {
            self.lemma_wf();
            page_table.lemma_frames_allocated(mem);
        }
        loop
            invariant_except_break
                start <= len,
                start == (current_vpn.0 - first) * 4096,
                forall|v: u64|
                    self.contains(v) && v < current_vpn.0 ==> #[trigger] mem.bytes(
                        self.frames()[v],
                    ) == overlay(old_mem.bytes(self.frames()[v]), data@, (v - first) * 4096),
                forall|v: u64|
                    self.contains(v) && v >= current_vpn.0 ==> #[trigger] mem.words(
                        self.frames()[v],
                    ) == old_mem.words(self.frames()[v]),
            invariant
                first == self.start(),
                len == data.len(),
                self.contains(current_vpn.0),
                self.wf(),
                old_mem.wf(),
                mem.wf(),
                self.inv(page_table, &old_mem),
                self.inv(page_table, mem),
                len <= (self.end() - self.start()) * 4096,
                forall|v: u64| self.contains(v) ==> #[trigger] self.frames().contains_key(v),
                page_table.view(mem) == page_table.view(&old_mem),
                page_table.tables(mem) == page_table.tables(&old_mem),
                forall|p: u64| mem.is_allocated(p) == old_mem.is_allocated(p),
                mem.same_outside(&old_mem, self.owned()),
                mem.free_count() == old_mem.free_count(),
            ensures
                forall|v: u64|
                    self.contains(v) ==> #[trigger] mem.bytes(self.frames()[v]) == overlay(
                        old_mem.bytes(self.frames()[v]),
                        data@,
                        (v - first) * 4096,
                    ),
            decreases len - start,
        {
            let ghost mid_mem = *mem;
            let ghost cur = current_vpn.0;
            proof {
                assert(self.frames().contains_key(cur));
                assert(self.owned().contains(self.frames()[cur]));
                mem.lemma_allocated_managed(self.frames()[cur]);
            }
            let ppn = page_table.translate(mem, current_vpn).unwrap().ppn();
            write_page(mem, ppn, data, start);
            proof {
                page_table.lemma_untouched(&mid_mem, mem, set![ppn.0]);
                assert forall|v: u64| self.contains(v) && v != cur implies mem.words(
                    self.frames()[v],
                ) == mid_mem.words(self.frames()[v]) by {
                    assert(self.frames().contains_key(v));
                    assert(self.owned().contains(self.frames()[v]));
                    mid_mem.lemma_allocated_managed(self.frames()[v]);
                }
                assert(mem.same_outside(&old_mem, self.owned()));
                assert(ppn.0 == self.frames()[cur]);
                assert(mid_mem.words(ppn.0) == old_mem.words(ppn.0));
                assert forall|v: u64| self.contains(v) && v < cur + 1 implies #[trigger] mem.bytes(
                    self.frames()[v],
                ) == overlay(old_mem.bytes(self.frames()[v]), data@, (v - first) * 4096) by {
                    if v < cur {
                        assert(mem.words(self.frames()[v]) == mid_mem.words(self.frames()[v]));
                        assert(mid_mem.bytes(self.frames()[v]) == overlay(
                            old_mem.bytes(self.frames()[v]),
                            data@,
                            (v - first) * 4096,
                        ));
                    }
                }
                assert forall|v: u64| self.contains(v) && v >= cur + 1 implies #[trigger] mem.words(
                    self.frames()[v],
                ) == old_mem.words(self.frames()[v]) by {
                    assert(mem.words(self.frames()[v]) == mid_mem.words(self.frames()[v]));
                    assert(mid_mem.words(self.frames()[v]) == old_mem.words(self.frames()[v]));
                }
            }
            if len - start <= 4096 {
                proof {
                    assert forall|v: u64| self.contains(v) implies #[trigger] mem.bytes(
                        self.frames()[v],
                    ) == overlay(old_mem.bytes(self.frames()[v]), data@, (v - first) * 4096) by {
                        if v > cur {
                            assert(mem.words(self.frames()[v]) == old_mem.words(self.frames()[v]));
                            assert((v - first) * 4096 >= len);
                            assert(mem.bytes(self.frames()[v]) =~= overlay(
                                old_mem.bytes(self.frames()[v]),
                                data@,
                                (v - first) * 4096,
                            ));
                        }
                    }
                }
                break ;
            }
            start = start + 4096;
            current_vpn = VirtPageNum(current_vpn.0 + 1);
        }
    }

    /// Makes `frame` the frame of page `vpn`. The frame that the page had,
    /// if any, moves to the retired frames: another address space may still
    /// map it.
    #[verifier::rlimit(30)]
    pub fn adopt(&mut self, vpn: VirtPageNum, frame: FrameTracker)
        requires
            old(self).wf(),
            old(self).is_framed(),
            old(self).contains(vpn.0),
            !old(self).owned().contains(frame.ppn.0),
        ensures
            final(self).wf(),
            final(self).same_shape(old(self)),
            final(self).frames() == old(self).frames().insert(vpn.0, frame.ppn.0),
            final(self).retired_frames() == if old(self).frames().contains_key(vpn.0) {
                old(self).retired_frames().push(old(self).frames()[vpn.0])
            } else {
                old(self).retired_frames()
            },
            final(self).owned() == old(self).owned().insert(frame.ppn.0),
            final(self).frame_total() == old(self).frame_total() + 1,
    {
        let ghost old_self = *self;
        let replaced = self.data_frames.insert(vpn.0, frame);
        proof {
            assert(self.frames() =~= old_self.frames().insert(vpn.0, frame.ppn.0));
            assert(!old_self.owner@.contains_key(frame.ppn.0));
            assert forall|i: int| 0 <= i < old_self.retired.len() implies old_self.retired[i].ppn.0
                != frame.ppn.0 by {
                assert(old_self.retired_frames()[i] == old_self.retired[i].ppn.0);
                assert(old_self.retired_frames().to_set().contains(old_self.retired[i].ppn.0));
            }
        }
        match replaced {
            Some(former) => {
                self.retired.push(former);
                self.owner = Ghost(self.owner@.remove(former.ppn.0).insert(frame.ppn.0, vpn.0));
                proof {
                    assert(old_self.data_frames@.contains_key(vpn.0));
                    assert(self.retired_frames() =~= old_self.retired_frames().push(former.ppn.0));
                    assert(self.owned() =~= old_self.owned().insert(frame.ppn.0)) by {
                        assert forall|p: u64| self.owned().contains(p) == old_self.owned().insert(
                            frame.ppn.0,
                        ).contains(p) by {
                            if p == former.ppn.0 {
                                assert(self.retired_frames()[old_self.retired.len() as int] == p);
                            } else if old_self.retired_frames().to_set().contains(p) {
                                let k = choose|k: int|
                                    0 <= k < old_self.retired_frames().len()
                                        && old_self.retired_frames()[k] == p;
                                assert(self.retired_frames()[k] == p);
                            } else if self.retired_frames().to_set().contains(p) {
                                let k = choose|k: int|
                                    0 <= k < self.retired_frames().len() && self.retired_frames()[k]
                                        == p;
                                assert(old_self.retired_frames()[k] == p);
                            }
                        }
                    }
                    assert forall|v: u64| #[trigger]
                        self.data_frames@.contains_key(v) implies {
                        &&& self.vpn_range.contains(v)
                        &&& self.owner@.contains_key(self.data_frames@[v].ppn.0)
                        &&& self.owner@[self.data_frames@[v].ppn.0] == v
                    } by {
                        if v != vpn.0 {
                            assert(old_self.data_frames@.contains_key(v));
                        }
                    }
                    assert forall|p: u64| #[trigger] self.owner@.contains_key(p) implies {
                        &&& self.data_frames@.contains_key(self.owner@[p])
                        &&& self.data_frames@[self.owner@[p]].ppn.0 == p
                    } by {
                        if p != frame.ppn.0 {
                            assert(old_self.owner@.contains_key(p));
                        }
                    }
                    assert forall|i: int, j: int|
                        0 <= i < self.retired.len() && 0 <= j < self.retired.len() && i
                            != j implies self.retired[i].ppn.0 != self.retired[j].ppn.0 by {
                        if i < old_self.retired.len() {
                            assert(!old_self.owner@.contains_key(old_self.retired[i].ppn.0));
                        }
                        if j < old_self.retired.len() {
                            assert(!old_self.owner@.contains_key(old_self.retired[j].ppn.0));
                        }
                    }
                    assert forall|i: int| 0 <= i < self.retired.len() implies !self.owner@.contains_key(
                        #[trigger] self.retired[i].ppn.0,
                    ) by {
                        if i < old_self.retired.len() {
                            assert(!old_self.owner@.contains_key(old_self.retired[i].ppn.0));
                        }
                    }
                }
            },
            None => {
                self.owner = Ghost(self.owner@.insert(frame.ppn.0, vpn.0));
                proof {
                    assert(self.owned() =~= old_self.owned().insert(frame.ppn.0));
                    assert forall|v: u64| #[trigger]
                        self.data_frames@.contains_key(v) implies {
                        &&& self.vpn_range.contains(v)
                        &&& self.owner@.contains_key(self.data_frames@[v].ppn.0)
                        &&& self.owner@[self.data_frames@[v].ppn.0] == v
                    } by {
                        if v != vpn.0 {
                            assert(old_self.data_frames@.contains_key(v));
                        }
                    }
                    assert forall|p: u64| #[trigger] self.owner@.contains_key(p) implies {
                        &&& self.data_frames@.contains_key(self.owner@[p])
                        &&& self.data_frames@[self.owner@[p]].ppn.0 == p
                    } by {
                        if p != frame.ppn.0 {
                            assert(old_self.owner@.contains_key(p));
                        }
                    }
                    assert forall|i: int| 0 <= i < self.retired.len() implies !self.owner@.contains_key(
                        #[trigger] self.retired[i].ppn.0,
                    ) by {
                        assert(!old_self.owner@.contains_key(old_self.retired[i].ppn.0));
                    }
                }
            },
        }
    }

    /// Gives every frame of the region back to `mem`. No page table is
    /// touched: entries that pointed at these frames go on pointing there.
    #[verifier::rlimit(30)]
    pub fn release(self, mem: &mut PhysMemory)
        requires
            self.wf(),
            old(mem).wf(),
            forall|p: u64| #[trigger] self.owned().contains(p) ==> old(mem).is_allocated(p),
        ensures
            final(mem).wf(),
            final(mem).stepped(old(mem), self.owned(), Set::<u64>::empty()),
            forall|p: u64| old(mem).managed(p) ==> #[trigger] final(mem).words(p) == old(mem).words(p),
            final(mem).free_count() == old(mem).free_count() + self.frame_total(),
    {
        let ghost old_mem = *mem;
        let ghost old_self = self;
        let mut area = self;
        let start: u64 = area.vpn_range.get_start().0;
        let end: u64 = area.vpn_range.get_end().0;
        let mut v: u64 = start;
        while v < end
            invariant
                start <= v <= end,
                start == old_self.vpn_range.start(),
                end == old_self.vpn_range.end(),
                old_self.wf(),
                mem.wf(),
                area.retired == old_self.retired,
                area.data_frames@.dom().finite(),
                forall|u: u64| #[trigger]
                    area.data_frames@.contains_key(u) == (old_self.data_frames@.contains_key(u)
                        && u >= v),
                forall|u: u64|
                    area.data_frames@.contains_key(u) ==> #[trigger] area.data_frames@[u]
                        == old_self.data_frames@[u],
                mem.same_range(&old_mem),
                forall|p: u64| old_mem.managed(p) ==> #[trigger] mem.words(p) == old_mem.words(p),
                forall|p: u64| #[trigger]
                    mem.is_allocated(p) == (old_mem.is_allocated(p) && !(old_self.owner@.contains_key(p)
                        && old_self.owner@[p] < v)),
                forall|p: u64| #[trigger] old_self.owned().contains(p) ==> old_mem.is_allocated(p),
                mem.free_count() + area.data_frames@.len() == old_mem.free_count()
                    + old_self.data_frames@.len(),
            decreases end - v,
        {
            let ghost prev = area.data_frames@;
            let removed = area.data_frames.remove(&v);
            if let Some(frame) = removed {
                proof {
                    assert(old_self.data_frames@.contains_key(v));
                    assert(old_self.owner@.contains_key(frame.ppn.0));
                    assert(old_self.owned().contains(frame.ppn.0));
                    prev.lemma_remove_key_len(v);
                }
                let ghost mid = *mem;
                mem.frame_dealloc(frame);
                proof {
                    assert forall|p: u64| #[trigger]
                        mem.is_allocated(p) == (old_mem.is_allocated(p) && !(
                        old_self.owner@.contains_key(p) && old_self.owner@[p] < v + 1)) by {
                        if p != frame.ppn.0 {
                            assert(mem.is_allocated(p) == mid.is_allocated(p));
                            if old_self.owner@.contains_key(p) {
                                assert(old_self.data_frames@.contains_key(old_self.owner@[p]));
                            }
                        }
                    }
                    assert forall|p: u64| old_mem.managed(p) implies #[trigger] mem.words(p)
                        == old_mem.words(p) by {
                        assert(mem.words(p) == mid.words(p));
                    }
                }
            } else {
                proof {
                    assert(area.data_frames@ =~= prev);
                    assert forall|p: u64| #[trigger]
                        mem.is_allocated(p) == (old_mem.is_allocated(p) && !(
                        old_self.owner@.contains_key(p) && old_self.owner@[p] < v + 1)) by {
                        if old_self.owner@.contains_key(p) {
                            assert(old_self.data_frames@.contains_key(old_self.owner@[p]));
                        }
                    }
                }
            }
            v = v + 1;
        }
        proof {
            assert(area.data_frames@ =~= Map::<u64, FrameTracker>::empty()) by {
                assert forall|u: u64| !area.data_frames@.contains_key(u) by {
                    if old_self.data_frames@.contains_key(u) {
                        assert(old_self.vpn_range.contains(u));
                    }
                }
            }
        }
        let n = area.retired.len();
        let mut i: usize = 0;
        while i < n
            invariant
                i <= n,
                n == area.retired.len(),
                area.retired == old_self.retired,
                old_self.wf(),
                mem.wf(),
                mem.same_range(&old_mem),
                forall|p: u64| old_mem.managed(p) ==> #[trigger] mem.words(p) == old_mem.words(p),
                forall|p: u64| #[trigger] old_self.owned().contains(p) ==> old_mem.is_allocated(p),
                forall|p: u64| #[trigger]
                    mem.is_allocated(p) == (old_mem.is_allocated(p) && !old_self.owner@.contains_key(
                        p,
                    ) && !(exists|k: int| 0 <= k < i && old_self.retired[k].ppn.0 == p)),
                mem.free_count() == old_mem.free_count() + old_self.data_frames@.len() + i,
            decreases n - i,
        {
            let frame = area.retired[i];
            proof {
                assert(old_self.retired_frames()[i as int] == frame.ppn.0);
                assert(old_self.retired_frames().to_set().contains(frame.ppn.0));
                assert(old_self.owned().contains(frame.ppn.0));
                assert(!old_self.owner@.contains_key(old_self.retired[i as int].ppn.0));
            }
            let ghost mid = *mem;
            mem.frame_dealloc(frame);
            proof {
                assert forall|p: u64| old_mem.managed(p) implies #[trigger] mem.words(p)
                    == old_mem.words(p) by {
                    assert(mem.words(p) == mid.words(p));
                }
                assert forall|p: u64| #[trigger]
                    mem.is_allocated(p) == (old_mem.is_allocated(p) && !old_self.owner@.contains_key(
                    p,
                ) && !(exists|k: int| 0 <= k < i + 1 && old_self.retired[k].ppn.0 == p)) by {
                    if p == frame.ppn.0 {
                        assert(old_self.retired[i as int].ppn.0 == p);
                    } else {
                        assert(mem.is_allocated(p) == mid.is_allocated(p));
                    }
                }
            }
            i += 1;
        }
        proof {
            assert forall|p: u64| old_self.owned().contains(p) implies !mem.is_allocated(p) by {
                if old_self.retired_frames().to_set().contains(p) {
                    let k = choose|k: int|
                        0 <= k < old_self.retired_frames().len() && old_self.retired_frames()[k]
                            == p;
                    assert(old_self.retired[k].ppn.0 == p);
                }
            }
            assert forall|p: u64| !old_self.owned().contains(p) implies (#[trigger] mem.is_allocated(
                p,
            ) == old_mem.is_allocated(p)) by {
                if exists|k: int| 0 <= k < n && old_self.retired[k].ppn.0 == p {
                    let k = choose|k: int| 0 <= k < n && old_self.retired[k].ppn.0 == p;
                    assert(old_self.retired_frames()[k] == p);
                    assert(old_self.retired_frames().to_set().contains(p));
                }
            }
        }
    }

    /// A copy of the region's description: the same range, policy and
    /// permissions, and the same frame numbers. Copying hands out no frame
    /// and moves none.
    pub fn duplicate(&self) -> (r: Self)
        ensures
            r.same_shape(self),
            r.frames() == self.frames(),
            r.retired_frames() == self.retired_frames(),
            r.owned() == self.owned(),
            r.frame_total() == self.frame_total(),
            self.wf() ==> r.wf(),
    {
        let mut retired: Vec<FrameTracker> = Vec::new();
        let mut i: usize = 0;
        while i < self.retired.len()
            invariant
                i <= self.retired.len(),
                retired@ == self.retired@.subrange(0, i as int),
            decreases self.retired.len() - i,
        {
            retired.push(self.retired[i]);
            proof {
                assert(retired@ =~= self.retired@.subrange(0, i + 1));
            }
            i += 1;
        }
        proof {
            assert(retired@ =~= self.retired@);
        }
        let r = MapArea {
            vpn_range: self.vpn_range,
            data_frames: self.data_frames.clone(),
            retired,
            map_type: self.map_type,
            map_perm: self.map_perm,
            owner: Ghost(self.owner@),
        };
        proof {
            assert(r.frames() =~= self.frames());
            assert(r.vpn_range.start() == self.vpn_range.start());
            assert(r.vpn_range.end() == self.vpn_range.end());
        }
        r
    }
}

} // verus!
