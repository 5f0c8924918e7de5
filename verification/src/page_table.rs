//! The three-level Sv39 page table of one address space, kept in the frames
//! of a [`PhysMemory`].

use vstd::prelude::*;
use crate::address::{PhysPageNum, VirtPageNum};
use crate::config::{PPN_LIMIT, VPN_LIMIT};
use crate::frame::{zero_words, FrameTracker, PhysMemory};
use crate::pte::{PTEFlags, PageTableEntry, PTE_COW, PTE_V, PTE_W};

verus! {

/// What the table knows of one of its node frames: its level (2 is the
/// root, 0 holds leaf entries), the virtual-page prefix that leads to it,
/// and its place in the list of owned frames.
pub struct NodeInfo {
    pub level: int,
    pub prefix: int,
    pub slot: int,
}

/// Which interior nodes of a page table exist: the root indexes that have a
/// level-1 node, and the page prefixes (page number / 512) that have a
/// level-0 node.
#[verifier::ext_equal]
pub struct TableSet {
    pub l1: Set<int>,
    pub l0: Set<int>,
}

impl TableSet {
    /// No node but the root.
    pub open spec fn empty() -> TableSet {
        TableSet { l1: Set::empty(), l0: Set::empty() }
    }

    /// Number of nodes that walks to the pages `[v, end)` create, one page
    /// after the other, when the pages `[start, v)` were walked to before.
    pub open spec fn needed(self, start: int, v: int, end: int) -> nat
        decreases end - v,
    {
        if v >= end {
            0
        } else {
            let a: nat = if self.l1.contains(v / 262144) || (start < v && v % 262144 != 0) {
                0
            } else {
                1
            };
            let b: nat = if self.l0.contains(v / 512) || (start < v && v % 512 != 0) {
                0
            } else {
                1
            };
            a + b + self.needed(start, v + 1, end)
        }
    }

    /// The nodes after walks to the pages `[start, end)`.
    pub open spec fn cover(self, start: int, end: int) -> TableSet {
        TableSet {
            l1: Set::new(
                |i: int|
                    self.l1.contains(i) || (start < end && start / 262144 <= i <= (end - 1)
                        / 262144),
            ),
            l0: Set::new(
                |q: int|
                    self.l0.contains(q) || (start < end && start / 512 <= q <= (end - 1) / 512),
            ),
        }
    }

    /// Number of frames that mapping the pages `[start, end)` takes: the
    /// nodes to create, and one frame for each page where `framed`.
    pub open spec fn map_cost(self, start: int, end: int, framed: bool) -> nat {
        self.needed(start, start, end) + if framed && start < end {
            (end - start) as nat
        } else {
            0
        }
    }

    /// A walk creates two nodes at most: mapping the pages `[v, end)`
    /// takes no more than two nodes for each page.
    pub proof fn lemma_needed_bound(self, start: int, v: int, end: int)
        ensures
            self.needed(start, v, end) <= 2 * (end - v) || v >= end,
            v >= end ==> self.needed(start, v, end) == 0,
        decreases end - v,
    {
        if v < end {
            self.lemma_needed_bound(start, v + 1, end);
        }
    }

    /// Covering `[start, v)` and then page `v` covers `[start, v + 1)`.
    pub proof fn lemma_cover_step(self, start: int, v: int)
        requires
            0 <= start <= v,
        ensures
            self.cover(start, v).cover(v, v + 1) == self.cover(start, v + 1),
            self.cover(start, start) == self,
            self.cover(start, v).needed(v, v, v + 1) + self.needed(start, v + 1, v + 1)
                == self.needed(start, v, v + 1),
    {
        assert(self.cover(start, v).cover(v, v + 1) =~= self.cover(start, v + 1));
        assert(self.cover(start, start) =~= self);
        assert(self.cover(start, v).needed(v, v + 1, v + 1) == 0);
        assert(self.needed(start, v + 1, v + 1) == 0);
    }

    /// The nodes for `[v, end)` are those for page `v` and then those for
    /// the rest.
    pub proof fn lemma_needed_step(self, start: int, v: int, end: int)
        requires
            0 <= start <= v < end,
        ensures
            self.needed(start, v, end) == self.cover(start, v).needed(v, v, v + 1) + self.needed(
                start,
                v + 1,
                end,
            ),
    {
        assert(self.cover(start, v).needed(v, v + 1, v + 1) == 0);
    }
}

/// A page table: the root frame and every interior node frame that walks
/// have created. Leaf entries point at frames that the table does not own.
pub struct PageTable {
    root_ppn: PhysPageNum,
    frames: Vec<FrameTracker>,
    nodes: Ghost<Map<u64, NodeInfo>>,
}

/// Entry `i` of the node in frame `node`.
pub open spec fn entry_at(mem: &PhysMemory, node: u64, i: int) -> PageTableEntry {
    PageTableEntry { bits: mem.words(node)[i] }
}

/// The frame that entry `i` of `node` points to, if the entry is valid.
pub open spec fn child_at(mem: &PhysMemory, node: u64, i: int) -> Option<u64> {
    let e = entry_at(mem, node, i);
    if e.spec_is_valid() {
        Some(e.spec_ppn().0)
    } else {
        None
    }
}

impl PageTable {
    /// Number of the root frame.
    pub closed spec fn root(&self) -> u64 {
        self.root_ppn.0
    }

    /// The frames that the table owns: the root and the interior nodes.
    pub closed spec fn frame_set(&self) -> Set<u64> {
        self.nodes@.dom()
    }

    /// The level-1 node for the pages whose root index is `i2`.
    pub closed spec fn table1(&self, mem: &PhysMemory, i2: int) -> Option<u64> {
        child_at(mem, self.root_ppn.0, i2)
    }

    /// The level-0 node for the pages `[prefix * 512, prefix * 512 + 512)`.
    pub closed spec fn table0(&self, mem: &PhysMemory, prefix: int) -> Option<u64> {
        match self.table1(mem, prefix / 512) {
            None => None,
            Some(n1) => child_at(mem, n1, prefix % 512),
        }
    }

    /// The valid leaf entry of page `vpn`, if the walk finds one.
    pub closed spec fn lookup(&self, mem: &PhysMemory, vpn: u64) -> Option<PageTableEntry> {
        match self.table0(mem, vpn as int / 512) {
            None => None,
            Some(n0) => {
                let e = entry_at(mem, n0, vpn as int % 512);
                if e.spec_is_valid() {
                    Some(e)
                } else {
                    None
                }
            },
        }
    }

    /// The mappings of the table: each mapped page with its leaf entry.
    pub open spec fn view(&self, mem: &PhysMemory) -> Map<u64, PageTableEntry> {
        Map::new(
            |v: u64| v < VPN_LIMIT && self.lookup(mem, v) is Some,
            |v: u64| self.lookup(mem, v)->0,
        )
    }

    /// Number of node frames that a walk to `vpn` has to create.
    pub open spec fn missing_tables(&self, mem: &PhysMemory, vpn: u64) -> nat {
        let a: nat = if self.table1(mem, vpn as int / 262144) is None {
            1
        } else {
            0
        };
        let b: nat = if self.table0(mem, vpn as int / 512) is None {
            1
        } else {
            0
        };
        a + b
    }

    spec fn link_ok(&self, mem: &PhysMemory, p: u64, i: int) -> bool {
        let e = entry_at(mem, p, i);
        e.spec_is_valid() ==> {
            &&& self.nodes@.contains_key(e.spec_ppn().0)
            &&& self.nodes@[e.spec_ppn().0].level == self.nodes@[p].level - 1
            &&& self.nodes@[e.spec_ppn().0].prefix == self.nodes@[p].prefix * 512 + i
        }
    }

    spec fn node_ok(&self, mem: &PhysMemory, p: u64) -> bool {
        let info = self.nodes@[p];
        &&& mem.is_allocated(p)
        &&& 0 <= info.slot < self.frames.len()
        &&& self.frames[info.slot].ppn.0 == p
        &&& 0 <= info.level <= 2
        &&& info.level == 2 ==> p == self.root_ppn.0
        &&& info.level >= 1 ==> forall|i: int| 0 <= i < 512 ==> #[trigger] self.link_ok(mem, p, i)
    }

    /// The table is a tree of allocated frames of `mem`: the root at level
    /// 2, and every valid entry of a node above level 0 points to an owned
    /// node one level down, which no other entry points to.
    pub closed spec fn wf(&self, mem: &PhysMemory) -> bool {
        &&& mem.wf()
        &&& self.frames.len() >= 1
        &&& self.nodes@.contains_key(self.root_ppn.0)
        &&& self.nodes@[self.root_ppn.0] == NodeInfo { level: 2, prefix: 0, slot: 0 }
        &&& forall|i: int|
            0 <= i < self.frames.len() ==> {
                &&& self.nodes@.contains_key(#[trigger] self.frames[i].ppn.0)
                &&& self.nodes@[self.frames[i].ppn.0].slot == i
            }
        &&& forall|p: u64| #[trigger] self.nodes@.contains_key(p) ==> self.node_ok(mem, p)
    }

    /// The frames of a well-formed table are allocated.
    pub proof fn lemma_frames_allocated(&self, mem: &PhysMemory)
        requires
            self.wf(mem),
        ensures
            mem.wf(),
            self.frame_set().contains(self.root()),
            forall|p: u64| self.frame_set().contains(p) ==> mem.is_allocated(p) && mem.managed(p),
    {
        assert forall|p: u64| self.frame_set().contains(p) implies mem.is_allocated(p)
            && mem.managed(p) by {
            assert(self.nodes@.contains_key(p));
            assert(self.node_ok(mem, p));
            mem.lemma_allocated_managed(p);
        }
    }

    /// A well-formed table stays so, with the same mappings and nodes,
    /// through a step of the memory that touched none of its frames.
    pub proof fn lemma_untouched(&self, mem: &PhysMemory, mem2: &PhysMemory, touched: Set<u64>)
        requires
            self.wf(mem),
            mem2.wf(),
            mem2.same_outside(mem, touched),
            forall|p: u64| self.frame_set().contains(p) ==> !touched.contains(p),
        ensures
            self.wf(mem2),
            self.view(mem2) == self.view(mem),
            self.tables(mem2) == self.tables(mem),
            forall|v: u64| v < VPN_LIMIT ==> #[trigger] self.lookup(mem2, v) == self.lookup(mem, v),
    {
        self.lemma_frames_allocated(mem);
        self.lemma_same_frames(mem, mem2);
    }

    /// A well-formed table stays so, with the same mappings and nodes, in
    /// any memory that holds its frames unchanged.
    pub proof fn lemma_same_frames(&self, mem: &PhysMemory, mem2: &PhysMemory)
        requires
            self.wf(mem),
            mem2.wf(),
            forall|p: u64|
                self.frame_set().contains(p) ==> mem2.is_allocated(p) && #[trigger] mem2.words(p)
                    == mem.words(p),
        ensures
            self.wf(mem2),
            forall|v: u64| v < VPN_LIMIT ==> #[trigger] self.lookup(mem2, v) == self.lookup(mem, v),
            forall|i: int| 0 <= i < 512 ==> #[trigger] self.table1(mem2, i) == self.table1(mem, i),
            forall|i: int|
                0 <= i < 262144 ==> #[trigger] self.table0(mem2, i) == self.table0(mem, i),
            self.view(mem2) == self.view(mem),
            self.tables(mem2) == self.tables(mem),
    {
        assert forall|p: u64| #[trigger] self.nodes@.contains_key(p) implies self.node_ok(
            mem2,
            p,
        ) by {
            assert(self.node_ok(mem, p));
            assert(self.frame_set().contains(p));
            assert(mem2.words(p) == mem.words(p));
            if self.nodes@[p].level >= 1 {
                assert forall|i: int| 0 <= i < 512 implies #[trigger] self.link_ok(mem2, p, i) by {
                    assert(self.link_ok(mem, p, i));
                }
            }
        }
        assert(self.frame_set().contains(self.root_ppn.0));
        assert(mem2.words(self.root_ppn.0) == mem.words(self.root_ppn.0));
        assert forall|i: int| 0 <= i < 262144 implies #[trigger] self.table0(mem2, i)
            == self.table0(mem, i) by {
            self.lemma_table1_info(mem, i / 512);
            if self.table1(mem, i / 512) is Some {
                let n1 = self.table1(mem, i / 512)->0;
                assert(self.frame_set().contains(n1));
                assert(mem2.words(n1) == mem.words(n1));
            }
        }
        assert forall|v: u64| v < VPN_LIMIT implies #[trigger] self.lookup(mem2, v)
            == self.lookup(mem, v) by {
            self.lemma_table0_info(mem, v as int / 512);
            if self.table0(mem, v as int / 512) is Some {
                let n0 = self.table0(mem, v as int / 512)->0;
                assert(self.frame_set().contains(n0));
                assert(mem2.words(n0) == mem.words(n0));
            }
        }
        assert(self.view(mem2) =~= self.view(mem));
        assert(self.tables(mem2) =~= self.tables(mem));
    }

    /// A level-1 node that the root points to is owned and knows its place.
    proof fn lemma_table1_info(&self, mem: &PhysMemory, i2: int)
        requires
            self.wf(mem),
        ensures
            (0 <= i2 < 512 && self.table1(mem, i2) is Some) ==> {
                let n1 = self.table1(mem, i2)->0;
                &&& self.nodes@.contains_key(n1)
                &&& self.nodes@[n1].level == 1
                &&& self.nodes@[n1].prefix == i2
                &&& n1 != self.root_ppn.0
                &&& mem.is_allocated(n1)
            },
            !(0 <= i2 < 512) ==> true,
    {
        if 0 <= i2 < 512 && self.table1(mem, i2) is Some {
            assert(self.nodes@.contains_key(self.root_ppn.0));
            assert(self.node_ok(mem, self.root_ppn.0));
            assert(self.link_ok(mem, self.root_ppn.0, i2));
            let n1 = self.table1(mem, i2)->0;
            assert(self.nodes@.contains_key(n1));
            assert(self.node_ok(mem, n1));
        }
    }

    /// A level-0 node that a walk reaches is owned and knows its place.
    proof fn lemma_table0_info(&self, mem: &PhysMemory, prefix: int)
        requires
            self.wf(mem),
        ensures
            (0 <= prefix < 262144 && self.table0(mem, prefix) is Some) ==> {
                let n0 = self.table0(mem, prefix)->0;
                &&& self.nodes@.contains_key(n0)
                &&& self.nodes@[n0].level == 0
                &&& self.nodes@[n0].prefix == prefix
                &&& n0 != self.root_ppn.0
                &&& mem.is_allocated(n0)
                &&& self.table1(mem, prefix / 512) is Some
                &&& self.table1(mem, prefix / 512)->0 != n0
            },
    {
        if 0 <= prefix < 262144 && self.table0(mem, prefix) is Some {
            self.lemma_table1_info(mem, prefix / 512);
            let n1 = self.table1(mem, prefix / 512)->0;
            assert(self.node_ok(mem, n1));
            assert(self.link_ok(mem, n1, prefix % 512));
            let n0 = self.table0(mem, prefix)->0;
            assert(self.nodes@.contains_key(n0));
            assert(self.node_ok(mem, n0));
        }
    }

    /// Whether the level-1 node for root index `i2` exists.
    pub open spec fn has_table1(&self, mem: &PhysMemory, i2: int) -> bool {
        self.table1(mem, i2) is Some
    }

    /// Whether the level-0 node for the pages of `prefix` exists.
    pub open spec fn has_table0(&self, mem: &PhysMemory, prefix: int) -> bool {
        self.table0(mem, prefix) is Some
    }

    /// How a step from (`old_pt`, `old_mem`) to (`self`, `mem`) treats
    /// frames: the table keeps its root and its frames, each frame that it
    /// gained was free before, and no frame outside the table changed, was
    /// handed out or was freed.
    pub open spec fn grown_from(
        &self,
        mem: &PhysMemory,
        old_pt: &PageTable,
        old_mem: &PhysMemory,
    ) -> bool {
        &&& self.root() == old_pt.root()
        &&& old_pt.frame_set().subset_of(self.frame_set())
        &&& forall|p: u64|
            self.frame_set().contains(p) && !old_pt.frame_set().contains(p)
                ==> !old_mem.is_allocated(p)
        &&& mem.same_outside(old_mem, self.frame_set())
    }

    /// What linking a fresh, zeroed frame `f` under entry `idx` of `node`
    /// does to the table.
    #[verifier::rlimit(30)]
    proof fn lemma_link_child(
        old_pt: &PageTable,
        old_mem: &PhysMemory,
        pt: &PageTable,
        mem: &PhysMemory,
        node: u64,
        idx: int,
        f: u64,
    )
        requires
            old_pt.wf(old_mem),
            mem.wf(),
            mem.same_range(old_mem),
            old_pt.nodes@.contains_key(node),
            old_pt.nodes@[node].level >= 1,
            old_pt.nodes@[node].level == 1 ==> 0 <= old_pt.nodes@[node].prefix < 512
                && old_pt.table1(old_mem, old_pt.nodes@[node].prefix) == Some(node),
            0 <= idx < 512,
            !entry_at(old_mem, node, idx).spec_is_valid(),
            f < PPN_LIMIT,
            !old_mem.is_allocated(f),
            mem.is_allocated(f),
            forall|p: u64| p != f ==> mem.is_allocated(p) == old_mem.is_allocated(p),
            mem.words(f) == zero_words(),
            mem.words(node) == old_mem.words(node).update(
                idx,
                PageTableEntry::spec_new(PhysPageNum(f), PTEFlags { bits: PTE_V }).bits,
            ),
            forall|p: u64|
                old_mem.managed(p) && p != node && p != f ==> #[trigger] mem.words(p)
                    == old_mem.words(p),
            pt.root_ppn == old_pt.root_ppn,
            pt.frames@ == old_pt.frames@.push(FrameTracker { ppn: PhysPageNum(f) }),
            pt.nodes@ == old_pt.nodes@.insert(
                f,
                NodeInfo {
                    level: old_pt.nodes@[node].level - 1,
                    prefix: old_pt.nodes@[node].prefix * 512 + idx,
                    slot: old_pt.frames.len() as int,
                },
            ),
        ensures
            pt.wf(mem),
            child_at(mem, node, idx) == Some(f),
            forall|v: u64|
                v < VPN_LIMIT ==> #[trigger] pt.lookup(mem, v) == old_pt.lookup(old_mem, v),
            old_pt.nodes@[node].level == 2 ==> {
                &&& forall|i: int|
                    0 <= i < 512 ==> #[trigger] pt.table1(mem, i) == if i == idx {
                        Some(f)
                    } else {
                        old_pt.table1(old_mem, i)
                    }
                &&& forall|q: int|
                    0 <= q < 262144 ==> #[trigger] pt.table0(mem, q) == old_pt.table0(old_mem, q)
            },
            old_pt.nodes@[node].level == 1 ==> {
                &&& forall|i: int|
                    0 <= i < 512 ==> #[trigger] pt.table1(mem, i) == old_pt.table1(old_mem, i)
                &&& forall|q: int|
                    0 <= q < 262144 ==> #[trigger] pt.table0(mem, q) == if q
                        == old_pt.nodes@[node].prefix * 512 + idx {
                        Some(f)
                    } else {
                        old_pt.table0(old_mem, q)
                    }
            },
    {
        let level = old_pt.nodes@[node].level;
        let root = old_pt.root_ppn.0;
        let link = PageTableEntry::spec_new(PhysPageNum(f), PTEFlags { bits: PTE_V });
        PageTableEntry::lemma_new_fields(PhysPageNum(f), PTEFlags { bits: PTE_V });
        assert(PTEFlags { bits: PTE_V }.has(PTE_V)) by {
            assert(1u16 & 1u16 == 1u16) by (bit_vector);
        }
        old_pt.lemma_frames_allocated(old_mem);
        assert(!old_pt.nodes@.contains_key(f)) by {
            if old_pt.nodes@.contains_key(f) {
                assert(old_pt.node_ok(old_mem, f));
            }
        }
        assert(old_pt.node_ok(old_mem, node));
        old_mem.lemma_allocated_managed(node);
        old_mem.lemma_words_len(node);
        assert(entry_at(mem, node, idx) == link);
        // every old node keeps its words but for the one new link
        assert forall|p: u64| #[trigger] pt.nodes@.contains_key(p) implies pt.node_ok(mem, p) by {
            if p == f {
                if pt.nodes@[p].level >= 1 {
                    assert forall|i: int| 0 <= i < 512 implies #[trigger] pt.link_ok(
                        mem,
                        p,
                        i,
                    ) by {
                        assert(entry_at(mem, p, i).bits == 0);
                    }
                }
            } else {
                assert(old_pt.nodes@.contains_key(p));
                assert(old_pt.node_ok(old_mem, p));
                old_mem.lemma_allocated_managed(p);
                if pt.nodes@[p].level >= 1 {
                    assert forall|i: int| 0 <= i < 512 implies #[trigger] pt.link_ok(
                        mem,
                        p,
                        i,
                    ) by {
                        assert(old_pt.link_ok(old_mem, p, i));
                        if p == node && i == idx {
                        } else {
                            assert(entry_at(mem, p, i) == entry_at(old_mem, p, i));
                        }
                    }
                }
            }
        }
        assert forall|i: int| 0 <= i < pt.frames.len() implies {
            &&& pt.nodes@.contains_key(#[trigger] pt.frames[i].ppn.0)
            &&& pt.nodes@[pt.frames[i].ppn.0].slot == i
        } by {
            if i < old_pt.frames.len() {
                assert(pt.frames[i] == old_pt.frames[i]);
                assert(old_pt.nodes@.contains_key(old_pt.frames[i].ppn.0));
            }
        }
        assert(old_pt.nodes@.contains_key(root));
        assert(pt.wf(mem));
        // the walks
        old_mem.lemma_allocated_managed(root);
        assert forall|i: int| 0 <= i < 512 implies #[trigger] pt.table1(mem, i) == if level == 2
            && i == idx {
            Some(f)
        } else {
            old_pt.table1(old_mem, i)
        } by {
            if level == 2 {
                assert(node == root);
            } else {
                assert(node != root);
                assert(mem.words(root) == old_mem.words(root));
            }
        }
        assert forall|q: int| 0 <= q < 262144 implies #[trigger] pt.table0(mem, q) == if level
            == 1 && q == old_pt.nodes@[node].prefix * 512 + idx {
            Some(f)
        } else {
            old_pt.table0(old_mem, q)
        } by {
            old_pt.lemma_table1_info(old_mem, q / 512);
            assert(pt.table1(mem, q / 512) == if level == 2 && q / 512 == idx {
                Some(f)
            } else {
                old_pt.table1(old_mem, q / 512)
            });
            if level == 2 {
                if q / 512 == idx {
                    assert(entry_at(mem, f, q % 512).bits == 0);
                } else if old_pt.table1(old_mem, q / 512) is Some {
                    let n1 = old_pt.table1(old_mem, q / 512)->0;
                    old_mem.lemma_allocated_managed(n1);
                    assert(mem.words(n1) == old_mem.words(n1));
                }
            } else {
                if old_pt.table1(old_mem, q / 512) is Some {
                    let n1 = old_pt.table1(old_mem, q / 512)->0;
                    old_mem.lemma_allocated_managed(n1);
                    if n1 == node {
                        assert(old_pt.nodes@[node].prefix == q / 512);
                        if q % 512 == idx {
                        } else {
                            assert(entry_at(mem, n1, q % 512) == entry_at(old_mem, n1, q % 512));
                        }
                    } else {
                        assert(mem.words(n1) == old_mem.words(n1));
                    }
                }
            }
        }
        assert forall|v: u64| v < VPN_LIMIT implies #[trigger] pt.lookup(mem, v) == old_pt.lookup(
            old_mem,
            v,
        ) by {
            let q = v as int / 512;
            old_pt.lemma_table0_info(old_mem, q);
            assert(pt.table0(mem, q) == if level == 1 && q == old_pt.nodes@[node].prefix * 512
                + idx {
                Some(f)
            } else {
                old_pt.table0(old_mem, q)
            });
            if level == 1 && q == old_pt.nodes@[node].prefix * 512 + idx {
                assert(entry_at(mem, f, v as int % 512).bits == 0);
                old_pt.lemma_table1_info(old_mem, q / 512);
            } else if old_pt.table0(old_mem, q) is Some {
                let n0 = old_pt.table0(old_mem, q)->0;
                old_mem.lemma_allocated_managed(n0);
                assert(n0 != node);
                assert(mem.words(n0) == old_mem.words(n0));
            }
        }
    }

    /// The node that entry `idx` of `node` points to, created first where
    /// the entry is not valid.
    #[verifier::rlimit(30)]
    fn child_or_create(&mut self, mem: &mut PhysMemory, node: PhysPageNum, idx: usize) -> (r:
        PhysPageNum)
        requires
            old(self).wf(old(mem)),
            old(self).nodes@.contains_key(node.0),
            old(self).nodes@[node.0].level >= 1,
            old(self).nodes@[node.0].level == 1 ==> 0 <= old(self).nodes@[node.0].prefix < 512
                && old(self).table1(old(mem), old(self).nodes@[node.0].prefix) == Some(node.0),
            idx < 512,
            child_at(old(mem), node.0, idx as int) is None ==> old(mem).free_count() >= 1,
        ensures
            final(self).wf(final(mem)),
            child_at(final(mem), node.0, idx as int) == Some(r.0),
            final(mem).managed(r.0),
            final(self).nodes@.contains_key(node.0),
            final(self).nodes@[node.0] == old(self).nodes@[node.0],
            final(self).grown_from(final(mem), old(self), old(mem)),
            final(mem).free_count() == old(mem).free_count() - if child_at(
                old(mem),
                node.0,
                idx as int,
            ) is None {
                1nat
            } else {
                0nat
            },
            final(self).frame_total() + final(mem).free_count() == old(self).frame_total() + old(
                mem,
            ).free_count(),
            forall|v: u64|
                v < VPN_LIMIT ==> #[trigger] final(self).lookup(final(mem), v) == old(self).lookup(
                    old(mem),
                    v,
                ),
            old(self).nodes@[node.0].level == 2 ==> {
                &&& forall|i: int|
                    0 <= i < 512 ==> #[trigger] final(self).table1(final(mem), i) == if i == idx {
                        Some(r.0)
                    } else {
                        old(self).table1(old(mem), i)
                    }
                &&& forall|q: int|
                    0 <= q < 262144 ==> #[trigger] final(self).table0(final(mem), q) == old(
                        self,
                    ).table0(old(mem), q)
            },
            old(self).nodes@[node.0].level == 1 ==> {
                &&& forall|i: int|
                    0 <= i < 512 ==> #[trigger] final(self).table1(final(mem), i) == old(
                        self,
                    ).table1(old(mem), i)
                &&& forall|q: int|
                    0 <= q < 262144 ==> #[trigger] final(self).table0(final(mem), q) == if q
                        == old(self).nodes@[node.0].prefix * 512 + idx {
                        Some(r.0)
                    } else {
                        old(self).table0(old(mem), q)
                    }
            },
    {
        let ghost old_pt = *self;
        let ghost old_mem = *mem;
        proof {
            assert(self.node_ok(mem, node.0));
            mem.lemma_allocated_managed(node.0);
            mem.lemma_words_len(node.0);
            assert(self.link_ok(mem, node.0, idx as int));
        }
        let e = PageTableEntry { bits: mem.read_word(node, idx) };
        if e.is_valid() {
            let r = e.ppn();
            proof {
                assert(self.node_ok(mem, r.0));
                mem.lemma_allocated_managed(r.0);
                if self.nodes@[node.0].level == 2 {
                    assert(node.0 == self.root_ppn.0);
                }
            }
            return r;
        }
        let frame = mem.frame_alloc().unwrap();
        let ghost mid_mem = *mem;
        let link = PageTableEntry::new(frame.ppn, PTEFlags { bits: PTE_V });
        mem.write_word(node, idx, link.bits);
        self.nodes = Ghost(
            self.nodes@.insert(
                frame.ppn.0,
                NodeInfo {
                    level: self.nodes@[node.0].level - 1,
                    prefix: self.nodes@[node.0].prefix * 512 + idx,
                    slot: self.frames.len() as int,
                },
            ),
        );
        self.frames.push(frame);
        proof {
            let f = frame.ppn.0;
            assert(f != node.0);
            assert(mid_mem.words(node.0) == old_mem.words(node.0));
            assert forall|p: u64| old_mem.managed(p) && p != node.0 && p != f implies #[trigger] mem.words(
                p,
            ) == old_mem.words(p) by {
                assert(mid_mem.words(p) == old_mem.words(p));
            }
            Self::lemma_link_child(&old_pt, &old_mem, self, mem, node.0, idx as int, f);
            assert(self.nodes@.dom() =~= old_pt.nodes@.dom().insert(f));
        }
        frame.ppn
    }

    /// The place of the leaf entry of `vpn`, after creating the nodes that
    /// are missing on the way to it.
    #[verifier::rlimit(30)]
    fn find_pte_create(&mut self, mem: &mut PhysMemory, vpn: VirtPageNum) -> (r: (
        PhysPageNum,
        usize,
    ))
        requires
            old(self).wf(old(mem)),
            vpn.wf(),
            old(mem).free_count() >= old(self).missing_tables(old(mem), vpn.0),
        ensures
            final(self).wf(final(mem)),
            final(self).table0(final(mem), vpn.0 as int / 512) == Some(r.0.0),
            r.1 == vpn.0 % 512,
            final(mem).managed(r.0.0),
            final(self).grown_from(final(mem), old(self), old(mem)),
            final(mem).free_count() == old(mem).free_count() - old(self).missing_tables(
                old(mem),
                vpn.0,
            ),
            final(self).frame_total() + final(mem).free_count() == old(self).frame_total() + old(
                mem,
            ).free_count(),
            forall|v: u64|
                v < VPN_LIMIT ==> #[trigger] final(self).lookup(final(mem), v) == old(self).lookup(
                    old(mem),
                    v,
                ),
            forall|i: int|
                0 <= i < 512 ==> #[trigger] final(self).has_table1(final(mem), i) == (old(
                    self,
                ).has_table1(old(mem), i) || i == vpn.0 as int / 262144),
            forall|q: int|
                0 <= q < 262144 ==> #[trigger] final(self).has_table0(final(mem), q) == (old(
                    self,
                ).has_table0(old(mem), q) || q == vpn.0 as int / 512),
    {
        let ghost old_pt = *self;
        let ghost old_mem = *mem;
        let (i2, i1, i0) = vpn.indexes();
        let root = self.root_ppn;
        proof {
            assert(vpn.0 as int / 262144 == i2);
            assert((vpn.0 as int / 512) / 512 == i2);
            assert((vpn.0 as int / 512) % 512 == i1);
        }
        let n1 = self.child_or_create(mem, root, i2);
        let ghost mid_pt = *self;
        let ghost mid_mem = *mem;
        proof {
            assert(self.table1(mem, i2 as int) == Some(n1.0));
            self.lemma_table1_info(mem, i2 as int);
            assert(old_pt.table0(&old_mem, vpn.0 as int / 512) == self.table0(
                mem,
                vpn.0 as int / 512,
            ));
            assert(!old_pt.has_table1(&old_mem, i2 as int) ==> !old_pt.has_table0(
                &old_mem,
                vpn.0 as int / 512,
            ));
        }
        let n0 = self.child_or_create(mem, n1, i1);
        proof {
            assert(self.table0(mem, vpn.0 as int / 512) == Some(n0.0));
            assert forall|p: u64|
                self.frame_set().contains(p) && !old_pt.frame_set().contains(
                    p,
                ) implies !old_mem.is_allocated(p) by {
                if mid_pt.frame_set().contains(p) {
                } else {
                    assert(!mid_mem.is_allocated(p));
                    assert(!mid_pt.frame_set().contains(p));
                }
            }
            assert(mem.same_outside(&old_mem, self.frame_set())) by {
                assert forall|p: u64| !self.frame_set().contains(p) implies (
                #[trigger] mem.is_allocated(p) == old_mem.is_allocated(p)) by {
                    assert(!mid_pt.frame_set().contains(p));
                    assert(mid_mem.is_allocated(p) == old_mem.is_allocated(p));
                }
                assert forall|p: u64|
                    old_mem.managed(p) && !self.frame_set().contains(
                        p,
                    ) implies #[trigger] mem.words(p) == old_mem.words(p) by {
                    assert(!mid_pt.frame_set().contains(p));
                    assert(mid_mem.words(p) == old_mem.words(p));
                }
            }
            assert forall|v: u64| v < VPN_LIMIT implies #[trigger] self.lookup(mem, v)
                == old_pt.lookup(&old_mem, v) by {
                assert(mid_pt.lookup(&mid_mem, v) == old_pt.lookup(&old_mem, v));
            }
            assert forall|i: int| 0 <= i < 512 implies #[trigger] self.has_table1(mem, i) == (
            old_pt.has_table1(&old_mem, i) || i == vpn.0 as int / 262144) by {
                assert(self.table1(mem, i) == mid_pt.table1(&mid_mem, i));
            }
            assert forall|q: int| 0 <= q < 262144 implies #[trigger] self.has_table0(mem, q) == (
            old_pt.has_table0(&old_mem, q) || q == vpn.0 as int / 512) by {
                assert(mid_pt.table0(&mid_mem, q) == old_pt.table0(&old_mem, q));
            }
        }
        (n0, i0)
    }

    /// Stores `entry` as the leaf entry of `vpn` in its level-0 node `n0`.
    #[verifier::rlimit(30)]
    fn write_leaf(
        &self,
        mem: &mut PhysMemory,
        vpn: VirtPageNum,
        n0: PhysPageNum,
        entry: PageTableEntry,
    )
        requires
            self.wf(old(mem)),
            vpn.wf(),
            self.table0(old(mem), vpn.0 as int / 512) == Some(n0.0),
        ensures
            self.wf(final(mem)),
            self.lookup(final(mem), vpn.0) == if entry.spec_is_valid() {
                Some(entry)
            } else {
                None
            },
            forall|v: u64|
                v < VPN_LIMIT && v != vpn.0 ==> #[trigger] self.lookup(final(mem), v)
                    == self.lookup(old(mem), v),
            forall|i: int|
                0 <= i < 512 ==> #[trigger] self.table1(final(mem), i) == self.table1(old(mem), i),
            forall|q: int|
                0 <= q < 262144 ==> #[trigger] self.table0(final(mem), q) == self.table0(
                    old(mem),
                    q,
                ),
            final(mem).free_count() == old(mem).free_count(),
            final(mem).same_outside(old(mem), self.frame_set()),
            forall|p: u64| final(mem).is_allocated(p) == old(mem).is_allocated(p),
    {
        let ghost old_mem = *mem;
        let i0: usize = (vpn.0 % 512) as usize;
        proof {
            self.lemma_table0_info(mem, vpn.0 as int / 512);
            mem.lemma_allocated_managed(n0.0);
            mem.lemma_words_len(n0.0);
            self.lemma_frames_allocated(mem);
        }
        mem.write_word(n0, i0, entry.bits);
        proof {
            assert(entry_at(mem, n0.0, i0 as int) == entry);
            assert forall|p: u64| #[trigger] self.nodes@.contains_key(p) implies self.node_ok(
                mem,
                p,
            ) by {
                assert(self.node_ok(&old_mem, p));
                old_mem.lemma_allocated_managed(p);
                if self.nodes@[p].level >= 1 {
                    assert(p != n0.0);
                    assert(mem.words(p) == old_mem.words(p));
                    assert forall|i: int| 0 <= i < 512 implies #[trigger] self.link_ok(
                        mem,
                        p,
                        i,
                    ) by {
                        assert(self.link_ok(&old_mem, p, i));
                    }
                }
            }
            assert(self.wf(mem));
            old_mem.lemma_allocated_managed(self.root_ppn.0);
            assert(mem.words(self.root_ppn.0) == old_mem.words(self.root_ppn.0));
            assert forall|q: int| 0 <= q < 262144 implies #[trigger] self.table0(mem, q)
                == self.table0(&old_mem, q) by {
                self.lemma_table1_info(&old_mem, q / 512);
                if self.table1(&old_mem, q / 512) is Some {
                    let n1 = self.table1(&old_mem, q / 512)->0;
                    old_mem.lemma_allocated_managed(n1);
                    assert(mem.words(n1) == old_mem.words(n1));
                }
            }
            assert forall|v: u64| v < VPN_LIMIT && v != vpn.0 implies #[trigger] self.lookup(
                mem,
                v,
            ) == self.lookup(&old_mem, v) by {
                let q = v as int / 512;
                self.lemma_table0_info(&old_mem, q);
                if self.table0(&old_mem, q) is Some {
                    let m0 = self.table0(&old_mem, q)->0;
                    old_mem.lemma_allocated_managed(m0);
                    if m0 == n0.0 {
                        assert(q == vpn.0 as int / 512);
                        assert(v as int % 512 != vpn.0 as int % 512);
                        assert(entry_at(mem, m0, v as int % 512) == entry_at(
                            &old_mem,
                            m0,
                            v as int % 512,
                        ));
                    } else {
                        assert(mem.words(m0) == old_mem.words(m0));
                    }
                }
            }
            assert(self.frame_set().contains(n0.0));
        }
    }

    /// The place of the leaf entry of `vpn`: the level-0 node and the index
    /// in it, or `None` where a node on the way is missing.
    fn find_pte(&self, mem: &PhysMemory, vpn: VirtPageNum) -> (r: Option<(PhysPageNum, usize)>)
        requires
            self.wf(mem),
            vpn.wf(),
        ensures
            match r {
                Some((n0, i0)) => self.table0(mem, vpn.0 as int / 512) == Some(n0.0) && i0
                    == vpn.0 % 512 && mem.managed(n0.0),
                None => self.table0(mem, vpn.0 as int / 512) is None,
            },
    {
        let (i2, i1, i0) = vpn.indexes();
        proof {
            self.lemma_frames_allocated(mem);
            mem.lemma_allocated_managed(self.root_ppn.0);
            mem.lemma_words_len(self.root_ppn.0);
            self.lemma_table1_info(mem, i2 as int);
            self.lemma_table0_info(mem, vpn.0 as int / 512);
        }
        let e2 = PageTableEntry { bits: mem.read_word(self.root_ppn, i2) };
        if !e2.is_valid() {
            return None;
        }
        let n1 = e2.ppn();
        proof {
            mem.lemma_allocated_managed(n1.0);
        }
        let e1 = PageTableEntry { bits: mem.read_word(n1, i1) };
        if !e1.is_valid() {
            return None;
        }
        let n0 = e1.ppn();
        proof {
            mem.lemma_allocated_managed(n0.0);
        }
        Some((n0, i0))
    }

    /// The interior nodes that exist.
    pub open spec fn tables(&self, mem: &PhysMemory) -> TableSet {
        TableSet {
            l1: Set::new(|i: int| 0 <= i < 512 && self.has_table1(mem, i)),
            l0: Set::new(|q: int| 0 <= q < 262144 && self.has_table0(mem, q)),
        }
    }

    /// A step from `old_mem` to `mem` that rewrote leaf entries only: no
    /// frame was handed out or freed, no node was added, and no frame
    /// outside the table changed.
    pub open spec fn leaves_only(&self, mem: &PhysMemory, old_mem: &PhysMemory) -> bool {
        &&& forall|p: u64| mem.is_allocated(p) == old_mem.is_allocated(p)
        &&& mem.same_outside(old_mem, self.frame_set())
        &&& mem.free_count() == old_mem.free_count()
        &&& self.tables(mem) == self.tables(old_mem)
    }

    /// The nodes that a walk to `vpn` has to create, counted over the set
    /// of nodes.
    pub proof fn lemma_missing_tables(&self, mem: &PhysMemory, vpn: u64)
        requires
            vpn < VPN_LIMIT,
        ensures
            self.missing_tables(mem, vpn) == self.tables(mem).needed(
                vpn as int,
                vpn as int,
                vpn + 1,
            ),
    {
        assert(self.tables(mem).needed(vpn as int, vpn + 1, vpn + 1) == 0);
    }

    /// An empty table, its root in a fresh frame.
    pub fn new(mem: &mut PhysMemory) -> (r: Self)
        requires
            old(mem).wf(),
            old(mem).free_count() >= 1,
        ensures
            r.wf(final(mem)),
            r.view(final(mem)) == Map::<u64, PageTableEntry>::empty(),
            r.frame_set() == set![r.root()],
            !old(mem).is_allocated(r.root()),
            final(mem).same_outside(old(mem), r.frame_set()),
            final(mem).free_count() == old(mem).free_count() - 1,
            r.tables(final(mem)) == TableSet::empty(),
            r.frame_total() == 1,
    {
        let frame = mem.frame_alloc().unwrap();
        let mut frames: Vec<FrameTracker> = Vec::new();
        frames.push(frame);
        let r = PageTable {
            root_ppn: frame.ppn,
            frames,
            nodes: Ghost(
                Map::<u64, NodeInfo>::empty().insert(
                    frame.ppn.0,
                    NodeInfo { level: 2, prefix: 0, slot: 0 },
                ),
            ),
        };
        proof {
            let root = frame.ppn.0;
            assert(r.nodes@.dom() =~= set![root]);
            assert forall|i: int| 0 <= i < 512 implies !#[trigger] r.has_table1(mem, i) by {
                assert(entry_at(mem, root, i).bits == 0);
            }
            assert forall|i: int| 0 <= i < 512 implies #[trigger] r.link_ok(mem, root, i) by {
                assert(!r.has_table1(mem, i));
            }
            assert(r.node_ok(mem, root));
            assert forall|q: int| 0 <= q < 262144 implies !#[trigger] r.has_table0(mem, q) by {
                assert(!r.has_table1(mem, q / 512));
            }
            assert forall|v: u64| v < VPN_LIMIT implies r.lookup(mem, v) is None by {
                assert(!r.has_table0(mem, v as int / 512));
            }
            assert(r.view(mem) =~= Map::<u64, PageTableEntry>::empty());
            assert(r.tables(mem) =~= TableSet::empty());
        }
        r
    }

    /// Maps page `vpn` to frame `ppn` with `flags` and the valid bit,
    /// creating the nodes that the walk needs.
    #[verifier::rlimit(30)]
    pub fn map(
        &mut self,
        mem: &mut PhysMemory,
        vpn: VirtPageNum,
        ppn: PhysPageNum,
        flags: PTEFlags,
    )
        requires
            old(self).wf(old(mem)),
            vpn.wf(),
            ppn.wf(),
            flags.wf(),
            !old(self).view(old(mem)).contains_key(vpn.0),
            old(mem).free_count() >= old(self).missing_tables(old(mem), vpn.0),
        ensures
            final(self).wf(final(mem)),
            final(self).view(final(mem)) == old(self).view(old(mem)).insert(
                vpn.0,
                PageTableEntry::spec_new(ppn, flags.with(PTE_V)),
            ),
            final(self).grown_from(final(mem), old(self), old(mem)),
            final(self).tables(final(mem)) == old(self).tables(old(mem)).cover(
                vpn.0 as int,
                vpn.0 + 1,
            ),
            old(self).missing_tables(old(mem), vpn.0) == old(self).tables(old(mem)).needed(
                vpn.0 as int,
                vpn.0 as int,
                vpn.0 + 1,
            ),
            final(self).lookup(final(mem), vpn.0) == Some(
                PageTableEntry::spec_new(ppn, flags.with(PTE_V)),
            ),
            final(self).frame_total() + final(mem).free_count() == old(self).frame_total() + old(
                mem,
            ).free_count(),
            final(mem).free_count() == old(mem).free_count() - old(self).missing_tables(
                old(mem),
                vpn.0,
            ),
    {
        let ghost old_pt = *self;
        let ghost old_mem = *mem;
        let (n0, _i0) = self.find_pte_create(mem, vpn);
        let ghost mid_mem = *mem;
        let entry = PageTableEntry::new(ppn, flags.union(PTE_V));
        self.write_leaf(mem, vpn, n0, entry);
        proof {
            PageTableEntry::lemma_new_fields(ppn, flags.with(PTE_V));
            let b = flags.bits;
            crate::pte::lemma_flag_bits(b);
            assert(entry.spec_is_valid());
            assert forall|v: u64| v < VPN_LIMIT && v != vpn.0 implies #[trigger] self.lookup(
                mem,
                v,
            ) == old_pt.lookup(&old_mem, v) by {
                assert(self.lookup(&mid_mem, v) == old_pt.lookup(&old_mem, v));
            }
            assert(self.view(mem) =~= old_pt.view(&old_mem).insert(vpn.0, entry));
            assert forall|i: int| 0 <= i < 512 implies #[trigger] self.has_table1(mem, i) == (
            old_pt.has_table1(&old_mem, i) || i == vpn.0 as int / 262144) by {
                assert(self.table1(mem, i) == self.table1(&mid_mem, i));
                assert(self.has_table1(&mid_mem, i) == (old_pt.has_table1(&old_mem, i) || i
                    == vpn.0 as int / 262144));
            }
            assert forall|q: int| 0 <= q < 262144 implies #[trigger] self.has_table0(mem, q) == (
            old_pt.has_table0(&old_mem, q) || q == vpn.0 as int / 512) by {
                assert(self.table0(mem, q) == self.table0(&mid_mem, q));
                assert(self.has_table0(&mid_mem, q) == (old_pt.has_table0(&old_mem, q) || q
                    == vpn.0 as int / 512));
            }
            assert(mem.same_outside(&old_mem, self.frame_set())) by {
                assert forall|p: u64| !self.frame_set().contains(p) implies (
                #[trigger] mem.is_allocated(p) == old_mem.is_allocated(p)) by {
                    assert(mid_mem.is_allocated(p) == old_mem.is_allocated(p));
                }
                assert forall|p: u64|
                    old_mem.managed(p) && !self.frame_set().contains(
                        p,
                    ) implies #[trigger] mem.words(p) == old_mem.words(p) by {
                    assert(mid_mem.words(p) == old_mem.words(p));
                }
            }
            let v = vpn.0 as int;
            assert(self.tables(mem) =~= old_pt.tables(&old_mem).cover(v, v + 1));
            assert(old_pt.tables(&old_mem).needed(v, v + 1, v + 1) == 0);
        }
    }

    /// Rewrites the valid leaf entry of `vpn` to `entry`.
    fn replace_leaf(&self, mem: &mut PhysMemory, vpn: VirtPageNum, entry: PageTableEntry)
        requires
            self.wf(old(mem)),
            vpn.wf(),
            self.view(old(mem)).contains_key(vpn.0),
        ensures
            self.wf(final(mem)),
            self.view(final(mem)) == if entry.spec_is_valid() {
                self.view(old(mem)).insert(vpn.0, entry)
            } else {
                self.view(old(mem)).remove(vpn.0)
            },
            self.lookup(final(mem), vpn.0) == if entry.spec_is_valid() {
                Some(entry)
            } else {
                None
            },
            self.leaves_only(final(mem), old(mem)),
    {
        let ghost old_mem = *mem;
        let found = self.find_pte(mem, vpn);
        let (n0, _i0) = found.unwrap();
        self.write_leaf(mem, vpn, n0, entry);
        proof {
            assert(self.tables(mem) =~= self.tables(&old_mem));
            if entry.spec_is_valid() {
                assert(self.view(mem) =~= self.view(&old_mem).insert(vpn.0, entry));
            } else {
                assert(self.view(mem) =~= self.view(&old_mem).remove(vpn.0));
            }
        }
    }

    /// Clears the valid leaf entry of `vpn`. Nodes that become empty stay.
    pub fn unmap(&mut self, mem: &mut PhysMemory, vpn: VirtPageNum)
        requires
            old(self).wf(old(mem)),
            vpn.wf(),
            old(self).view(old(mem)).contains_key(vpn.0),
        ensures
            *final(self) == *old(self),
            final(self).wf(final(mem)),
            final(self).view(final(mem)) == old(self).view(old(mem)).remove(vpn.0),
            final(self).lookup(final(mem), vpn.0) is None,
            final(self).leaves_only(final(mem), old(mem)),
    {
        self.replace_leaf(mem, vpn, PageTableEntry::empty());
    }

    /// Gives the valid leaf entry of `vpn` the flags `flags` and the valid
    /// bit, and keeps its frame.
    pub fn set_flags(&mut self, mem: &mut PhysMemory, vpn: VirtPageNum, flags: PTEFlags)
        requires
            old(self).wf(old(mem)),
            vpn.wf(),
            flags.wf(),
            old(self).view(old(mem)).contains_key(vpn.0),
        ensures
            *final(self) == *old(self),
            final(self).wf(final(mem)),
            final(self).view(final(mem)) == old(self).view(old(mem)).insert(
                vpn.0,
                PageTableEntry::spec_new(
                    old(self).view(old(mem))[vpn.0].spec_ppn(),
                    flags.with(PTE_V),
                ),
            ),
            final(self).leaves_only(final(mem), old(mem)),
    {
        let e = self.translate(mem, vpn).unwrap();
        let entry = PageTableEntry::new(e.ppn(), flags.union(PTE_V));
        proof {
            PageTableEntry::lemma_new_fields(e.spec_ppn(), flags.with(PTE_V));
            let b = flags.bits;
            crate::pte::lemma_flag_bits(b);
        }
        self.replace_leaf(mem, vpn, entry);
    }

    /// Sets the copy-on-write bit of the valid leaf entry of `vpn`.
    pub fn set_cow(&mut self, mem: &mut PhysMemory, vpn: VirtPageNum)
        requires
            old(self).wf(old(mem)),
            vpn.wf(),
            old(self).view(old(mem)).contains_key(vpn.0),
        ensures
            *final(self) == *old(self),
            final(self).wf(final(mem)),
            final(self).view(final(mem)) == old(self).view(old(mem)).insert(
                vpn.0,
                PageTableEntry::spec_new(
                    old(self).view(old(mem))[vpn.0].spec_ppn(),
                    old(self).view(old(mem))[vpn.0].spec_flags().with(PTE_COW),
                ),
            ),
            final(self).leaves_only(final(mem), old(mem)),
    {
        let e = self.translate(mem, vpn).unwrap();
        let entry = PageTableEntry::new(e.ppn(), e.flags().union(PTE_COW));
        proof {
            PageTableEntry::lemma_new_fields(e.spec_ppn(), e.spec_flags().with(PTE_COW));
            e.lemma_valid_flag();
            let b = e.spec_flags().bits;
            crate::pte::lemma_flag_bits(b);
        }
        self.replace_leaf(mem, vpn, entry);
    }

    /// Clears the copy-on-write bit of the valid leaf entry of `vpn`.
    pub fn reset_cow(&mut self, mem: &mut PhysMemory, vpn: VirtPageNum)
        requires
            old(self).wf(old(mem)),
            vpn.wf(),
            old(self).view(old(mem)).contains_key(vpn.0),
        ensures
            *final(self) == *old(self),
            final(self).wf(final(mem)),
            final(self).view(final(mem)) == old(self).view(old(mem)).insert(
                vpn.0,
                PageTableEntry::spec_new(
                    old(self).view(old(mem))[vpn.0].spec_ppn(),
                    old(self).view(old(mem))[vpn.0].spec_flags().without(PTE_COW),
                ),
            ),
            final(self).leaves_only(final(mem), old(mem)),
    {
        let e = self.translate(mem, vpn).unwrap();
        let entry = PageTableEntry::new(e.ppn(), e.flags().difference(PTE_COW));
        proof {
            PageTableEntry::lemma_new_fields(e.spec_ppn(), e.spec_flags().without(PTE_COW));
            e.lemma_valid_flag();
            let b = e.spec_flags().bits;
            crate::pte::lemma_flag_bits(b);
        }
        self.replace_leaf(mem, vpn, entry);
    }

    /// Points the copy-on-write leaf entry of `vpn` from frame `former_ppn`
    /// to frame `ppn`, writable again and no longer copy-on-write.
    pub fn remap_cow(
        &mut self,
        mem: &mut PhysMemory,
        vpn: VirtPageNum,
        ppn: PhysPageNum,
        former_ppn: PhysPageNum,
    )
        requires
            old(self).wf(old(mem)),
            vpn.wf(),
            ppn.wf(),
            old(self).view(old(mem)).contains_key(vpn.0),
            old(self).view(old(mem))[vpn.0].spec_ppn() == former_ppn,
            old(self).view(old(mem))[vpn.0].spec_flags().has(PTE_COW),
        ensures
            *final(self) == *old(self),
            final(self).wf(final(mem)),
            final(self).view(final(mem)) == old(self).view(old(mem)).insert(
                vpn.0,
                PageTableEntry::spec_new(
                    ppn,
                    old(self).view(old(mem))[vpn.0].spec_flags().without(PTE_COW).with(PTE_W),
                ),
            ),
            final(self).leaves_only(final(mem), old(mem)),
    {
        let e = self.translate(mem, vpn).unwrap();
        let entry = PageTableEntry::new(ppn, e.flags().difference(PTE_COW).union(PTE_W));
        proof {
            PageTableEntry::lemma_new_fields(
                ppn,
                e.spec_flags().without(PTE_COW).with(PTE_W),
            );
            e.lemma_valid_flag();
            let b = e.spec_flags().bits;
            crate::pte::lemma_flag_bits(b);
        }
        self.replace_leaf(mem, vpn, entry);
    }

    /// Gives every frame of the table back to `mem`. The mappings are gone
    /// with it; the frames that leaf entries pointed to are not touched.
    #[verifier::rlimit(30)]
    pub fn release(self, mem: &mut PhysMemory)
        requires
            self.wf(old(mem)),
        ensures
            final(mem).wf(),
            final(mem).same_outside(old(mem), self.frame_set()),
            forall|p: u64| self.frame_set().contains(p) ==> !final(mem).is_allocated(p),
            forall|p: u64| old(mem).managed(p) ==> #[trigger] final(mem).words(p) == old(mem).words(p),
            final(mem).free_count() == old(mem).free_count() + self.frame_total(),
    {
        let ghost old_mem = *mem;
        let n = self.frames.len();
        let mut i: usize = 0;
        proof {
            self.lemma_frames_allocated(mem);
        }
        while i < n
            invariant
                i <= n,
                n == self.frames.len(),
                self.wf(&old_mem),
                mem.wf(),
                mem.same_outside(&old_mem, self.frame_set()),
                mem.free_count() == old_mem.free_count() + i,
                forall|p: u64| old_mem.managed(p) ==> #[trigger] mem.words(p) == old_mem.words(p),
                forall|p: u64|
                    self.frame_set().contains(p) ==> (#[trigger] mem.is_allocated(p) == (
                    self.nodes@[p].slot >= i)),
            decreases n - i,
        {
            let frame = self.frames[i];
            proof {
                assert(self.nodes@.contains_key(self.frames[i as int].ppn.0));
                assert(self.frame_set().contains(frame.ppn.0));
                assert(self.node_ok(&old_mem, frame.ppn.0));
            }
            let ghost mid = *mem;
            mem.frame_dealloc(frame);
            proof {
                assert forall|p: u64| old_mem.managed(p) implies #[trigger] mem.words(p)
                    == old_mem.words(p) by {
                    assert(mem.words(p) == mid.words(p));
                }
                assert forall|p: u64| self.frame_set().contains(p) implies (
                #[trigger] mem.is_allocated(p) == (self.nodes@[p].slot >= i + 1)) by {
                    assert(self.nodes@.contains_key(p));
                    assert(self.node_ok(&old_mem, p));
                    if p != frame.ppn.0 {
                        assert(mem.is_allocated(p) == mid.is_allocated(p));
                    }
                }
                assert(mem.same_outside(&old_mem, self.frame_set())) by {
                    assert forall|p: u64| !self.frame_set().contains(p) implies (
                    #[trigger] mem.is_allocated(p) == old_mem.is_allocated(p)) by {
                        assert(mid.is_allocated(p) == old_mem.is_allocated(p));
                    }
                    assert forall|p: u64|
                        old_mem.managed(p) && !self.frame_set().contains(
                            p,
                        ) implies #[trigger] mem.words(p) == old_mem.words(p) by {
                        assert(mid.words(p) == old_mem.words(p));
                    }
                }
            }
            i += 1;
        }
        proof {
            assert forall|p: u64| self.frame_set().contains(p) implies !mem.is_allocated(p) by {
                assert(self.nodes@.contains_key(p));
                assert(self.node_ok(&old_mem, p));
            }
        }
    }

    /// Number of frames that the table owns.
    pub closed spec fn frame_total(&self) -> nat {
        self.frames.len() as nat
    }

    /// Number of frames that the table owns.
    pub fn frame_count(&self) -> (r: usize)
        ensures
            r == self.frame_total(),
    {
        self.frames.len()
    }

    /// The leaf entry of `vpn` if the walk ends at a valid one.
    pub fn translate(&self, mem: &PhysMemory, vpn: VirtPageNum) -> (r: Option<PageTableEntry>)
        requires
            self.wf(mem),
            vpn.wf(),
        ensures
            r == self.lookup(mem, vpn.0),
            r == if self.view(mem).contains_key(vpn.0) {
                Some(self.view(mem)[vpn.0])
            } else {
                None
            },
            r matches Some(e) ==> e.spec_is_valid(),
    {
        match self.find_pte(mem, vpn) {
            None => None,
            Some((n0, i0)) => {
                let e = PageTableEntry { bits: mem.read_word(n0, i0) };
                if e.is_valid() {
                    Some(e)
                } else {
                    None
                }
            },
        }
    }

    /// The word for the address-translation register: Sv39 mode above the
    /// root frame number, address-space id 0.
    pub fn token(&self) -> (r: u64)
        ensures
            r == 0x8000_0000_0000_0000u64 | self.root(),
    {
        0x8000_0000_0000_0000u64 | self.root_ppn.0
    }
}

} // verus!
