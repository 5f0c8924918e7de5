//! Virtual and physical addresses and page numbers of the Sv39 format.

use vstd::prelude::*;
use crate::config::{PAGE_SIZE, PA_LIMIT, PPN_LIMIT, VA_LIMIT, VPN_LIMIT};

verus! {

/// A virtual address. Valid ones are below `VA_LIMIT`.
#[derive(Copy, Clone, Debug, PartialEq, Eq, Structural, PartialOrd, Ord)]
pub struct VirtAddr(pub u64);

/// A physical address. Valid ones are below `PA_LIMIT`.
#[derive(Copy, Clone, Debug, PartialEq, Eq, Structural, PartialOrd, Ord)]
pub struct PhysAddr(pub u64);

/// A virtual page number. Valid ones are below `VPN_LIMIT`.
#[derive(Copy, Clone, Debug, PartialEq, Eq, Structural, PartialOrd, Ord)]
pub struct VirtPageNum(pub u64);

/// A physical page number. Valid ones are below `PPN_LIMIT`.
#[derive(Copy, Clone, Debug, PartialEq, Eq, Structural, PartialOrd, Ord)]
pub struct PhysPageNum(pub u64);

/// Number of the page that holds byte address `addr`.
pub open spec fn page_floor(addr: int) -> int {
    addr / 4096
}

/// Number of the first page that starts at or after byte address `addr`.
pub open spec fn page_ceil(addr: int) -> int {
    (addr + 4095) / 4096
}

impl VirtAddr {
    pub open spec fn wf(self) -> bool {
        self.0 < VA_LIMIT
    }

    /// The address made of the low 39 bits of `v`.
    pub fn new(v: u64) -> (r: Self)
        ensures
            r.wf(),
            r.0 == v % VA_LIMIT,
            v < VA_LIMIT ==> r.0 == v,
    {
        VirtAddr(v % VA_LIMIT)
    }

    /// The first address of page `vpn`.
    pub fn from_vpn(vpn: VirtPageNum) -> (r: Self)
        requires
            vpn.wf(),
        ensures
            r.wf(),
            r.0 == vpn.0 * 4096,
    {
        VirtAddr(vpn.0 * PAGE_SIZE)
    }

    /// The page that holds this address.
    pub fn floor(&self) -> (r: VirtPageNum)
        ensures
            r.0 == page_floor(self.0 as int),
            self.wf() ==> r.wf(),
    {
        VirtPageNum(self.0 / PAGE_SIZE)
    }

    /// The first page that starts at or after this address.
    pub fn ceil(&self) -> (r: VirtPageNum)
        ensures
            r.0 == page_ceil(self.0 as int),
            self.wf() ==> r.0 <= VPN_LIMIT,
    {
        if self.0 == 0 {
            VirtPageNum(0)
        } else {
            VirtPageNum((self.0 - 1) / PAGE_SIZE + 1)
        }
    }

    /// Offset of this address inside its page.
    pub fn page_offset(&self) -> (r: u64)
        ensures
            r == self.0 % 4096,
            r < 4096,
    {
        self.0 % PAGE_SIZE
    }

    /// Whether this address is the first of its page.
    pub fn aligned(&self) -> (r: bool)
        ensures
            r == (self.0 % 4096 == 0),
    {
        self.page_offset() == 0
    }
}

impl PhysAddr {
    pub open spec fn wf(self) -> bool {
        self.0 < PA_LIMIT
    }

    /// The address made of the low 56 bits of `v`.
    pub fn new(v: u64) -> (r: Self)
        ensures
            r.wf(),
            r.0 == v % PA_LIMIT,
            v < PA_LIMIT ==> r.0 == v,
    {
        PhysAddr(v % PA_LIMIT)
    }

    /// The first address of frame `ppn`.
    pub fn from_ppn(ppn: PhysPageNum) -> (r: Self)
        requires
            ppn.wf(),
        ensures
            r.wf(),
            r.0 == ppn.0 * 4096,
    {
        PhysAddr(ppn.0 * PAGE_SIZE)
    }

    /// The frame that holds this address.
    pub fn floor(&self) -> (r: PhysPageNum)
        ensures
            r.0 == page_floor(self.0 as int),
            self.wf() ==> r.wf(),
    {
        PhysPageNum(self.0 / PAGE_SIZE)
    }

    /// The first frame that starts at or after this address.
    pub fn ceil(&self) -> (r: PhysPageNum)
        ensures
            r.0 == page_ceil(self.0 as int),
            self.wf() ==> r.0 <= PPN_LIMIT,
    {
        if self.0 == 0 {
            PhysPageNum(0)
        } else {
            PhysPageNum((self.0 - 1) / PAGE_SIZE + 1)
        }
    }

    /// Offset of this address inside its frame.
    pub fn page_offset(&self) -> (r: u64)
        ensures
            r == self.0 % 4096,
            r < 4096,
    {
        self.0 % PAGE_SIZE
    }
}

impl VirtPageNum {
    pub open spec fn wf(self) -> bool {
        self.0 < VPN_LIMIT
    }

    /// The page number made of the low 27 bits of `v`.
    pub fn new(v: u64) -> (r: Self)
        ensures
            r.wf(),
            r.0 == v % VPN_LIMIT,
            v < VPN_LIMIT ==> r.0 == v,
    {
        VirtPageNum(v % VPN_LIMIT)
    }

    /// Index of this page in the page-table node of `level`: 2 is the root,
    /// 0 the node that holds the leaf entry.
    pub open spec fn index(self, level: int) -> int {
        if level == 2 {
            (self.0 as int / 262144) % 512
        } else if level == 1 {
            (self.0 as int / 512) % 512
        } else {
            self.0 as int % 512
        }
    }

    /// The three node indexes of this page, root first.
    pub fn indexes(&self) -> (r: (usize, usize, usize))
        ensures
            r.0 == self.index(2),
            r.1 == self.index(1),
            r.2 == self.index(0),
            r.0 < 512 && r.1 < 512 && r.2 < 512,
    {
        let i2: u64 = (self.0 / 262144) % 512;
        let i1: u64 = (self.0 / 512) % 512;
        let i0: u64 = self.0 % 512;
        (i2 as usize, i1 as usize, i0 as usize)
    }
}

impl PhysPageNum {
    pub open spec fn wf(self) -> bool {
        self.0 < PPN_LIMIT
    }

    /// The frame number made of the low 44 bits of `v`.
    pub fn new(v: u64) -> (r: Self)
        ensures
            r.wf(),
            r.0 == v % PPN_LIMIT,
            v < PPN_LIMIT ==> r.0 == v,
    {
        PhysPageNum(v % PPN_LIMIT)
    }
}

/// The half-open range `[start, end)` of virtual page numbers.
#[derive(Copy, Clone, Debug, PartialEq, Eq, Structural)]
pub struct VPNRange {
    l: VirtPageNum,
    r: VirtPageNum,
}

impl VPNRange {
    pub closed spec fn start(self) -> u64 {
        self.l.0
    }

    pub closed spec fn end(self) -> u64 {
        self.r.0
    }

    /// Whether `vpn` lies in the range.
    pub open spec fn contains(self, vpn: u64) -> bool {
        self.start() <= vpn < self.end()
    }

    /// A range starts no later than it ends.
    pub open spec fn wf(self) -> bool {
        self.start() <= self.end()
    }

    pub fn new(start: VirtPageNum, end: VirtPageNum) -> (r: Self)
        requires
            start.0 <= end.0,
        ensures
            r.wf(),
            r.start() == start.0,
            r.end() == end.0,
    {
        VPNRange { l: start, r: end }
    }

    pub fn get_start(&self) -> (r: VirtPageNum)
        ensures
            r.0 == self.start(),
    {
        self.l
    }

    pub fn get_end(&self) -> (r: VirtPageNum)
        ensures
            r.0 == self.end(),
    {
        self.r
    }

    /// Number of pages in the range.
    pub fn len(&self) -> (r: u64)
        requires
            self.wf(),
        ensures
            r == self.end() - self.start(),
    {
        self.r.0 - self.l.0
    }
}

} // verus!
