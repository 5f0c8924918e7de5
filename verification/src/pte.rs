//! Page-table entries of the Sv39 format and their flag bits.

use vstd::prelude::*;
use crate::address::PhysPageNum;
use crate::config::PPN_LIMIT;

verus! {

/// The flag bits of a page-table entry: the eight that the hardware defines
/// and `COW`, a bit the hardware leaves to software.
#[derive(Copy, Clone, Debug, PartialEq, Eq, Structural)]
pub struct PTEFlags {
    pub bits: u16,
}

/// Valid.
pub const PTE_V: u16 = 0x001;

/// Readable.
pub const PTE_R: u16 = 0x002;

/// Writable.
pub const PTE_W: u16 = 0x004;

/// Executable.
pub const PTE_X: u16 = 0x008;

/// Accessible in user mode.
pub const PTE_U: u16 = 0x010;

/// Global.
pub const PTE_G: u16 = 0x020;

/// Accessed.
pub const PTE_A: u16 = 0x040;

/// Dirty.
pub const PTE_D: u16 = 0x080;

/// Copy-on-write: the page is shared and its write permission was taken away
/// to make a write trap.
pub const PTE_COW: u16 = 0x100;

impl PTEFlags {
    /// Only defined bits are set.
    pub open spec fn wf(self) -> bool {
        self.bits < 0x200
    }

    /// Whether every bit of `mask` is set.
    pub open spec fn has(self, mask: u16) -> bool {
        self.bits & mask == mask
    }

    /// These flags and those of `mask`.
    pub open spec fn with(self, mask: u16) -> PTEFlags {
        PTEFlags { bits: self.bits | mask }
    }

    /// These flags but those of `mask`.
    pub open spec fn without(self, mask: u16) -> PTEFlags {
        PTEFlags { bits: self.bits & !mask }
    }

    /// No flag.
    pub fn empty() -> (r: Self)
        ensures
            r.bits == 0,
    {
        PTEFlags { bits: 0 }
    }

    /// The flags with exactly the bits of `bits`, if all of them are defined.
    pub fn from_bits(bits: u16) -> (r: Option<Self>)
        ensures
            r == if bits < 0x200 {
                Some(PTEFlags { bits })
            } else {
                None
            },
    {
        if bits < 0x200 {
            Some(PTEFlags { bits })
        } else {
            None
        }
    }

    /// Whether every bit of `mask` is set.
    pub fn contains(&self, mask: u16) -> (r: bool)
        ensures
            r == self.has(mask),
    {
        self.bits & mask == mask
    }

    /// These flags and those of `mask`.
    pub fn union(&self, mask: u16) -> (r: Self)
        ensures
            r == self.with(mask),
            self.wf() && mask < 0x200 ==> r.wf(),
    {
        let a = self.bits;
        let b = mask;
        proof {
            assert(a < 0x200 && b < 0x200 ==> (a | b) < 0x200) by (bit_vector);
        }
        PTEFlags { bits: a | b }
    }

    /// These flags but those of `mask`.
    pub fn difference(&self, mask: u16) -> (r: Self)
        ensures
            r == self.without(mask),
            self.wf() ==> r.wf(),
    {
        let a = self.bits;
        let b = mask;
        proof {
            assert((a & !b) <= a) by (bit_vector);
        }
        PTEFlags { bits: a & !b }
    }
}

/// What setting and clearing the valid, writable and copy-on-write bits
/// does to flag bits `b`.
pub proof fn lemma_flag_bits(b: u16)
    ensures
        b < 0x200 ==> (b | 1) < 0x200 && (b | 0x100) < 0x200 && (b & !0x100u16) < 0x200 && ((b
            & !0x100u16) | 4) < 0x200 && (((b & !4u16) | 1) | 0x100) < 0x200,
        (b | 1) & 1 == 1,
        b & 1 == 1 ==> (b | 0x100) & 1 == 1 && (b & !0x100u16) & 1 == 1 && ((b & !0x100u16) | 4)
            & 1 == 1,
        ((b & !0x100u16) | 4) & 4 == 4,
        ((b & !0x100u16) | 4) & 0x100 != 0x100,
        (((b & !4u16) | 1) | 0x100) & 0x100 == 0x100,
        (((b & !4u16) | 1) | 0x100) & 4 != 4,
        (((b & !4u16) | 1) | 0x100) & 1 == 1,
{
    assert((b < 0x200 ==> (b | 1) < 0x200 && (b | 0x100) < 0x200 && (b & !0x100u16) < 0x200 && ((b
        & !0x100u16) | 4) < 0x200 && (((b & !4u16) | 1) | 0x100) < 0x200) && (b | 1) & 1 == 1 && (b
        & 1 == 1 ==> (b | 0x100) & 1 == 1 && (b & !0x100u16) & 1 == 1 && ((b & !0x100u16) | 4) & 1
        == 1) && ((b & !0x100u16) | 4) & 4 == 4 && ((b & !0x100u16) | 4) & 0x100 != 0x100 && (((b
        & !4u16) | 1) | 0x100) & 0x100 == 0x100 && (((b & !4u16) | 1) | 0x100) & 4 != 4 && (((b
        & !4u16) | 1) | 0x100) & 1 == 1) by (bit_vector);
}

/// One page-table entry: a physical page number above ten flag bits, of
/// which the highest is not used.
#[derive(Copy, Clone, Debug, PartialEq, Eq, Structural)]
pub struct PageTableEntry {
    pub bits: u64,
}

impl PageTableEntry {
    /// The entry that holds `ppn` and `flags`.
    pub open spec fn spec_new(ppn: PhysPageNum, flags: PTEFlags) -> PageTableEntry {
        PageTableEntry { bits: (ppn.0 * 1024 + flags.bits) as u64 }
    }

    /// The physical page number that the entry holds.
    pub open spec fn spec_ppn(&self) -> PhysPageNum {
        PhysPageNum(((self.bits / 1024) % PPN_LIMIT) as u64)
    }

    /// The flag bits that the entry holds.
    pub open spec fn spec_flags(&self) -> PTEFlags {
        PTEFlags { bits: (self.bits % 512) as u16 }
    }

    /// Whether the `V` bit is set.
    pub open spec fn spec_is_valid(&self) -> bool {
        self.bits % 2 == 1
    }

    /// An entry built from a page number and flags holds exactly these.
    pub proof fn lemma_new_fields(ppn: PhysPageNum, flags: PTEFlags)
        requires
            ppn.wf(),
            flags.wf(),
        ensures
            Self::spec_new(ppn, flags).spec_ppn() == ppn,
            Self::spec_new(ppn, flags).spec_flags() == flags,
            Self::spec_new(ppn, flags).spec_is_valid() == flags.has(PTE_V),
            Self::spec_new(ppn, flags).bits == ppn.0 * 1024 + flags.bits,
    {
        let b = flags.bits;
        assert((b & 1 == 1) == (b % 2 == 1)) by (bit_vector);
    }

    /// The valid bit is the `V` flag.
    pub proof fn lemma_valid_flag(self)
        ensures
            self.spec_is_valid() == self.spec_flags().has(PTE_V),
    {
        let b = self.spec_flags().bits;
        assert((b & 1 == 1) == (b % 2 == 1)) by (bit_vector);
    }

    #[verifier::when_used_as_spec(spec_new)]
    pub fn new(ppn: PhysPageNum, flags: PTEFlags) -> (r: Self)
        requires
            ppn.wf(),
            flags.wf(),
        ensures
            r == Self::spec_new(ppn, flags),
    {
        PageTableEntry { bits: ppn.0 * 1024 + flags.bits as u64 }
    }

    /// The entry of all zero bits, which is not valid.
    pub fn empty() -> (r: Self)
        ensures
            r.bits == 0,
            !r.spec_is_valid(),
    {
        PageTableEntry { bits: 0 }
    }

    #[verifier::when_used_as_spec(spec_ppn)]
    pub fn ppn(&self) -> (r: PhysPageNum)
        ensures
            r == self.spec_ppn(),
            r.wf(),
    {
        PhysPageNum((self.bits / 1024) % PPN_LIMIT)
    }

    #[verifier::when_used_as_spec(spec_flags)]
    pub fn flags(&self) -> (r: PTEFlags)
        ensures
            r == self.spec_flags(),
            r.wf(),
    {
        PTEFlags { bits: (self.bits % 512) as u16 }
    }

    #[verifier::when_used_as_spec(spec_is_valid)]
    pub fn is_valid(&self) -> (r: bool)
        ensures
            r == self.spec_is_valid(),
    {
        self.bits % 2 == 1
    }

    pub fn readable(&self) -> (r: bool)
        ensures
            r == self.spec_flags().has(PTE_R),
    {
        self.flags().contains(PTE_R)
    }

    pub fn writable(&self) -> (r: bool)
        ensures
            r == self.spec_flags().has(PTE_W),
    {
        self.flags().contains(PTE_W)
    }

    pub fn executable(&self) -> (r: bool)
        ensures
            r == self.spec_flags().has(PTE_X),
    {
        self.flags().contains(PTE_X)
    }

    /// Whether the copy-on-write bit is set.
    pub fn is_cow(&self) -> (r: bool)
        ensures
            r == self.spec_flags().has(PTE_COW),
    {
        self.flags().contains(PTE_COW)
    }
}

} // verus!
