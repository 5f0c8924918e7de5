//! What an address space is built from when a program is loaded: the fields
//! of the ELF program headers, as plain values.

use vstd::prelude::*;
use crate::address::{page_ceil, page_floor};
use crate::config::VA_LIMIT;
use crate::map_area::{MapPermission, MAP_R, MAP_U, MAP_W, MAP_X};
use crate::memory_set::Span;

verus! {

/// The magic number that an ELF image starts with.
pub const ELF_MAGIC: [u8; 4] = [0x7f, 0x45, 0x4c, 0x46];

/// The fields of one program header that loading reads.
#[derive(Copy, Clone, Debug, PartialEq, Eq, Structural)]
pub struct ProgramHeader {
    /// Whether the segment is of the loadable type.
    pub is_load: bool,
    /// Address of the segment in memory.
    pub virtual_addr: u64,
    /// Size of the segment in memory.
    pub mem_size: u64,
    /// Offset of the segment's bytes in the image.
    pub offset: u64,
    /// Number of the segment's bytes in the image.
    pub file_size: u64,
    /// The segment's permission flags.
    pub flags: u32,
}

/// What loading reads of the headers of an ELF image.
pub struct ElfHeaders {
    pub entry_point: u64,
    pub program_headers: Vec<ProgramHeader>,
}

/// Whether a segment with the permission flags `flags` may be read.
///
/// Trusted: calls `xmas_elf::program::Flags::is_read`, which tests the bit
/// `FLAG_R`, 0x4.
#[verifier::external_body]
fn flags_is_read(flags: u32) -> (r: bool)
    ensures
        r == (flags & 0x4 == 0x4),
{
    xmas_elf::program::Flags(flags).is_read()
}

/// Whether a segment with the permission flags `flags` may be written.
///
/// Trusted: calls `xmas_elf::program::Flags::is_write`, which tests the bit
/// `FLAG_W`, 0x2.
#[verifier::external_body]
fn flags_is_write(flags: u32) -> (r: bool)
    ensures
        r == (flags & 0x2 == 0x2),
{
    xmas_elf::program::Flags(flags).is_write()
}

/// Whether a segment with the permission flags `flags` may be executed.
///
/// Trusted: calls `xmas_elf::program::Flags::is_execute`, which tests the
/// bit `FLAG_X`, 0x1.
#[verifier::external_body]
fn flags_is_execute(flags: u32) -> (r: bool)
    ensures
        r == (flags & 0x1 == 0x1),
{
    xmas_elf::program::Flags(flags).is_execute()
}

/// The permission bits of the region for a segment with the flags `flags`:
/// user access, and what the flags allow.
pub open spec fn segment_perm(flags: u32) -> u8 {
    let r: u8 = if flags & 0x4 == 0x4 {
        MAP_R
    } else {
        0
    };
    let w: u8 = if flags & 0x2 == 0x2 {
        MAP_W
    } else {
        0
    };
    let x: u8 = if flags & 0x1 == 0x1 {
        MAP_X
    } else {
        0
    };
    ((MAP_U | r) | w) | x
}

impl ProgramHeader {
    /// The segment can be loaded from an image of `len` bytes: it lies in
    /// the address space and holds a page at least, its bytes lie in the
    /// image, and they fit its pages.
    pub open spec fn loadable(self, len: int) -> bool {
        &&& self.virtual_addr + self.mem_size < VA_LIMIT
        &&& page_floor(self.virtual_addr as int) < page_ceil(self.virtual_addr + self.mem_size)
        &&& self.offset + self.file_size <= len
        &&& self.file_size <= (page_ceil(self.virtual_addr + self.mem_size) - page_floor(
            self.virtual_addr as int,
        )) * 4096
    }

    /// The region of the segment.
    pub open spec fn span(self) -> Span {
        Span {
            start: page_floor(self.virtual_addr as int),
            end: page_ceil(self.virtual_addr + self.mem_size),
            framed: true,
            perm: MapPermission { bits: segment_perm(self.flags) },
            shared: false,
        }
    }

    /// The bytes of the segment in `image`.
    pub open spec fn data(self, image: Seq<u8>) -> Seq<u8> {
        image.subrange(self.offset as int, self.offset + self.file_size)
    }

    /// Whether the segment can be loaded from an image of `len` bytes.
    pub fn is_loadable(&self, len: usize) -> (r: bool)
        ensures
            r == self.loadable(len as int),
    {
        if self.virtual_addr >= VA_LIMIT || self.mem_size >= VA_LIMIT {
            return false;
        }
        let end: u64 = self.virtual_addr + self.mem_size;
        if end >= VA_LIMIT {
            return false;
        }
        let first: u64 = self.virtual_addr / 4096;
        let last: u64 = (end + 4095) / 4096;
        if first >= last {
            return false;
        }
        if self.offset > len as u64 || self.file_size > len as u64 - self.offset {
            return false;
        }
        self.file_size <= (last - first) * 4096
    }

    /// The permissions of the region for the segment.
    pub fn map_perm(&self) -> (r: MapPermission)
        ensures
            r.bits == segment_perm(self.flags),
            r.wf(),
    {
        let mut map_perm = MapPermission { bits: MAP_U };
        proof {
            crate::map_area::lemma_permission_constants();
            assert(forall|a: u8| #[trigger] (a | 0) == a) by (bit_vector);
        }
        if flags_is_read(self.flags) {
            map_perm = map_perm.union(MAP_R);
        }
        if flags_is_write(self.flags) {
            map_perm = map_perm.union(MAP_W);
        }
        if flags_is_execute(self.flags) {
            map_perm = map_perm.union(MAP_X);
        }
        map_perm
    }
}

/// The regions of the loadable segments among `headers`, in their order.
pub open spec fn load_spans(headers: Seq<ProgramHeader>) -> Seq<Span>
    decreases headers.len(),
{
    if headers.len() == 0 {
        Seq::empty()
    } else if headers.last().is_load {
        load_spans(headers.drop_last()).push(headers.last().span())
    } else {
        load_spans(headers.drop_last())
    }
}

/// Number of loadable segments before header `i`: the index of the region
/// of header `i`, if its segment is loadable.
pub open spec fn load_index(headers: Seq<ProgramHeader>, i: int) -> int {
    load_spans(headers.take(i)).len() as int
}

/// The page behind the last page of the loadable segments among
/// `headers`, 0 where there is none.
pub open spec fn max_end_vpn(headers: Seq<ProgramHeader>) -> int
    decreases headers.len(),
{
    if headers.len() == 0 {
        0
    } else {
        let rest = max_end_vpn(headers.drop_last());
        if headers.last().is_load && headers.last().span().end > rest {
            headers.last().span().end
        } else {
            rest
        }
    }
}

/// The regions of the first `i` headers are the first regions of all the
/// headers.
pub proof fn lemma_load_spans_prefix(headers: Seq<ProgramHeader>, i: int)
    requires
        0 <= i <= headers.len(),
    ensures
        load_spans(headers.take(i)).len() <= load_spans(headers).len(),
        forall|j: int|
            0 <= j < load_spans(headers.take(i)).len() ==> load_spans(headers)[j] == load_spans(
                headers.take(i),
            )[j],
    decreases headers.len() - i,
{
    if i == headers.len() {
        assert(headers.take(i) =~= headers);
    } else {
        lemma_load_spans_prefix(headers, i + 1);
        assert(headers.take(i + 1).drop_last() =~= headers.take(i));
    }
}

/// What one more header adds to the regions and to their end.
pub proof fn lemma_load_spans_step(headers: Seq<ProgramHeader>, i: int)
    requires
        0 <= i < headers.len(),
    ensures
        load_spans(headers.take(i + 1)) == if headers[i].is_load {
            load_spans(headers.take(i)).push(headers[i].span())
        } else {
            load_spans(headers.take(i))
        },
        max_end_vpn(headers.take(i + 1)) == if headers[i].is_load && headers[i].span().end
            > max_end_vpn(headers.take(i)) {
            headers[i].span().end
        } else {
            max_end_vpn(headers.take(i))
        },
        headers[i].is_load ==> load_spans(headers)[load_index(headers, i)] == headers[i].span()
            && load_index(headers, i) < load_spans(headers).len(),
{
    assert(headers.take(i + 1).drop_last() =~= headers.take(i));
    assert(headers.take(i + 1).last() == headers[i]);
    lemma_load_spans_prefix(headers, i + 1);
}

} // verus!
