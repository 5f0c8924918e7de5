//! Physical memory as an explicit value: the page frames a kernel manages,
//! their contents, and the allocator that hands them out.

use vstd::prelude::*;
use crate::address::PhysPageNum;
use crate::config::PPN_LIMIT;

verus! {

/// Handle of one allocated physical frame. Whoever holds it is the one to
/// hand it back with [`PhysMemory::frame_dealloc`].
#[derive(Copy, Clone, Debug, PartialEq, Eq, Structural)]
pub struct FrameTracker {
    pub ppn: PhysPageNum,
}

/// The managed frames `[base, end)`, each 512 words of 64 bits, and a stack
/// allocator over them: frames below `current` have been handed out at least
/// once, and `recycled` holds those that came back.
pub struct PhysMemory {
    base: u64,
    data: Vec<u64>,
    current: u64,
    recycled: Vec<u64>,
}

/// Byte `k` (0 is the lowest) of the little-endian word `w`.
pub open spec fn word_byte(w: u64, k: u64) -> u8 {
    ((w >> (8 * k)) & 0xff) as u8
}

/// The word `w` with its byte `k` replaced by `b`.
pub open spec fn word_with_byte(w: u64, k: u64, b: u8) -> u64 {
    (w & !(0xffu64 << (8 * k))) | ((b as u64) << (8 * k))
}

/// The 4096 bytes that 512 little-endian words hold.
pub open spec fn words_to_bytes(words: Seq<u64>) -> Seq<u8> {
    Seq::new(4096, |i: int| word_byte(words[i / 8], (i % 8) as u64))
}

/// A page of zero words.
pub open spec fn zero_words() -> Seq<u64> {
    Seq::new(512, |i: int| 0u64)
}

pub proof fn lemma_word_with_byte(w: u64, k: u64, b: u8, j: u64)
    requires
        k < 8,
        j < 8,
    ensures
        word_byte(word_with_byte(w, k, b), j) == (if j == k {
            b
        } else {
            word_byte(w, j)
        }),
{
    assert(word_byte(word_with_byte(w, k, b), j) == (if j == k {
        b
    } else {
        word_byte(w, j)
    })) by (bit_vector)
        requires
            k < 8,
            j < 8,
    ;
}

pub proof fn lemma_zero_word_bytes(k: u64)
    requires
        k < 8,
    ensures
        word_byte(0, k) == 0,
{
    assert(word_byte(0, k) == 0) by (bit_vector)
        requires
            k < 8,
    ;
}

/// A page of zero words is a page of zero bytes.
pub proof fn lemma_zero_bytes()
    ensures
        words_to_bytes(zero_words()).len() == 4096,
        forall|i: int| 0 <= i < 4096 ==> #[trigger] words_to_bytes(zero_words())[i] == 0,
{
    assert forall|i: int| 0 <= i < 4096 implies #[trigger] words_to_bytes(zero_words())[i] == 0 by {
        lemma_zero_word_bytes((i % 8) as u64);
    }
}

impl PhysMemory {
    /// Number of the first managed frame.
    pub closed spec fn base(&self) -> u64 {
        self.base
    }

    /// Number one past the last managed frame.
    pub closed spec fn end(&self) -> int {
        self.base + self.data.len() / 512
    }

    /// Whether frame `ppn` is one of the managed frames.
    pub open spec fn managed(&self, ppn: u64) -> bool {
        self.base() <= ppn < self.end()
    }

    /// Whether frame `ppn` is handed out at present.
    pub closed spec fn is_allocated(&self, ppn: u64) -> bool {
        self.base <= ppn < self.current && !self.recycled@.contains(ppn)
    }

    /// The frame that is handed out next, where one is free: the one that
    /// came back last, or the lowest that was never handed out.
    pub closed spec fn next_free(&self) -> u64 {
        if self.recycled.len() > 0 {
            self.recycled@.last()
        } else {
            self.current
        }
    }

    /// Number of frames that can still be handed out.
    pub closed spec fn free_count(&self) -> nat {
        (self.end() - self.current + self.recycled.len()) as nat
    }

    /// The 512 words of managed frame `ppn`.
    pub closed spec fn words(&self, ppn: u64) -> Seq<u64> {
        self.data@.subrange((ppn - self.base) * 512, (ppn - self.base) * 512 + 512)
    }

    /// The 4096 bytes of managed frame `ppn`.
    pub open spec fn bytes(&self, ppn: u64) -> Seq<u8> {
        words_to_bytes(self.words(ppn))
    }

    pub closed spec fn wf(&self) -> bool {
        &&& self.data.len() % 512 == 0
        &&& self.base + self.data.len() / 512 <= PPN_LIMIT
        &&& self.base <= self.current <= self.end()
        &&& self.recycled@.no_duplicates()
        &&& forall|i: int|
            0 <= i < self.recycled.len() ==> self.base <= #[trigger] self.recycled[i]
                < self.current
    }

    /// The managed range of `self` is that of `old`.
    pub open spec fn same_range(&self, old: &PhysMemory) -> bool {
        self.base() == old.base() && self.end() == old.end()
    }

    /// `self` is `old` but for the frames in `touched`: every other frame
    /// that was allocated still is, with the words it had, and no frame
    /// outside `touched` was freed or handed out.
    pub open spec fn same_outside(&self, old: &PhysMemory, touched: Set<u64>) -> bool {
        &&& self.same_range(old)
        &&& forall|p: u64|
            !touched.contains(p) ==> (#[trigger] self.is_allocated(p) == old.is_allocated(p))
        &&& forall|p: u64|
            old.managed(p) && !touched.contains(p) ==> #[trigger] self.words(p) == old.words(p)
    }

    /// A step from `old` to `self` by an owner whose frames were `before`
    /// and are `after`: no frame outside these changed, was handed out or
    /// was freed; each frame gained was free in `old`, and each frame given
    /// up is free in `self`.
    pub open spec fn stepped(&self, old: &PhysMemory, before: Set<u64>, after: Set<u64>) -> bool {
        &&& self.same_outside(old, before + after)
        &&& forall|p: u64| after.contains(p) && !before.contains(p) ==> !old.is_allocated(p)
        &&& forall|p: u64| before.contains(p) && !after.contains(p) ==> !self.is_allocated(p)
    }

    /// Allocated frames are managed frames with valid numbers.
    pub proof fn lemma_allocated_managed(&self, ppn: u64)
        requires
            self.wf(),
            self.is_allocated(ppn),
        ensures
            self.managed(ppn),
            ppn < PPN_LIMIT,
    {
    }

    /// A managed frame has 512 words and a valid number.
    pub proof fn lemma_words_len(&self, ppn: u64)
        requires
            self.wf(),
            self.managed(ppn),
        ensures
            self.words(ppn).len() == 512,
            ppn < PPN_LIMIT,
    {
    }

    /// A memory of `n_frames` zeroed frames starting at frame `base`, none of
    /// them handed out.
    pub fn new(base: PhysPageNum, n_frames: usize) -> (r: Self)
        requires
            base.0 + n_frames <= PPN_LIMIT,
            n_frames * 512 <= usize::MAX,
        ensures
            r.wf(),
            r.base() == base.0,
            r.end() == base.0 + n_frames,
            r.free_count() == n_frames,
            forall|p: u64| !r.is_allocated(p),
            forall|p: u64| r.managed(p) ==> #[trigger] r.words(p) == zero_words(),
    {
        let total: usize = n_frames * 512;
        let mut data: Vec<u64> = Vec::new();
        let mut i: usize = 0;
        while i < total
            invariant
                i <= total,
                data.len() == i,
                forall|j: int| 0 <= j < i ==> data[j] == 0,
            decreases total - i,
        {
            data.push(0);
            i += 1;
        }
        let r = PhysMemory { base: base.0, data, current: base.0, recycled: Vec::new() };
        proof {
            assert forall|p: u64| r.managed(p) implies #[trigger] r.words(p) == zero_words() by {
                assert(r.words(p) =~= zero_words());
            }
        }
        r
    }

    /// Number of the first managed frame.
    pub fn base_ppn(&self) -> (r: PhysPageNum)
        ensures
            r.0 == self.base(),
    {
        PhysPageNum(self.base)
    }

    /// Number of managed frames.
    pub fn frame_count(&self) -> (r: usize)
        requires
            self.wf(),
        ensures
            r == self.end() - self.base(),
    {
        self.data.len() / 512
    }

    /// Number of frames that can still be handed out.
    pub fn free_frames(&self) -> (r: usize)
        requires
            self.wf(),
        ensures
            r == self.free_count(),
    {
        proof {
            self.recycled@.unique_seq_to_set();
            lemma_recycled_bound(self.recycled@, self.base as int, self.current as int);
        }
        let never: u64 = self.base + (self.data.len() / 512) as u64 - self.current;
        never as usize + self.recycled.len()
    }

    /// Whether `ppn` is one of the managed frames.
    pub fn is_managed(&self, ppn: PhysPageNum) -> (r: bool)
        requires
            self.wf(),
        ensures
            r == self.managed(ppn.0),
    {
        ppn.0 >= self.base && ppn.0 - self.base < (self.data.len() / 512) as u64
    }

    /// Hands out a free frame, zeroed, or `None` when none is free.
    pub fn frame_alloc(&mut self) -> (r: Option<FrameTracker>)
        requires
            old(self).wf(),
        ensures
            final(self).wf(),
            final(self).same_range(old(self)),
            r is None <==> old(self).free_count() == 0,
            r is None ==> *final(self) == *old(self),
            r matches Some(f) ==> {
                &&& f.ppn.0 == old(self).next_free()
                &&& !old(self).is_allocated(f.ppn.0)
                &&& final(self).is_allocated(f.ppn.0)
                &&& final(self).managed(f.ppn.0)
                &&& f.ppn.wf()
                &&& final(self).words(f.ppn.0) == zero_words()
                &&& final(self).free_count() == old(self).free_count() - 1
                &&& final(self).same_outside(old(self), set![f.ppn.0])
            },
    {
        let ghost before = *self;
        let ppn: u64;
        if self.recycled.len() > 0 {
            ppn = self.recycled.pop().unwrap();
            proof {
                let rec = before.recycled@;
                assert(rec[rec.len() - 1] == ppn);
                assert(self.recycled@ =~= rec.drop_last());
                assert forall|p: u64| p != ppn implies (self.recycled@.contains(p)
                    == rec.contains(p)) by {
                    if rec.contains(p) {
                        let k = choose|k: int| 0 <= k < rec.len() && rec[k] == p;
                        assert(self.recycled@[k] == p);
                    }
                }
                assert(!self.recycled@.contains(ppn)) by {
                    if self.recycled@.contains(ppn) {
                        let k = choose|k: int| 0 <= k < self.recycled@.len() && self.recycled@[k] == ppn;
                        assert(rec[k] == rec[rec.len() - 1]);
                    }
                }
            }
        } else if self.current - self.base < (self.data.len() / 512) as u64 {
            ppn = self.current;
            self.current = self.current + 1;
        } else {
            return None;
        }
        let start: usize = ((ppn - self.base) * 512) as usize;
        let mut i: usize = 0;
        while i < 512
            invariant
                i <= 512,
                start + 512 <= self.data.len(),
                start == (ppn - self.base) * 512,
                self.base == before.base,
                self.current == if before.recycled.len() > 0 { before.current } else { (before.current + 1) as u64 },
                self.recycled@ == if before.recycled.len() > 0 { before.recycled@.drop_last() } else { before.recycled@ },
                self.data.len() == before.data.len(),
                forall|j: int| start <= j < start + i ==> self.data[j] == 0,
                forall|j: int|
                    0 <= j < self.data.len() && !(start <= j < start + 512) ==> self.data[j]
                        == before.data[j],
            decreases 512 - i,
        {
            self.data.set(start + i, 0);
            i += 1;
        }
        proof {
            assert(self.words(ppn) =~= zero_words());
            assert forall|p: u64| before.managed(p) && p != ppn implies #[trigger] self.words(p)
                == before.words(p) by {
                assert(self.words(p) =~= before.words(p));
            }
        }
        Some(FrameTracker { ppn: PhysPageNum(ppn) })
    }

    /// Takes back an allocated frame.
    pub fn frame_dealloc(&mut self, frame: FrameTracker)
        requires
            old(self).wf(),
            old(self).is_allocated(frame.ppn.0),
        ensures
            final(self).wf(),
            !final(self).is_allocated(frame.ppn.0),
            final(self).free_count() == old(self).free_count() + 1,
            final(self).same_outside(old(self), set![frame.ppn.0]),
            final(self).words(frame.ppn.0) == old(self).words(frame.ppn.0),
    {
        let ghost before = *self;
        self.recycled.push(frame.ppn.0);
        proof {
            let ppn = frame.ppn.0;
            let rec = before.recycled@;
            assert(self.recycled@ == rec.push(ppn));
            assert(self.recycled@[rec.len() as int] == ppn);
            assert forall|p: u64| p != ppn implies (self.recycled@.contains(p) == rec.contains(
                p,
            )) by {
                if rec.contains(p) {
                    let k = choose|k: int| 0 <= k < rec.len() && rec[k] == p;
                    assert(self.recycled@[k] == p);
                }
            }
            assert(self.recycled@.no_duplicates()) by {
                assert forall|i: int, j: int|
                    0 <= i < self.recycled@.len() && 0 <= j < self.recycled@.len() && i
                        != j implies self.recycled@[i] != self.recycled@[j] by {
                    if i < rec.len() && j < rec.len() {
                    } else if i < rec.len() {
                        assert(rec.contains(rec[i]));
                    } else if j < rec.len() {
                        assert(rec.contains(rec[j]));
                    }
                }
            }
        }
    }

    /// Word `idx` of managed frame `ppn`.
    pub fn read_word(&self, ppn: PhysPageNum, idx: usize) -> (r: u64)
        requires
            self.wf(),
            self.managed(ppn.0),
            idx < 512,
        ensures
            r == self.words(ppn.0)[idx as int],
    {
        self.data[((ppn.0 - self.base) * 512) as usize + idx]
    }

    /// Stores `val` as word `idx` of managed frame `ppn`.
    pub fn write_word(&mut self, ppn: PhysPageNum, idx: usize, val: u64)
        requires
            old(self).wf(),
            old(self).managed(ppn.0),
            idx < 512,
        ensures
            final(self).wf(),
            final(self).words(ppn.0) == old(self).words(ppn.0).update(idx as int, val),
            final(self).free_count() == old(self).free_count(),
            final(self).same_range(old(self)),
            forall|p: u64| final(self).is_allocated(p) == old(self).is_allocated(p),
            forall|p: u64|
                old(self).managed(p) && p != ppn.0 ==> #[trigger] final(self).words(p) == old(
                    self,
                ).words(p),
    {
        let ghost before = *self;
        let at: usize = ((ppn.0 - self.base) * 512) as usize + idx;
        self.data.set(at, val);
        proof {
            assert(self.words(ppn.0) =~= before.words(ppn.0).update(idx as int, val));
            assert forall|p: u64| before.managed(p) && p != ppn.0 implies #[trigger] self.words(
                p,
            ) == before.words(p) by {
                assert(self.words(p) =~= before.words(p));
            }
        }
    }

    /// Byte `offset` of managed frame `ppn`.
    pub fn read_byte(&self, ppn: PhysPageNum, offset: usize) -> (r: u8)
        requires
            self.wf(),
            self.managed(ppn.0),
            offset < 4096,
        ensures
            r == self.bytes(ppn.0)[offset as int],
    {
        let w: u64 = self.read_word(ppn, offset / 8);
        let k: u64 = (offset % 8) as u64;
        proof {
            self.lemma_words_len(ppn.0);
            assert(((w >> (8 * k)) & 0xff) < 256) by (bit_vector);
        }
        ((w >> (8 * k)) & 0xff) as u8
    }

    /// Stores `val` as byte `offset` of managed frame `ppn`.
    pub fn write_byte(&mut self, ppn: PhysPageNum, offset: usize, val: u8)
        requires
            old(self).wf(),
            old(self).managed(ppn.0),
            offset < 4096,
        ensures
            final(self).wf(),
            final(self).bytes(ppn.0) == old(self).bytes(ppn.0).update(offset as int, val),
            final(self).free_count() == old(self).free_count(),
            final(self).same_range(old(self)),
            forall|p: u64| final(self).is_allocated(p) == old(self).is_allocated(p),
            forall|p: u64|
                old(self).managed(p) && p != ppn.0 ==> #[trigger] final(self).words(p) == old(
                    self,
                ).words(p),
    {
        let ghost before = *self;
        let w: u64 = self.read_word(ppn, offset / 8);
        let k: u64 = (offset % 8) as u64;
        let nw: u64 = (w & !(0xffu64 << (8 * k))) | ((val as u64) << (8 * k));
        self.write_word(ppn, offset / 8, nw);
        proof {
            before.lemma_words_len(ppn.0);
            assert forall|i: int| 0 <= i < 4096 implies self.bytes(ppn.0)[i] == before.bytes(
                ppn.0,
            ).update(offset as int, val)[i] by {
                if i / 8 == offset as int / 8 {
                    lemma_word_with_byte(w, k, val, (i % 8) as u64);
                }
            }
            assert(self.bytes(ppn.0) =~= before.bytes(ppn.0).update(offset as int, val));
        }
    }

    /// Copies the contents of frame `src` into frame `dst`.
    pub fn copy_frame(&mut self, dst: PhysPageNum, src: PhysPageNum)
        requires
            old(self).wf(),
            old(self).managed(dst.0),
            old(self).managed(src.0),
        ensures
            final(self).wf(),
            final(self).words(dst.0) == old(self).words(src.0),
            final(self).free_count() == old(self).free_count(),
            final(self).same_range(old(self)),
            forall|p: u64| final(self).is_allocated(p) == old(self).is_allocated(p),
            forall|p: u64|
                old(self).managed(p) && p != dst.0 ==> #[trigger] final(self).words(p) == old(
                    self,
                ).words(p),
    {
        let ghost before = *self;
        proof {
            before.lemma_words_len(src.0);
            before.lemma_words_len(dst.0);
        }
        if src.0 == dst.0 {
            return ;
        }
        let mut i: usize = 0;
        while i < 512
            invariant
                i <= 512,
                self.wf(),
                self.managed(dst.0),
                self.managed(src.0),
                src.0 != dst.0,
                self.same_range(&before),
                self.free_count() == before.free_count(),
                before.words(src.0).len() == 512,
                self.words(dst.0).len() == 512,
                forall|p: u64| self.is_allocated(p) == before.is_allocated(p),
                forall|p: u64|
                    before.managed(p) && p != dst.0 ==> #[trigger] self.words(p) == before.words(
                        p,
                    ),
                forall|j: int| 0 <= j < i ==> self.words(dst.0)[j] == before.words(src.0)[j],
            decreases 512 - i,
        {
            let w: u64 = self.read_word(src, i);
            assert(self.words(src.0) == before.words(src.0));
            self.write_word(dst, i, w);
            i += 1;
        }
        proof {
            assert(self.words(dst.0) =~= before.words(src.0));
        }
    }
}

/// A duplicate-free sequence of numbers from `[lo, hi)` has at most
/// `hi - lo` entries.
proof fn lemma_recycled_bound(s: Seq<u64>, lo: int, hi: int)
    requires
        s.no_duplicates(),
        lo <= hi,
        forall|i: int| 0 <= i < s.len() ==> lo <= #[trigger] s[i] < hi,
    ensures
        s.len() <= hi - lo,
    decreases hi - lo,
{
    if s.len() == 0 {
    } else if lo == hi {
        assert(lo <= s[0] < hi);
    } else {
        let top = (hi - 1) as u64;
        if s.contains(top) {
            let k = choose|k: int| 0 <= k < s.len() && s[k] == top;
            let t = s.remove(k);
            assert forall|i: int| 0 <= i < t.len() implies lo <= #[trigger] t[i] < hi - 1 by {
                if i < k {
                    assert(t[i] == s[i]);
                } else {
                    assert(t[i] == s[i + 1]);
                }
            }
            assert(t.no_duplicates()) by {
                assert forall|i: int, j: int| 0 <= i < t.len() && 0 <= j < t.len() && i != j implies t[i] != t[j] by {
                    let a = if i < k { i } else { i + 1 };
                    let b = if j < k { j } else { j + 1 };
                    assert(t[i] == s[a] && t[j] == s[b]);
                }
            }
            lemma_recycled_bound(t, lo, hi - 1);
        } else {
            lemma_recycled_bound(s, lo, hi - 1);
        }
    }
}

} // verus!
