//! Physical memory: an array of page frames, each a run of bytes.
//!
//! A page-table node is a frame read as 512 little-endian 64-bit words.
use vstd::prelude::*;
use vstd::bytes::{spec_u64_from_le_bytes, spec_u64_to_le_bytes, u64_from_le_bytes, u64_to_le_bytes,
    lemma_auto_spec_u64_to_from_le_bytes};
use vstd::slice::slice_subrange;

verus! {

/// The bytes of an all-zero frame.
pub open spec fn zero_frame() -> Seq<u8> {
    Seq::new(4096, |i: int| 0u8)
}

/// The 64-bit word stored little-endian at index `idx` of a frame's bytes.
pub open spec fn word_of(frame: Seq<u8>, idx: int) -> u64 {
    spec_u64_from_le_bytes(frame.subrange(8 * idx, 8 * idx + 8))
}

/// Every word of an all-zero frame is zero.
pub proof fn lemma_zero_frame_words(idx: int)
    requires
        0 <= idx < 512,
    ensures
        word_of(zero_frame(), idx) == 0,
{
    lemma_auto_spec_u64_to_from_le_bytes();
    vstd::bytes::spec_u64_to_le_bytes_to_open(0u64);
    let z = zero_frame().subrange(8 * idx, 8 * idx + 8);
    assert(0u64 & 0xff == 0 && (0u64 >> 8) & 0xff == 0 && (0u64 >> 16) & 0xff == 0 && (0u64 >> 24)
        & 0xff == 0 && (0u64 >> 32) & 0xff == 0 && (0u64 >> 40) & 0xff == 0 && (0u64 >> 48) & 0xff
        == 0 && (0u64 >> 56) & 0xff == 0) by (bit_vector);
    assert(z =~= spec_u64_to_le_bytes(0u64));
}

/// The machine's physical memory.
pub struct PhysMem {
    frames: Vec<Vec<u8>>,
}

impl PhysMem {
    /// Number of frames.
    pub closed spec fn num_frames(&self) -> nat {
        self.frames@.len()
    }

    /// The bytes of frame `ppn`.
    pub closed spec fn frame(&self, ppn: int) -> Seq<u8> {
        self.frames@[ppn]@
    }

    /// The word at index `idx` of frame `ppn`.
    pub open spec fn word(&self, ppn: int, idx: int) -> u64 {
        word_of(self.frame(ppn), idx)
    }

    /// Every frame holds exactly one page of bytes.
    pub closed spec fn wf(&self) -> bool {
        forall|p: int| 0 <= p < self.frames@.len() ==> (#[trigger] self.frames@[p])@.len() == 4096
    }

    /// `other` has the same frames as `self`, except possibly frame `ppn`.
    pub open spec fn same_except(&self, other: &PhysMem, ppn: int) -> bool {
        &&& other.num_frames() == self.num_frames()
        &&& forall|q: int|
            0 <= q < self.num_frames() && q != ppn ==> #[trigger] other.frame(q) == self.frame(q)
    }

    /// A well-formed memory's frames are one page long.
    pub proof fn lemma_frame_len(&self, ppn: int)
        requires
            self.wf(),
            0 <= ppn < self.num_frames(),
        ensures
            self.frame(ppn).len() == 4096,
    {
    }

    /// A memory of `n` zeroed frames.
    pub fn new(n: usize) -> (mem: PhysMem)
        ensures
            mem.wf(),
            mem.num_frames() == n,
            forall|p: int| 0 <= p < n ==> #[trigger] mem.frame(p) == zero_frame(),
    {
        let mut frames: Vec<Vec<u8>> = Vec::new();
        let mut i: usize = 0;
        while i < n
            invariant
                i <= n,
                frames@.len() == i,
                forall|p: int| 0 <= p < i ==> (#[trigger] frames@[p])@ == zero_frame(),
            decreases n - i,
        {
            let f: Vec<u8> = vec![0u8; 4096];
            assert(f@ =~= zero_frame());
            frames.push(f);
            i += 1;
        }
        PhysMem { frames }
    }

    /// The index of frame `ppn` in the array of frames.
    fn index_of(&self, ppn: u64) -> (i: usize)
        requires
            ppn < self.frames@.len(),
        ensures
            i == ppn,
    {
        let n = self.frames.len();
        ppn as usize
    }

    /// Number of frames.
    pub fn len(&self) -> (n: usize)
        ensures
            n == self.num_frames(),
    {
        self.frames.len()
    }

    /// Reads the byte at offset `off` of frame `ppn`.
    pub fn read_byte(&self, ppn: u64, off: u64) -> (b: u8)
        requires
            self.wf(),
            ppn < self.num_frames(),
            off < 4096,
        ensures
            b == self.frame(ppn as int)[off as int],
    {
        let p = self.index_of(ppn);
        self.frames[p][off as usize]
    }

    /// Writes `b` at offset `off` of frame `ppn`.
    pub fn write_byte(&mut self, ppn: u64, off: u64, b: u8)
        requires
            old(self).wf(),
            ppn < old(self).num_frames(),
            off < 4096,
        ensures
            final(self).wf(),
            old(self).same_except(final(self), ppn as int),
            final(self).frame(ppn as int) == old(self).frame(ppn as int).update(off as int, b),
    {
        let p = self.index_of(ppn);
        self.frames[p][off as usize] = b;
    }

    /// Reads word `idx` of frame `ppn`.
    pub fn read_word(&self, ppn: u64, idx: u64) -> (w: u64)
        requires
            self.wf(),
            ppn < self.num_frames(),
            idx < 512,
        ensures
            w == self.word(ppn as int, idx as int),
    {
        let lo: usize = 8 * (idx as usize);
        let p = self.index_of(ppn);
        let s = slice_subrange(self.frames[p].as_slice(), lo, lo + 8);
        u64_from_le_bytes(s)
    }

    /// Writes `w` as word `idx` of frame `ppn`; the frame's other words stay.
    pub fn write_word(&mut self, ppn: u64, idx: u64, w: u64)
        requires
            old(self).wf(),
            ppn < old(self).num_frames(),
            idx < 512,
        ensures
            final(self).wf(),
            old(self).same_except(final(self), ppn as int),
            final(self).word(ppn as int, idx as int) == w,
            forall|j: int|
                0 <= j < 512 && j != idx ==> #[trigger] final(self).word(ppn as int, j) == old(self).word(ppn as int, j),
    {
        let bytes = u64_to_le_bytes(w);
        let lo: usize = 8 * (idx as usize);
        let ghost before = self.frames@[ppn as int]@;
        let p = self.index_of(ppn);
        let mut k: usize = 0;
        while k < 8
            invariant
                k <= 8,
                p == ppn,
                lo == 8 * idx,
                idx < 512,
                bytes@.len() == 8,
                ppn < self.frames@.len(),
                self.wf(),
                old(self).wf(),
                before == old(self).frames@[ppn as int]@,
self.frames@.len() == old(self).frames@.len(),
                forall|q: int|
                    0 <= q < self.frames@.len() && q != ppn ==> #[trigger] self.frames@[q] == old(self).frames@[q],
                self.frames@[ppn as int]@.len() == 4096,
                forall|i: int|
                    0 <= i < 4096 ==> #[trigger] self.frames@[ppn as int]@[i] == (if lo <= i < lo
                        + k {
                        bytes@[i - lo]
                    } else {
                        before[i]
                    }),
            decreases 8 - k,
        {
            self.frames[p][lo + k] = bytes[k];
            k += 1;
        }
        proof {
            lemma_auto_spec_u64_to_from_le_bytes();
            let after = self.frames@[ppn as int]@;
            assert(after.subrange(8 * idx, 8 * idx + 8) =~= bytes@);
            assert forall|j: int| 0 <= j < 512 && j != idx implies #[trigger] self.word(
                ppn as int,
                j,
            ) == old(self).word(ppn as int, j) by {
                assert(after.subrange(8 * j, 8 * j + 8) =~= before.subrange(8 * j, 8 * j + 8));
            }
        }
    }

    /// Fills frame `ppn` with zero bytes.
    pub fn clear_frame(&mut self, ppn: u64)
        requires
            old(self).wf(),
            ppn < old(self).num_frames(),
        ensures
            final(self).wf(),
            old(self).same_except(final(self), ppn as int),
            final(self).frame(ppn as int) == zero_frame(),
    {
        let p = self.index_of(ppn);
        let mut k: usize = 0;
        while k < 4096
            invariant
                k <= 4096,
                p == ppn,
                ppn < self.frames@.len(),
                self.wf(),
self.frames@.len() == old(self).frames@.len(),
                forall|q: int|
                    0 <= q < self.frames@.len() && q != ppn ==> #[trigger] self.frames@[q] == old(self).frames@[q],
                self.frames@[ppn as int]@.len() == 4096,
                forall|i: int| 0 <= i < k ==> #[trigger] self.frames@[ppn as int]@[i] == 0u8,
            decreases 4096 - k,
        {
            self.frames[p][k] = 0u8;
            k += 1;
        }
        assert(self.frames@[ppn as int]@ =~= zero_frame());
    }

    /// Copies the bytes of frame `src` over frame `dst`.
    pub fn copy_frame(&mut self, src: u64, dst: u64)
        requires
            old(self).wf(),
            src < old(self).num_frames(),
            dst < old(self).num_frames(),
        ensures
            final(self).wf(),
            old(self).same_except(final(self), dst as int),
            final(self).frame(dst as int) == old(self).frame(src as int),
    {
        if src == dst {
            return ;
        }
        let s = self.index_of(src);
        let d = self.index_of(dst);
        let mut k: usize = 0;
        while k < 4096
            invariant
                k <= 4096,
                s == src,
                d == dst,
                src != dst,
                src < self.frames@.len(),
                dst < self.frames@.len(),
                self.wf(),
self.frames@.len() == old(self).frames@.len(),
                forall|q: int|
                    0 <= q < self.frames@.len() && q != dst ==> #[trigger] self.frames@[q] == old(self).frames@[q],
                self.frames@[dst as int]@.len() == 4096,
                self.frames@[src as int]@.len() == 4096,
                forall|i: int|
                    0 <= i < k ==> #[trigger] self.frames@[dst as int]@[i] == old(self).frames@[src as int]@[i],
            decreases 4096 - k,
        {
            let b = self.frames[s][k];
            self.frames[d][k] = b;
            k += 1;
        }
        assert(self.frames@[dst as int]@ =~= old(self).frames@[src as int]@);
    }
}

} // verus!
