//! Program images.
//!
//! An image is an ELF64 little-endian file of which the kernel reads the
//! entry point and the program headers. Every program header must describe
//! a loadable segment, and the segments must come in ascending address
//! order, no two of them on a common page.
use vstd::prelude::*;
use vstd::bytes::{spec_u16_from_le_bytes, spec_u32_from_le_bytes, spec_u64_from_le_bytes,
    u16_from_le_bytes, u32_from_le_bytes, u64_from_le_bytes};
use vstd::slice::slice_subrange;
use crate::config::{TRAP_CONTEXT_BASE, USER_BASE, USER_STACK_SIZE};

verus! {

/// Segment flag: the segment may be executed.
pub const PF_X: u32 = 1;

/// Segment flag: the segment may be written.
pub const PF_W: u32 = 2;

/// Segment flag: the segment may be read.
pub const PF_R: u32 = 4;

/// Bytes of the file header.
pub const HEADER_SIZE: usize = 64;

/// Bytes of one program header.
pub const PH_SIZE: usize = 56;

/// One loadable segment: `file_size` bytes of the file, from `offset` on,
/// go to address `vaddr`; the segment takes `mem_size` bytes of memory.
#[derive(Clone, Copy, PartialEq, Eq, Structural, Debug)]
pub struct Segment {
    pub flags: u32,
    pub offset: u64,
    pub vaddr: u64,
    pub file_size: u64,
    pub mem_size: u64,
}

impl Segment {
    /// First page of the segment.
    pub open spec fn start_vpn(self) -> int {
        self.vaddr as int / 4096
    }

    /// First page past the segment.
    pub open spec fn end_vpn(self) -> int {
        (self.vaddr + self.mem_size + 4095) / 4096
    }

    /// The byte that a loaded segment holds at address `x` of its pages:
    /// the file's byte where the file covers the address, zero elsewhere.
    pub open spec fn byte_at(self, file: Seq<u8>, x: int) -> u8 {
        if self.vaddr <= x < self.vaddr + self.file_size {
            file[self.offset + (x - self.vaddr)]
        } else {
            0
        }
    }
}

/// What an image says: where execution starts, and the segments.
pub struct ImageView {
    pub entry: u64,
    pub segments: Seq<Segment>,
}

/// A parsed image.
pub struct ProgramImage {
    pub entry: u64,
    pub segments: Vec<Segment>,
}

impl View for ProgramImage {
    type V = ImageView;

    open spec fn view(&self) -> ImageView {
        ImageView { entry: self.entry, segments: self.segments@ }
    }
}

/// The 16-bit little-endian number at offset `at`.
pub open spec fn le_u16(file: Seq<u8>, at: int) -> u16 {
    spec_u16_from_le_bytes(file.subrange(at, at + 2))
}

/// The 32-bit little-endian number at offset `at`.
pub open spec fn le_u32(file: Seq<u8>, at: int) -> u32 {
    spec_u32_from_le_bytes(file.subrange(at, at + 4))
}

/// The 64-bit little-endian number at offset `at`.
pub open spec fn le_u64(file: Seq<u8>, at: int) -> u64 {
    spec_u64_from_le_bytes(file.subrange(at, at + 8))
}

/// Offset of the first program header.
pub open spec fn ph_offset(file: Seq<u8>) -> int {
    le_u64(file, 32) as int
}

/// Number of program headers.
pub open spec fn ph_count(file: Seq<u8>) -> int {
    le_u16(file, 56) as int
}

/// The file starts with a header that this kernel accepts, and holds the
/// program headers that the header announces.
pub open spec fn header_ok(file: Seq<u8>) -> bool {
    &&& file.len() >= 64
    &&& file[0] == 0x7f && file[1] == 0x45 && file[2] == 0x4c && file[3] == 0x46
    &&& le_u16(file, 54) == 56
    &&& ph_offset(file) + ph_count(file) * 56 <= file.len()
}

/// Whether program header `i` describes a loadable segment.
pub open spec fn is_load(file: Seq<u8>, i: int) -> bool {
    le_u32(file, ph_offset(file) + i * 56) == 1
}

/// The segment that program header `i` describes.
pub open spec fn segment_at(file: Seq<u8>, i: int) -> Segment {
    let base = ph_offset(file) + i * 56;
    Segment {
        flags: le_u32(file, base + 4),
        offset: le_u64(file, base + 8),
        vaddr: le_u64(file, base + 16),
        file_size: le_u64(file, base + 32),
        mem_size: le_u64(file, base + 40),
    }
}

/// What the file says, read without any check of the segments.
pub open spec fn raw_image(file: Seq<u8>) -> ImageView {
    ImageView {
        entry: le_u64(file, 24),
        segments: Seq::new(ph_count(file) as nat, |i: int| segment_at(file, i)),
    }
}

/// First page past the first `k` segments; the first user page when `k` is 0.
pub open spec fn segments_end(segments: Seq<Segment>, k: int) -> int {
    if k <= 0 {
        USER_BASE as int / 4096
    } else {
        segments[k - 1].end_vpn()
    }
}

/// Segment `k` lies in the file and in user memory, after the segments
/// before it, and leaves room above it.
pub open spec fn segment_ok(segments: Seq<Segment>, file_len: int, k: int) -> bool {
    let s = segments[k];
    &&& s.file_size <= s.mem_size
    &&& s.offset + s.file_size <= file_len
    &&& s.vaddr + s.mem_size <= TRAP_CONTEXT_BASE
    &&& segments_end(segments, k) <= s.start_vpn()
    &&& segments_end(segments, k) <= s.end_vpn()
}

/// First page of the user stack: one guard page above the last segment.
pub open spec fn stack_bottom_vpn(segments: Seq<Segment>) -> int {
    segments_end(segments, segments.len() as int) + 1
}

/// First page past the user stack; the heap starts here.
pub open spec fn stack_top_vpn(segments: Seq<Segment>) -> int {
    stack_bottom_vpn(segments) + USER_STACK_SIZE as int / 4096
}

/// Every segment is in order, and the user stack fits below the page of
/// the trap context.
pub open spec fn layout_ok(segments: Seq<Segment>, file_len: int) -> bool {
    &&& forall|k: int| 0 <= k < segments.len() ==> #[trigger] segment_ok(segments, file_len, k)
    &&& stack_top_vpn(segments) <= TRAP_CONTEXT_BASE as int / 4096
}

/// Whether the file is an image that can be loaded.
pub open spec fn image_ok(file: Seq<u8>) -> bool {
    &&& header_ok(file)
    &&& forall|i: int| 0 <= i < ph_count(file) ==> #[trigger] is_load(file, i)
    &&& layout_ok(raw_image(file).segments, file.len() as int)
}

fn read_u16(file: &Vec<u8>, at: usize) -> (x: u16)
    requires
        at + 2 <= file@.len(),
    ensures
        x == le_u16(file@, at as int),
{
    let n = file.len();
    u16_from_le_bytes(slice_subrange(file.as_slice(), at, at + 2))
}

fn read_u32(file: &Vec<u8>, at: usize) -> (x: u32)
    requires
        at + 4 <= file@.len(),
    ensures
        x == le_u32(file@, at as int),
{
    let n = file.len();
    u32_from_le_bytes(slice_subrange(file.as_slice(), at, at + 4))
}

fn read_u64(file: &Vec<u8>, at: usize) -> (x: u64)
    requires
        at + 8 <= file@.len(),
    ensures
        x == le_u64(file@, at as int),
{
    let n = file.len();
    u64_from_le_bytes(slice_subrange(file.as_slice(), at, at + 8))
}

impl ProgramImage {
    /// Reads an image. Returns `None` exactly when the file is no image
    /// that can be loaded.
    pub fn parse(file: &Vec<u8>) -> (r: Option<ProgramImage>)
        ensures
            r is Some <==> image_ok(file@),
            r matches Some(img) ==> img@ == raw_image(file@),
    {
        let len = file.len();
        if len < 64 {
            return None;
        }
        if file[0] != 0x7f || file[1] != 0x45 || file[2] != 0x4c || file[3] != 0x46 {
            return None;
        }
        if read_u16(file, 54) != 56 {
            return None;
        }
        let entry = read_u64(file, 24);
        let phoff = read_u64(file, 32);
        let phnum = read_u16(file, 56) as usize;
        if phoff > len as u64 || phnum * 56 > len - phoff as usize {
            return None;
        }
        let phoff = phoff as usize;
        let mut segments: Vec<Segment> = Vec::new();
        let mut end: u64 = USER_BASE / 4096;
        let mut k: usize = 0;
        while k < phnum
            invariant
                k <= phnum,
                len == file@.len(),
                header_ok(file@),
                phoff == ph_offset(file@),
                phnum == ph_count(file@),
                segments@.len() == k,
                forall|i: int| 0 <= i < k ==> #[trigger] segments@[i] == segment_at(file@, i),
                forall|i: int| 0 <= i < k ==> #[trigger] is_load(file@, i),
                forall|i: int|
                    0 <= i < k ==> #[trigger] segment_ok(
                        raw_image(file@).segments,
                        file@.len() as int,
                        i,
                    ),
                end == segments_end(raw_image(file@).segments, k as int),
                end <= TRAP_CONTEXT_BASE / 4096,
            decreases phnum - k,
        {
            let base = phoff + k * 56;
            let ghost all = raw_image(file@).segments;
            assert(all[k as int] == segment_at(file@, k as int));
            if read_u32(file, base) != 1 {
                assert(!is_load(file@, k as int));
                return None;
            }
            let s = Segment {
                flags: read_u32(file, base + 4),
                offset: read_u64(file, base + 8),
                vaddr: read_u64(file, base + 16),
                file_size: read_u64(file, base + 32),
                mem_size: read_u64(file, base + 40),
            };
            if s.file_size > s.mem_size || s.offset > len as u64 || s.file_size > len as u64
                - s.offset || s.vaddr > TRAP_CONTEXT_BASE || s.mem_size > TRAP_CONTEXT_BASE
                - s.vaddr {
                assert(!segment_ok(all, file@.len() as int, k as int));
                return None;
            }
            let start_vpn = s.vaddr / 4096;
            let end_vpn = (s.vaddr + s.mem_size + 4095) / 4096;
            if end > start_vpn || end > end_vpn {
                assert(!segment_ok(all, file@.len() as int, k as int));
                return None;
            }
            segments.push(s);
            end = end_vpn;
            k += 1;
        }
        if end + 1 + USER_STACK_SIZE / 4096 > TRAP_CONTEXT_BASE / 4096 {
            return None;
        }
        let img = ProgramImage { entry, segments };
        proof {
            assert(img@.segments =~= raw_image(file@).segments);
        }
        Some(img)
    }
}

/// The user stack of an image that can be loaded ends inside the
/// address space.
pub proof fn lemma_stack_top(segments: Seq<Segment>, file_len: int)
    requires
        layout_ok(segments, file_len),
    ensures
        0 <= stack_top_vpn(segments) * 4096 <= TRAP_CONTEXT_BASE,
{
    let n = segments.len() as int;
    if n > 0 {
        assert(segment_ok(segments, file_len, n - 1));
    }
}

} // verus!
