use vstd::prelude::*;
use crate::bytes::{copy_into, zero_from};
use crate::elf::raw::{ElfHeader, ProgramHeader, SectionHeader, ELF_HEADER_SIZE, PROGRAM_HEADER_SIZE, SECTION_HEADER_SIZE};
use crate::memory::PAGE_SIZE;
use crate::utils::arc::Arc;

verus! {

/// Something an ELF image can be read from.
pub trait ElfSource {
    /// The bytes of the image.
    spec fn bytes(&self) -> Seq<u8>;

    /// Fills `buf` with the bytes of the image from `offset` on.
    fn read(&self, offset: usize, buf: &mut Vec<u8>)
        requires
            offset + old(buf)@.len() <= self.bytes().len(),
        ensures
            final(buf)@ == self.bytes().subrange(offset as int, offset + old(buf)@.len()),
    ;
}

impl ElfSource for Vec<u8> {
    open spec fn bytes(&self) -> Seq<u8> {
        self@
    }

    fn read(&self, offset: usize, buf: &mut Vec<u8>) {
        let len = buf.len();
        copy_into(buf, 0, self.as_slice(), offset, len);
        assert(buf@ =~= self@.subrange(offset as int, offset + len));
    }
}

/// Where the contents of a segment come from.
#[derive(Clone)]
pub enum SegmentType {
    /// Read from the image.
    Loaded(Arc<Vec<u8>>),
    /// All zero.
    Zeroed,
    /// Not a loadable segment.
    Null,
}

/// Read, write and execute permission bits of a segment.
#[derive(Clone, Copy, PartialEq, Eq, Structural)]
pub struct SegmentPermissions(pub u32);

impl SegmentPermissions {
    pub fn new() -> (r: Self)
        ensures
            r.0 == 0,
    {
        Self(0)
    }

    pub fn read(&self) -> (r: bool)
        ensures
            r == (self.0 & 0b100 != 0),
    {
        (self.0 & 0b100) != 0
    }

    pub fn write(&self) -> (r: bool)
        ensures
            r == (self.0 & 0b10 != 0),
    {
        (self.0 & 0b10) != 0
    }

    pub fn execute(&self) -> (r: bool)
        ensures
            r == (self.0 & 0b1 != 0),
    {
        (self.0 & 0b1) != 0
    }

    pub fn from_header(header: &ProgramHeader) -> (r: Self)
        ensures
            r.0 == header.flags,
    {
        Self(header.flags)
    }
}

/// A segment of an ELF image as it is placed in memory.
#[derive(Clone)]
pub struct Segment {
    pub source: SegmentType,
    pub offset: u64,
    pub vaddr: u64,
    pub memsz: u64,
    pub filesz: u64,
    pub permissions: SegmentPermissions,
}

impl Segment {
    pub fn is_null(&self) -> (r: bool)
        ensures
            r == (self.source is Null),
    {
        match self.source {
            SegmentType::Null => true,
            _ => false,
        }
    }

    pub fn virt_addr(&self) -> (r: u64)
        ensures
            r == self.vaddr,
    {
        self.vaddr
    }

    pub fn mem_size(&self) -> (r: u64)
        ensures
            r == self.memsz,
    {
        self.memsz
    }

    /// Offset of the segment's start within its first page.
    pub fn offset(&self) -> (r: u64)
        ensures
            r == self.vaddr % PAGE_SIZE as u64,
    {
        self.vaddr % PAGE_SIZE as u64
    }

    /// Number of pages the segment touches in memory.
    pub fn mem_page_count(&self) -> (r: u64)
        requires
            self.vaddr % 4096 + self.memsz <= u64::MAX,
        ensures
            r == (self.vaddr % 4096 + self.memsz + 4095) / 4096,
    {
        let total = self.offset() + self.mem_size();
        total / 4096 + if total % 4096 == 0 { 0 } else { 1 }
    }

    /// Bytes this segment places in the page at byte `offset` of the segment, as `read_page`
    /// leaves them in a page buffer that held `buf`.
    pub open spec fn page_contents(&self, offset: int, buf: Seq<u8>) -> Seq<u8> {
        match self.source {
            SegmentType::Loaded(src) => {
                let front = self.vaddr as int % PAGE_SIZE as int;
                let end = vstd::math::min(vstd::math::max(self.filesz - offset, 0), PAGE_SIZE as int);
                if offset == 0 {
                    buf.subrange(0, front) + src@@.subrange(self.offset as int, self.offset + end)
                        + Seq::new((buf.len() - front - end) as nat, |_i: int| 0u8)
                } else {
                    let from = self.offset + vstd::math::max(offset - front, 0);
                    src@@.subrange(from, from + end) + Seq::new((buf.len() - end) as nat, |_i: int| 0u8)
                }
            },
            SegmentType::Zeroed => Seq::new(buf.len(), |_i: int| 0u8),
            SegmentType::Null => buf,
        }
    }

    /// Whether `read_page` can fill a page buffer of `len` bytes at byte `offset` of the segment.
    pub open spec fn page_readable(&self, offset: int, len: int) -> bool {
        match self.source {
            SegmentType::Loaded(src) => {
                let front = self.vaddr as int % PAGE_SIZE as int;
                let end = vstd::math::min(vstd::math::max(self.filesz - offset, 0), PAGE_SIZE as int);
                if offset == 0 {
                    front + end <= len && self.offset + end <= src@@.len()
                } else {
                    end <= len && self.offset + vstd::math::max(offset - front, 0) + end <= src@@.len()
                }
            },
            _ => true,
        }
    }

    /// Fills a page buffer with the bytes of the segment's page at byte `offset`.
    pub fn read_page(&self, offset: usize, buf: &mut Vec<u8>)
        requires
            self.page_readable(offset as int, old(buf)@.len() as int),
        ensures
            final(buf)@ == self.page_contents(offset as int, old(buf)@),
    {
        match &self.source {
            SegmentType::Loaded(src) => {
                let front_padding = (self.vaddr % PAGE_SIZE as u64) as usize;
                let rest = if self.filesz > offset as u64 { self.filesz - offset as u64 } else { 0 };
                let end = if rest < PAGE_SIZE as u64 { rest as usize } else { PAGE_SIZE };
                let bytes = src.get();
                let _n = bytes.len();
                if offset == 0 {
                    copy_into(buf, front_padding, bytes.as_slice(), self.offset as usize, end);
                    zero_from(buf, front_padding + end);
                    proof {
                        let b = old(buf)@;
                        assert((b.subrange(0, front_padding as int) + bytes@.subrange(self.offset as int, self.offset + end)
                            + b.subrange(front_padding + end, b.len() as int)).subrange(0, front_padding + end)
                            =~= b.subrange(0, front_padding as int) + bytes@.subrange(self.offset as int, self.offset + end));
                    }
                } else {
                    let back = if offset > front_padding { offset - front_padding } else { 0 };
                    let from = self.offset as usize + back;
                    copy_into(buf, 0, bytes.as_slice(), from, end);
                    zero_from(buf, end);
                    proof {
                        let b = old(buf)@;
                        assert((b.subrange(0, 0) + bytes@.subrange(from as int, from + end)
                            + b.subrange(end as int, b.len() as int)).subrange(0, end as int)
                            =~= bytes@.subrange(from as int, from + end));
                    }
                }
            },
            SegmentType::Zeroed => {
                zero_from(buf, 0);
                assert(buf@ =~= Seq::new(old(buf)@.len(), |_i: int| 0u8));
            },
            SegmentType::Null => {},
        }
    }
}

/// Each file-backed byte of a loaded segment's page comes from the file at the position of its
/// own address: byte `i` of the page at byte `k` of the segment (whose first page starts
/// `vaddr % 4096` bytes before the segment) is file byte `offset + k + i - vaddr % 4096`, for
/// the bytes the file covers; the rest of the page after them is zero.
pub proof fn lemma_page_bytes_follow_the_file(seg: Segment, k: int, buf: Seq<u8>, i: int)
    requires
        seg.source is Loaded,
        k == 0 || k >= seg.vaddr % 4096,
        0 <= i < buf.len(),
        ({
            let front = seg.vaddr % 4096;
            let covered = if seg.filesz - k < 0 { 0 } else if seg.filesz - k > 4096 { 4096 } else { seg.filesz - k };
            let start = if k == 0 { front as int } else { 0 };
            &&& start + covered <= buf.len()
            &&& seg.offset + k - front + start + covered <= seg.source->Loaded_0@@.len()
        }),
    ensures
        ({
            let front = seg.vaddr % 4096;
            let covered = if seg.filesz - k < 0 { 0 } else if seg.filesz - k > 4096 { 4096 } else { seg.filesz - k };
            let start = if k == 0 { front as int } else { 0 };
            let page = seg.page_contents(k, buf);
            &&& page.len() == buf.len()
            &&& start <= i < start + covered ==> page[i] == seg.source->Loaded_0@@[seg.offset + k + i - front]
            &&& start + covered <= i ==> page[i] == 0
            &&& i < start ==> page[i] == buf[i]
        }),
{
    let front = seg.vaddr as int % PAGE_SIZE as int;
    let end = vstd::math::min(vstd::math::max(seg.filesz - k, 0), PAGE_SIZE as int);
    assert(PAGE_SIZE == 4096);
    let src = seg.source->Loaded_0@@;
    if k == 0 {
        let a = buf.subrange(0, front);
        let b = src.subrange(seg.offset as int, seg.offset + end);
        let c = Seq::new((buf.len() - front - end) as nat, |_j: int| 0u8);
        assert(seg.page_contents(k, buf) == a + b + c);
        if i < front {
            assert((a + b + c)[i] == a[i]);
        } else if i < front + end {
            assert((a + b + c)[i] == b[i - front]);
        } else {
            assert((a + b + c)[i] == c[i - front - end]);
        }
    } else {
        let from = seg.offset + vstd::math::max(k - front, 0);
        let b = src.subrange(from, from + end);
        let c = Seq::new((buf.len() - end) as nat, |_j: int| 0u8);
        assert(seg.page_contents(k, buf) == b + c);
        if i < end {
            assert((b + c)[i] == b[i]);
        } else {
            assert((b + c)[i] == c[i - end]);
        }
    }
}

/// A zero-filled segment's pages are all zero, and a null segment leaves the page as it was.
pub proof fn lemma_page_of_unloaded_segment(seg: Segment, k: int, buf: Seq<u8>, i: int)
    requires
        0 <= i < buf.len(),
    ensures
        seg.source is Zeroed ==> seg.page_contents(k, buf).len() == buf.len() && seg.page_contents(k, buf)[i] == 0,
        seg.source is Null ==> seg.page_contents(k, buf) == buf,
{
}

/// Parser over the bytes of an ELF image.
pub struct ElfParser {
    pub header: ElfHeader,
    pub source: Arc<Vec<u8>>,
}

impl ElfParser {
    /// The bytes of the image.
    pub open spec fn image(&self) -> Seq<u8> {
        self.source@@
    }

    /// Whether program header `index` lies within the image.
    pub open spec fn has_program_header(&self, index: int) -> bool {
        PROGRAM_HEADER_SIZE * index + self.header.phoff + PROGRAM_HEADER_SIZE <= self.image().len()
    }

    /// Reads the file header of the image.
    pub fn new(source: Arc<Vec<u8>>) -> (r: Self)
        requires
            source@@.len() >= ELF_HEADER_SIZE,
        ensures
            r.header.parsed_from(source@@, 0),
            r.source@ == source@,
    {
        let header = ElfHeader::parse(source.get().as_slice(), 0);
        Self { header, source }
    }

    pub fn entry_vma(&self) -> (r: u64)
        ensures
            r == self.header.entry,
    {
        self.header.entry
    }

    pub fn num_program_headers(&self) -> (r: u16)
        ensures
            r == self.header.phnum,
    {
        self.header.phnum
    }

    pub fn num_section_headers(&self) -> (r: u16)
        ensures
            r == self.header.shnum,
    {
        self.header.shnum
    }

    pub fn num_segments(&self) -> (r: usize)
        ensures
            r == self.header.phnum,
    {
        self.header.phnum as usize
    }

    /// Reads program header `index`.
    pub fn program_header(&self, index: usize) -> (r: ProgramHeader)
        requires
            self.has_program_header(index as int),
        ensures
            r.parsed_from(self.image(), PROGRAM_HEADER_SIZE * index + self.header.phoff),
    {
        let bytes = self.source.get();
        let _n = bytes.len();
        let offset = PROGRAM_HEADER_SIZE * index + self.header.phoff as usize;
        ProgramHeader::parse(bytes.as_slice(), offset)
    }

    /// Reads section header `index`, counting from the program header table offset.
    pub fn section_headers(&self, index: usize) -> (r: SectionHeader)
        requires
            SECTION_HEADER_SIZE * index + self.header.phoff + SECTION_HEADER_SIZE <= self.image().len(),
        ensures
            r.parsed_from(self.image(), SECTION_HEADER_SIZE * index + self.header.phoff),
    {
        let bytes = self.source.get();
        let _n = bytes.len();
        let offset = SECTION_HEADER_SIZE * index + self.header.phoff as usize;
        SectionHeader::parse(bytes.as_slice(), offset)
    }

    /// The segment that program header `index` describes.
    pub open spec fn segment_spec(&self, header: ProgramHeader, r: Segment) -> bool {
        &&& r.offset == header.offset
        &&& r.vaddr == header.vaddr
        &&& r.memsz == header.memsz
        &&& r.filesz == header.filesz
        &&& r.permissions.0 == header.flags
        &&& if header.segment_type != 1 {
            r.source is Null
        } else if header.memsz == 0 {
            r.source is Zeroed
        } else {
            r.source matches SegmentType::Loaded(s) && s@ == self.source@
        }
    }

    /// Whether program header `index` describes a loadable segment whose file size exceeds its
    /// memory size, which the parser does not handle.
    pub open spec fn segment_unsupported(&self, index: int) -> bool {
        exists|h: ProgramHeader| #[trigger] h.parsed_from(self.image(), PROGRAM_HEADER_SIZE * index + self.header.phoff)
            && h.segment_type == 1 && h.memsz != 0 && h.filesz > h.memsz
    }

    /// Describes segment `index` of the image.
    pub fn segment(&self, index: usize) -> (r: Segment)
        requires
            self.has_program_header(index as int),
            !self.segment_unsupported(index as int),
        ensures
            exists|h: ProgramHeader| #[trigger] h.parsed_from(self.image(), PROGRAM_HEADER_SIZE * index + self.header.phoff)
                && self.segment_spec(h, r),
    {
        let header = self.program_header(index);
        let blob;
        if header.segment_type == 1 {
            if header.memsz == 0 {
                blob = SegmentType::Zeroed;
            } else {
                assert(header.filesz <= header.memsz);
                blob = SegmentType::Loaded(self.source.share());
            }
        } else {
            blob = SegmentType::Null;
        }
        let r = Segment {
            source: blob,
            offset: header.offset,
            vaddr: header.vaddr,
            memsz: header.memsz,
            filesz: header.filesz,
            permissions: SegmentPermissions::from_header(&header),
        };
        assert(self.segment_spec(header, r));
        r
    }

    /// Whether every program header lies within the image and is one the parser handles.
    pub open spec fn headers_readable(&self) -> bool {
        forall|i: int| 0 <= i < self.header.phnum ==> #[trigger] self.has_program_header(i) && !self.segment_unsupported(i)
    }

    /// Whether `seg` is the segment that program header `i` describes.
    pub open spec fn describes(&self, i: int, seg: Segment) -> bool {
        exists|h: ProgramHeader| #[trigger] h.parsed_from(self.image(), PROGRAM_HEADER_SIZE * i + self.header.phoff)
            && self.segment_spec(h, seg)
    }

    /// Whether `segs` are the segments of the image, one per program header, in order.
    pub open spec fn segments_are(&self, segs: Seq<Segment>) -> bool {
        &&& segs.len() == self.header.phnum
        &&& forall|i: int| 0 <= i < segs.len() ==> self.describes(i, #[trigger] segs[i])
    }

    /// The segments of the image, one per program header, in order.
    pub fn segments(&self) -> (r: Vec<Segment>)
        requires
            self.headers_readable(),
        ensures
            self.segments_are(r@),
    {
        let n = self.num_segments();
        let mut segs: Vec<Segment> = Vec::new();
        let mut index: usize = 0;
        while index < n
            invariant
                n == self.header.phnum,
                index <= n,
                self.headers_readable(),
                segs@.len() == index,
                forall|i: int| 0 <= i < index ==> self.describes(i, #[trigger] segs@[i]),
            decreases n - index,
        {
            assert(self.has_program_header(index as int));
            let segment = self.segment(index);
            assert(self.describes(index as int, segment));
            segs.push(segment);
            assert(segs@[index as int] == segment);
            index += 1;
        }
        segs
    }
}

} // verus!
