use vstd::prelude::*;
use crate::bytes::{le_u16, le_u32, le_u64, read_le_u16, read_le_u32, read_le_u64};

verus! {

/// Size in bytes of an ELF64 file header.
pub const ELF_HEADER_SIZE: usize = 64;

/// Size in bytes of an ELF64 program header.
pub const PROGRAM_HEADER_SIZE: usize = 56;

/// Size in bytes of an ELF64 section header.
pub const SECTION_HEADER_SIZE: usize = 64;

pub struct ElfHeaderIdent {
    pub magic: [u8; 4],
    pub class: u8,
    pub data: u8,
    pub version: u8,
    pub abi: u8,
    pub abi_version: u8,
}

pub struct ElfHeader {
    pub ident: ElfHeaderIdent,
    pub obj_type: u16,
    pub machine: u16,
    pub version: u32,
    pub entry: u64,
    pub phoff: u64,
    pub shoff: u64,
    pub flags: u32,
    pub ehsize: u16,
    pub phentsize: u16,
    pub phnum: u16,
    pub shentsize: u16,
    pub shnum: u16,
    pub shstrndx: u16,
}

pub struct ProgramHeader {
    pub segment_type: u32,
    pub flags: u32,
    pub offset: u64,
    pub vaddr: u64,
    pub paddr: u64,
    pub filesz: u64,
    pub memsz: u64,
    pub align: u64,
}

pub struct SectionHeader {
    pub name: u32,
    pub header_type: u32,
    pub flags: u64,
    pub addr: u64,
    pub offset: u64,
    pub size: u64,
    pub link: u32,
    pub info: u32,
    pub addralign: u64,
    pub entsize: u64,
}

impl ElfHeader {
    /// Whether this header is what `b` holds at `off`.
    pub open spec fn parsed_from(&self, b: Seq<u8>, off: int) -> bool {
        &&& self.ident.magic@ == b.subrange(off, off + 4)
        &&& self.ident.class == b[off + 4]
        &&& self.ident.data == b[off + 5]
        &&& self.ident.version == b[off + 6]
        &&& self.ident.abi == b[off + 7]
        &&& self.ident.abi_version == b[off + 8]
        &&& self.obj_type == le_u16(b, off + 16)
        &&& self.machine == le_u16(b, off + 18)
        &&& self.version == le_u32(b, off + 20)
        &&& self.entry == le_u64(b, off + 24)
        &&& self.phoff == le_u64(b, off + 32)
        &&& self.shoff == le_u64(b, off + 40)
        &&& self.flags == le_u32(b, off + 48)
        &&& self.ehsize == le_u16(b, off + 52)
        &&& self.phentsize == le_u16(b, off + 54)
        &&& self.phnum == le_u16(b, off + 56)
        &&& self.shentsize == le_u16(b, off + 58)
        &&& self.shnum == le_u16(b, off + 60)
        &&& self.shstrndx == le_u16(b, off + 62)
    }

    /// Reads the header that `b` holds at `off`.
    pub fn parse(b: &[u8], off: usize) -> (r: Self)
        requires
            off + ELF_HEADER_SIZE <= b@.len(),
        ensures
            r.parsed_from(b@, off as int),
    {
        let _n = b.len();
        let magic = [b[off], b[off + 1], b[off + 2], b[off + 3]];
        assert(magic@ =~= b@.subrange(off as int, off + 4));
        ElfHeader {
            ident: ElfHeaderIdent {
                magic,
                class: b[off + 4],
                data: b[off + 5],
                version: b[off + 6],
                abi: b[off + 7],
                abi_version: b[off + 8],
            },
            obj_type: read_le_u16(b, off + 16),
            machine: read_le_u16(b, off + 18),
            version: read_le_u32(b, off + 20),
            entry: read_le_u64(b, off + 24),
            phoff: read_le_u64(b, off + 32),
            shoff: read_le_u64(b, off + 40),
            flags: read_le_u32(b, off + 48),
            ehsize: read_le_u16(b, off + 52),
            phentsize: read_le_u16(b, off + 54),
            phnum: read_le_u16(b, off + 56),
            shentsize: read_le_u16(b, off + 58),
            shnum: read_le_u16(b, off + 60),
            shstrndx: read_le_u16(b, off + 62),
        }
    }
}

impl ProgramHeader {
    pub open spec fn parsed_from(&self, b: Seq<u8>, off: int) -> bool {
        &&& self.segment_type == le_u32(b, off)
        &&& self.flags == le_u32(b, off + 4)
        &&& self.offset == le_u64(b, off + 8)
        &&& self.vaddr == le_u64(b, off + 16)
        &&& self.paddr == le_u64(b, off + 24)
        &&& self.filesz == le_u64(b, off + 32)
        &&& self.memsz == le_u64(b, off + 40)
        &&& self.align == le_u64(b, off + 48)
    }

    /// Reads the program header that `b` holds at `off`.
    pub fn parse(b: &[u8], off: usize) -> (r: Self)
        requires
            off + PROGRAM_HEADER_SIZE <= b@.len(),
        ensures
            r.parsed_from(b@, off as int),
    {
        let _n = b.len();
        ProgramHeader {
            segment_type: read_le_u32(b, off),
            flags: read_le_u32(b, off + 4),
            offset: read_le_u64(b, off + 8),
            vaddr: read_le_u64(b, off + 16),
            paddr: read_le_u64(b, off + 24),
            filesz: read_le_u64(b, off + 32),
            memsz: read_le_u64(b, off + 40),
            align: read_le_u64(b, off + 48),
        }
    }
}

impl SectionHeader {
    pub open spec fn parsed_from(&self, b: Seq<u8>, off: int) -> bool {
        &&& self.name == le_u32(b, off)
        &&& self.header_type == le_u32(b, off + 4)
        &&& self.flags == le_u64(b, off + 8)
        &&& self.addr == le_u64(b, off + 16)
        &&& self.offset == le_u64(b, off + 24)
        &&& self.size == le_u64(b, off + 32)
        &&& self.link == le_u32(b, off + 40)
        &&& self.info == le_u32(b, off + 44)
        &&& self.addralign == le_u64(b, off + 48)
        &&& self.entsize == le_u64(b, off + 56)
    }

    /// Reads the section header that `b` holds at `off`.
    pub fn parse(b: &[u8], off: usize) -> (r: Self)
        requires
            off + SECTION_HEADER_SIZE <= b@.len(),
        ensures
            r.parsed_from(b@, off as int),
    {
        let _n = b.len();
        SectionHeader {
            name: read_le_u32(b, off),
            header_type: read_le_u32(b, off + 4),
            flags: read_le_u64(b, off + 8),
            addr: read_le_u64(b, off + 16),
            offset: read_le_u64(b, off + 24),
            size: read_le_u64(b, off + 32),
            link: read_le_u32(b, off + 40),
            info: read_le_u32(b, off + 44),
            addralign: read_le_u64(b, off + 48),
            entsize: read_le_u64(b, off + 56),
        }
    }
}

} // verus!
