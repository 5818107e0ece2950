//! ELF constants and the decoded header records the loader works on.

use crate::address::{FileRange, TargetAddr};
use crate::bytes::{first_short, read_u32, read_u64, short_buffer, word_at};
use crate::error::{LoadError, LoadResult};
use crate::identity::{ElfClass, ElfData, ElfMachine};
use crate::permissions::MemoryPermissions;
use vstd::prelude::*;

verus! {

pub const DT_NULL: u64 = 0;
pub const DT_NEEDED: u64 = 1;
pub const DT_PLTRELSZ: u64 = 2;
pub const DT_PLTGOT: u64 = 3;
pub const DT_HASH: u64 = 4;
pub const DT_STRTAB: u64 = 5;
pub const DT_SYMTAB: u64 = 6;
pub const DT_RELA: u64 = 7;
pub const DT_RELASZ: u64 = 8;
pub const DT_RELAENT: u64 = 9;
pub const DT_STRSZ: u64 = 10;
pub const DT_SYMENT: u64 = 11;
pub const DT_INIT: u64 = 12;
pub const DT_FINI: u64 = 13;
pub const DT_SONAME: u64 = 14;
pub const DT_RPATH: u64 = 15;
pub const DT_SYMBOLIC: u64 = 16;
pub const DT_REL: u64 = 17;
pub const DT_RELSZ: u64 = 18;
pub const DT_RELENT: u64 = 19;
pub const DT_PLTREL: u64 = 20;
pub const DT_DEBUG: u64 = 21;
pub const DT_TEXTREL: u64 = 22;
pub const DT_JMPREL: u64 = 23;
pub const DT_BIND_NOW: u64 = 24;
pub const DT_INIT_ARRAY: u64 = 25;
pub const DT_FINI_ARRAY: u64 = 26;
pub const DT_INIT_ARRAYSZ: u64 = 27;
pub const DT_FINI_ARRAYSZ: u64 = 28;
pub const DT_RUNPATH: u64 = 29;
pub const DT_FLAGS: u64 = 30;
pub const DT_PREINIT_ARRAY: u64 = 32;
pub const DT_PREINIT_ARRAYSZ: u64 = 33;
pub const DT_RELRSZ: u64 = 35;
pub const DT_RELR: u64 = 36;
pub const DT_RELRENT: u64 = 37;
pub const DT_GNU_HASH: u64 = 0x6fff_fef5;
pub const DT_TLSDESC_PLT: u64 = 0x6fff_fef6;
pub const DT_TLSDESC_GOT: u64 = 0x6fff_fef7;
pub const DT_VERSYM: u64 = 0x6fff_fff0;
pub const DT_RELACOUNT: u64 = 0x6fff_fff9;
pub const DT_RELCOUNT: u64 = 0x6fff_fffa;
pub const DT_FLAGS_1: u64 = 0x6fff_fffb;
pub const DT_VERDEF: u64 = 0x6fff_fffc;
pub const DT_VERDEFNUM: u64 = 0x6fff_fffd;
pub const DT_VERNEED: u64 = 0x6fff_fffe;
pub const DT_VERNEEDNUM: u64 = 0x6fff_ffff;
pub const DF_TEXTREL: u64 = 4;
pub const DF_BIND_NOW: u64 = 8;
pub const DF_1_NOW: u64 = 1;
pub const DF_1_PIE: u64 = 0x0800_0000;
pub const PT_LOAD: u32 = 1;
pub const PT_DYNAMIC: u32 = 2;
pub const PT_INTERP: u32 = 3;
pub const PT_PHDR: u32 = 6;
pub const PT_TLS: u32 = 7;
pub const PT_GNU_EH_FRAME: u32 = 0x6474_e550;
pub const PT_GNU_STACK: u32 = 0x6474_e551;
pub const PT_GNU_RELRO: u32 = 0x6474_e552;
pub const PT_ARM_EXIDX: u32 = 0x7000_0001;
pub const PT_RISCV_ATTRIBUTES: u32 = 0x7000_0003;
pub const PF_X: u32 = 1;
pub const PF_W: u32 = 2;
pub const PF_R: u32 = 4;
pub const R_RISCV_32: u32 = 1;
pub const R_RISCV_64: u32 = 2;
pub const R_RISCV_RELATIVE: u32 = 3;
pub const R_RISCV_JUMP_SLOT: u32 = 5;
pub const R_AARCH64_ABS64: u32 = 257;
pub const R_AARCH64_GLOB_DAT: u32 = 1025;
pub const R_AARCH64_JUMP_SLOT: u32 = 1026;
pub const R_AARCH64_RELATIVE: u32 = 1027;
pub const R_ARM_ABS32: u32 = 2;
pub const R_ARM_GLOB_DAT: u32 = 21;
pub const R_ARM_JUMP_SLOT: u32 = 22;
pub const R_ARM_RELATIVE: u32 = 23;
pub const ET_EXEC: u16 = 2;
pub const ET_DYN: u16 = 3;
pub const EM_ARM: u16 = 40;
pub const EM_AARCH64: u16 = 183;
pub const EM_RISCV: u16 = 243;
pub const ELFCLASS32: u8 = 1;
pub const ELFCLASS64: u8 = 2;
pub const ELFDATA2LSB: u8 = 1;
pub const ELFDATA2MSB: u8 = 2;
pub const EI_CLASS: usize = 4;
pub const EI_DATA: usize = 5;
pub const ELF_IDENT_SIZE: usize = 16;
pub const ELF32_HEADER_SIZE: usize = 52;
pub const ELF64_HEADER_SIZE: usize = 64;
pub const ELF32_PROGRAM_HEADER_SIZE: usize = 32;
pub const ELF64_PROGRAM_HEADER_SIZE: usize = 56;

/// The group a dynamic tag belongs to.
#[derive(Clone, Copy, Debug, PartialEq, Eq, Structural)]
pub enum DynamicTagClass {
    /// The relative relocation tables.
    RelativeTable,
    TextRelocation,
    RelativeBitmap,
    Needed,
    PltRelocation,
    Lifecycle,
    SearchPath,
    Symbolic,
    SymbolVersion,
    TlsDescriptor,
    Flags,
    Flags1,
    Soname,
    /// Recognized metadata that requests no runtime operation by itself.
    Metadata,
    Unknown,
}

pub open spec fn tag_class(tag: u64) -> DynamicTagClass {
    if tag == DT_REL || tag == DT_RELSZ || tag == DT_RELENT || tag == DT_RELA || tag == DT_RELASZ
        || tag == DT_RELAENT {
        DynamicTagClass::RelativeTable
    } else if tag == DT_TEXTREL {
        DynamicTagClass::TextRelocation
    } else if tag == DT_RELR || tag == DT_RELRSZ || tag == DT_RELRENT {
        DynamicTagClass::RelativeBitmap
    } else if tag == DT_NEEDED {
        DynamicTagClass::Needed
    } else if tag == DT_PLTRELSZ || tag == DT_PLTREL || tag == DT_JMPREL {
        DynamicTagClass::PltRelocation
    } else if tag == DT_INIT || tag == DT_FINI || tag == DT_INIT_ARRAY || tag == DT_FINI_ARRAY
        || tag == DT_INIT_ARRAYSZ || tag == DT_FINI_ARRAYSZ || tag == DT_PREINIT_ARRAY || tag
        == DT_PREINIT_ARRAYSZ {
        DynamicTagClass::Lifecycle
    } else if tag == DT_RPATH || tag == DT_RUNPATH {
        DynamicTagClass::SearchPath
    } else if tag == DT_SYMBOLIC {
        DynamicTagClass::Symbolic
    } else if tag == DT_VERSYM || tag == DT_VERDEF || tag == DT_VERDEFNUM || tag == DT_VERNEED
        || tag == DT_VERNEEDNUM {
        DynamicTagClass::SymbolVersion
    } else if tag == DT_TLSDESC_PLT || tag == DT_TLSDESC_GOT {
        DynamicTagClass::TlsDescriptor
    } else if tag == DT_FLAGS {
        DynamicTagClass::Flags
    } else if tag == DT_FLAGS_1 {
        DynamicTagClass::Flags1
    } else if tag == DT_SONAME {
        DynamicTagClass::Soname
    } else if tag == DT_PLTGOT || tag == DT_HASH || tag == DT_STRTAB || tag == DT_SYMTAB || tag
        == DT_STRSZ || tag == DT_SYMENT || tag == DT_DEBUG || tag == DT_BIND_NOW || tag
        == DT_GNU_HASH || tag == DT_RELACOUNT || tag == DT_RELCOUNT {
        DynamicTagClass::Metadata
    } else {
        DynamicTagClass::Unknown
    }
}

/// Classifies a dynamic tag.
pub fn classify_tag(tag: u64) -> (r: DynamicTagClass)
    ensures
        r == tag_class(tag),
{
    if tag == DT_REL || tag == DT_RELSZ || tag == DT_RELENT || tag == DT_RELA || tag == DT_RELASZ
        || tag == DT_RELAENT {
        DynamicTagClass::RelativeTable
    } else if tag == DT_TEXTREL {
        DynamicTagClass::TextRelocation
    } else if tag == DT_RELR || tag == DT_RELRSZ || tag == DT_RELRENT {
        DynamicTagClass::RelativeBitmap
    } else if tag == DT_NEEDED {
        DynamicTagClass::Needed
    } else if tag == DT_PLTRELSZ || tag == DT_PLTREL || tag == DT_JMPREL {
        DynamicTagClass::PltRelocation
    } else if tag == DT_INIT || tag == DT_FINI || tag == DT_INIT_ARRAY || tag == DT_FINI_ARRAY
        || tag == DT_INIT_ARRAYSZ || tag == DT_FINI_ARRAYSZ || tag == DT_PREINIT_ARRAY || tag
        == DT_PREINIT_ARRAYSZ {
        DynamicTagClass::Lifecycle
    } else if tag == DT_RPATH || tag == DT_RUNPATH {
        DynamicTagClass::SearchPath
    } else if tag == DT_SYMBOLIC {
        DynamicTagClass::Symbolic
    } else if tag == DT_VERSYM || tag == DT_VERDEF || tag == DT_VERDEFNUM || tag == DT_VERNEED
        || tag == DT_VERNEEDNUM {
        DynamicTagClass::SymbolVersion
    } else if tag == DT_TLSDESC_PLT || tag == DT_TLSDESC_GOT {
        DynamicTagClass::TlsDescriptor
    } else if tag == DT_FLAGS {
        DynamicTagClass::Flags
    } else if tag == DT_FLAGS_1 {
        DynamicTagClass::Flags1
    } else if tag == DT_SONAME {
        DynamicTagClass::Soname
    } else if tag == DT_PLTGOT || tag == DT_HASH || tag == DT_STRTAB || tag == DT_SYMTAB || tag
        == DT_STRSZ || tag == DT_SYMENT || tag == DT_DEBUG || tag == DT_BIND_NOW || tag
        == DT_GNU_HASH || tag == DT_RELACOUNT || tag == DT_RELCOUNT {
        DynamicTagClass::Metadata
    } else {
        DynamicTagClass::Unknown
    }
}

/// The fields of an ELF header that loading depends on.
#[derive(Clone, Copy, Debug, PartialEq, Eq, Structural)]
pub struct ElfHeaderInfo {
    pub class: ElfClass,
    pub endian: ElfData,
    pub machine: ElfMachine,
    pub entry: u64,
    pub program_header_offset: u64,
    pub program_header_entry_size: u16,
    pub program_header_count: u16,
}

impl ElfHeaderInfo {
    #[inline]
    pub fn class(&self) -> (r: ElfClass)
        ensures
            r == self.class,
    {
        self.class
    }

    #[inline]
    pub fn endian(&self) -> (r: ElfData)
        ensures
            r == self.endian,
    {
        self.endian
    }

    #[inline]
    pub fn machine(&self) -> (r: ElfMachine)
        ensures
            r == self.machine,
    {
        self.machine
    }

    #[inline]
    pub fn entry(&self) -> (r: u64)
        ensures
            r == self.entry,
    {
        self.entry
    }

    #[inline]
    pub fn program_header_offset(&self) -> (r: u64)
        ensures
            r == self.program_header_offset,
    {
        self.program_header_offset
    }

    #[inline]
    pub fn program_header_entry_size(&self) -> (r: u16)
        ensures
            r == self.program_header_entry_size,
    {
        self.program_header_entry_size
    }

    #[inline]
    pub fn program_header_count(&self) -> (r: u16)
        ensures
            r == self.program_header_count,
    {
        self.program_header_count
    }
}

/// One decoded program header.
#[derive(Clone, Copy, Debug, PartialEq, Eq, Structural)]
pub struct ProgramHeaderFields {
    pub program_type: u32,
    pub flags: u32,
    pub file_offset: u64,
    pub vaddr: u64,
    pub file_size: u64,
    pub memory_size: u64,
    pub align: u64,
}

/// The size of one program header of `class`.
pub open spec fn program_header_size(class: ElfClass) -> nat {
    match class {
        ElfClass::Elf32 => 32,
        ElfClass::Elf64 => 56,
    }
}

/// The program header that the bytes of one table entry denote.
pub open spec fn program_header_of(
    bytes: Seq<u8>,
    class: ElfClass,
    endian: ElfData,
) -> ProgramHeaderFields {
    match class {
        ElfClass::Elf32 => ProgramHeaderFields {
            program_type: word_at(bytes, 0, 4, endian) as u32,
            file_offset: word_at(bytes, 4, 4, endian) as u64,
            vaddr: word_at(bytes, 8, 4, endian) as u64,
            file_size: word_at(bytes, 16, 4, endian) as u64,
            memory_size: word_at(bytes, 20, 4, endian) as u64,
            flags: word_at(bytes, 24, 4, endian) as u32,
            align: word_at(bytes, 28, 4, endian) as u64,
        },
        ElfClass::Elf64 => ProgramHeaderFields {
            program_type: word_at(bytes, 0, 4, endian) as u32,
            flags: word_at(bytes, 4, 4, endian) as u32,
            file_offset: word_at(bytes, 8, 8, endian) as u64,
            vaddr: word_at(bytes, 16, 8, endian) as u64,
            file_size: word_at(bytes, 32, 8, endian) as u64,
            memory_size: word_at(bytes, 40, 8, endian) as u64,
            align: word_at(bytes, 48, 8, endian) as u64,
        },
    }
}

/// The words of a program header table entry, by offset and width, in the order in
/// which they are read.
pub open spec fn program_header_words(class: ElfClass) -> Seq<(usize, u64)> {
    match class {
        ElfClass::Elf32 => seq![(0, 4), (4, 4), (8, 4), (16, 4), (20, 4), (24, 4), (28, 4)],
        ElfClass::Elf64 => seq![(0, 4), (4, 4), (8, 8), (16, 8), (32, 8), (40, 8), (48, 8)],
    }
}

proof fn lemma_header_words(class: ElfClass, len: nat)
    ensures
        ({
            let words = program_header_words(class);
            &&& words.len() == 7
            &&& first_short(words, len) == (if words[0].0 + words[0].1 > len {
                Some(short_buffer(words[0].0, words[0].1, len))
            } else if words[1].0 + words[1].1 > len {
                Some(short_buffer(words[1].0, words[1].1, len))
            } else if words[2].0 + words[2].1 > len {
                Some(short_buffer(words[2].0, words[2].1, len))
            } else if words[3].0 + words[3].1 > len {
                Some(short_buffer(words[3].0, words[3].1, len))
            } else if words[4].0 + words[4].1 > len {
                Some(short_buffer(words[4].0, words[4].1, len))
            } else if words[5].0 + words[5].1 > len {
                Some(short_buffer(words[5].0, words[5].1, len))
            } else if words[6].0 + words[6].1 > len {
                Some(short_buffer(words[6].0, words[6].1, len))
            } else {
                None
            })
        }),
{
    reveal_with_fuel(first_short, 8);
}

impl ProgramHeaderFields {
    /// Decodes one program header table entry.
    pub fn decode(bytes: &[u8], class: ElfClass, endian: ElfData) -> (r: LoadResult<Self>)
        ensures
            r is Ok <==> bytes@.len() >= program_header_size(class),
            r matches Err(error) ==> error.stage is None,
            match first_short(program_header_words(class), bytes@.len()) {
                Some(error) => r == Err::<Self, LoadError>(error),
                None => r == Ok::<Self, LoadError>(program_header_of(bytes@, class, endian)),
            },
    {
        proof {
            lemma_header_words(class, bytes@.len());
        }
        Ok(
            match class {
                ElfClass::Elf32 => {
                    ProgramHeaderFields {
                        program_type: read_u32(bytes, 0, endian)?,
                        file_offset: read_u32(bytes, 4, endian)? as u64,
                        vaddr: read_u32(bytes, 8, endian)? as u64,
                        file_size: read_u32(bytes, 16, endian)? as u64,
                        memory_size: read_u32(bytes, 20, endian)? as u64,
                        flags: read_u32(bytes, 24, endian)?,
                        align: read_u32(bytes, 28, endian)? as u64,
                    }
                },
                ElfClass::Elf64 => {
                    ProgramHeaderFields {
                        program_type: read_u32(bytes, 0, endian)?,
                        flags: read_u32(bytes, 4, endian)?,
                        file_offset: read_u64(bytes, 8, endian)?,
                        vaddr: read_u64(bytes, 16, endian)?,
                        file_size: read_u64(bytes, 32, endian)?,
                        memory_size: read_u64(bytes, 40, endian)?,
                        align: read_u64(bytes, 48, endian)?,
                    }
                },
            },
        )
    }
}

/// The access permissions that program header flags request.
pub open spec fn permissions_of(flags: u32) -> MemoryPermissions {
    let reads = if flags & PF_R != 0 {
        MemoryPermissions::spec_none().joined(MemoryPermissions::spec_read())
    } else {
        MemoryPermissions::spec_none()
    };
    let writes = if flags & PF_W != 0 {
        reads.joined(MemoryPermissions::spec_write())
    } else {
        reads
    };
    if flags & PF_X != 0 {
        writes.joined(MemoryPermissions::spec_execute())
    } else {
        writes
    }
}

pub fn permissions_from_flags(flags: u32) -> (r: MemoryPermissions)
    ensures
        r == permissions_of(flags),
{
    let mut permissions = MemoryPermissions::none();
    if flags & PF_R != 0 {
        permissions = permissions.bitor(MemoryPermissions::read());
    }
    if flags & PF_W != 0 {
        permissions = permissions.bitor(MemoryPermissions::write());
    }
    if flags & PF_X != 0 {
        permissions = permissions.bitor(MemoryPermissions::execute());
    }
    permissions
}

/// A segment is readable, writable or executable exactly when its flags say so.
pub proof fn permissions_follow_flags(flags: u32)
    ensures
        permissions_of(flags).readable() <==> flags & PF_R != 0,
        permissions_of(flags).writable() <==> flags & PF_W != 0,
        permissions_of(flags).executable() <==> flags & PF_X != 0,
{
    assert(0u8 & 1 != 1 && 0u8 & 2 != 2 && 0u8 & 4 != 4) by (bit_vector);
    assert(0u8 | 1 == 1 && 0u8 | 2 == 2 && 0u8 | 4 == 4) by (bit_vector);
    assert(1u8 | 2 == 3 && 1u8 | 4 == 5 && 2u8 | 4 == 6 && 3u8 | 4 == 7) by (bit_vector);
    assert(1u8 & 1 == 1 && 1u8 & 2 != 2 && 1u8 & 4 != 4) by (bit_vector);
    assert(2u8 & 1 != 1 && 2u8 & 2 == 2 && 2u8 & 4 != 4) by (bit_vector);
    assert(3u8 & 1 == 1 && 3u8 & 2 == 2 && 3u8 & 4 != 4) by (bit_vector);
    assert(4u8 & 1 != 1 && 4u8 & 2 != 2 && 4u8 & 4 == 4) by (bit_vector);
    assert(5u8 & 1 == 1 && 5u8 & 2 != 2 && 5u8 & 4 == 4) by (bit_vector);
    assert(6u8 & 1 != 1 && 6u8 & 2 == 2 && 6u8 & 4 == 4) by (bit_vector);
    assert(7u8 & 1 == 1 && 7u8 & 2 == 2 && 7u8 & 4 == 4) by (bit_vector);
}

/// One loadable segment.
#[derive(Clone, Copy, Debug, PartialEq, Eq, Structural)]
pub struct LoadSegmentInfo {
    pub index: u16,
    pub file_range: FileRange,
    pub vaddr: TargetAddr,
    pub memory_size: u64,
    pub align: u64,
    pub permissions: MemoryPermissions,
}

impl LoadSegmentInfo {
    pub fn new(
        index: u16,
        file_range: FileRange,
        vaddr: TargetAddr,
        memory_size: u64,
        align: u64,
        permissions: MemoryPermissions,
    ) -> (r: Self)
        ensures
            r == (LoadSegmentInfo { index, file_range, vaddr, memory_size, align, permissions }),
    {
        LoadSegmentInfo { index, file_range, vaddr, memory_size, align, permissions }
    }

    #[inline]
    pub fn index(&self) -> (r: u16)
        ensures
            r == self.index,
    {
        self.index
    }

    #[inline]
    pub fn file_range(&self) -> (r: FileRange)
        ensures
            r == self.file_range,
    {
        self.file_range
    }

    #[inline]
    pub fn vaddr(&self) -> (r: TargetAddr)
        ensures
            r == self.vaddr,
    {
        self.vaddr
    }

    #[inline]
    pub fn memory_size(&self) -> (r: u64)
        ensures
            r == self.memory_size,
    {
        self.memory_size
    }

    #[inline]
    pub fn align(&self) -> (r: u64)
        ensures
            r == self.align,
    {
        self.align
    }

    #[inline]
    pub fn permissions(&self) -> (r: MemoryPermissions)
        ensures
            r == self.permissions,
    {
        self.permissions
    }
}

/// The segment that holds the dynamic table.
#[derive(Clone, Copy, Debug, PartialEq, Eq, Structural)]
pub struct DynamicSegmentInfo {
    pub index: u16,
    pub file_range: FileRange,
    pub vaddr: TargetAddr,
    pub memory_size: u64,
}

impl DynamicSegmentInfo {
    pub fn new(index: u16, file_range: FileRange, vaddr: TargetAddr, memory_size: u64) -> (r: Self)
        ensures
            r == (DynamicSegmentInfo { index, file_range, vaddr, memory_size }),
    {
        DynamicSegmentInfo { index, file_range, vaddr, memory_size }
    }

    #[inline]
    pub fn index(&self) -> (r: u16)
        ensures
            r == self.index,
    {
        self.index
    }

    #[inline]
    pub fn file_range(&self) -> (r: FileRange)
        ensures
            r == self.file_range,
    {
        self.file_range
    }

    #[inline]
    pub fn vaddr(&self) -> (r: TargetAddr)
        ensures
            r == self.vaddr,
    {
        self.vaddr
    }

    #[inline]
    pub fn memory_size(&self) -> (r: u64)
        ensures
            r == self.memory_size,
    {
        self.memory_size
    }
}

/// The lowest bit of the flags of a segment lets it execute, the next one lets it be
/// written, and the one above lets it be read.
pub proof fn flags_are_told_by_their_bits(flags: u32)
    ensures
        permissions_of(flags).executable() <==> flags % 2 == 1,
        permissions_of(flags).writable() <==> flags / 2 % 2 == 1,
        permissions_of(flags).readable() <==> flags / 4 % 2 == 1,
        permissions_of(flags).bits < 8,
{
    permissions_follow_flags(flags);
    assert((flags & 1 != 0 <==> flags % 2 == 1) && (flags & 2 != 0 <==> flags / 2 % 2 == 1)
        && (flags
        & 4 != 0 <==> flags / 4 % 2 == 1)) by (bit_vector);
    assert(0u8 | 1 == 1 && 0u8 | 2 == 2 && 0u8 | 4 == 4 && 1u8 | 2 == 3 && 1u8 | 4 == 5 && 2u8 | 4
        == 6 && 3u8 | 4 == 7) by (bit_vector);
}

/// A program header is what the words of its table entry say. The words of a 32-bit entry
/// have four bytes each; the type and the flags of a 64-bit entry come first and have four
/// bytes, and every other word has eight. The word behind the address, of the physical
/// address, is passed over.
pub proof fn program_headers_are_read_from_their_words(
    bytes: Seq<u8>,
    class: ElfClass,
    endian: ElfData,
)
    requires
        bytes.len() >= if class is Elf32 {
            32int
        } else {
            56int
        },
    ensures
        ({
            let header = program_header_of(bytes, class, endian);
            &&& header.program_type == word_at(bytes, 0, 4, endian)
            &&& class is Elf32 ==> {
                &&& header.file_offset == word_at(bytes, 4, 4, endian)
                &&& header.vaddr == word_at(bytes, 8, 4, endian)
                &&& header.file_size == word_at(bytes, 16, 4, endian)
                &&& header.memory_size == word_at(bytes, 20, 4, endian)
                &&& header.flags == word_at(bytes, 24, 4, endian)
                &&& header.align == word_at(bytes, 28, 4, endian)
            }
            &&& class is Elf64 ==> {
                &&& header.flags == word_at(bytes, 4, 4, endian)
                &&& header.file_offset == word_at(bytes, 8, 8, endian)
                &&& header.vaddr == word_at(bytes, 16, 8, endian)
                &&& header.file_size == word_at(bytes, 32, 8, endian)
                &&& header.memory_size == word_at(bytes, 40, 8, endian)
                &&& header.align == word_at(bytes, 48, 8, endian)
            }
        }),
{
    crate::bytes::lemma_word_bounds(bytes, 0, endian);
    crate::bytes::lemma_word_bounds(bytes, 4, endian);
    crate::bytes::lemma_word_bounds(bytes, 8, endian);
    crate::bytes::lemma_word_bounds(bytes, 16, endian);
    crate::bytes::lemma_word_bounds(bytes, 20, endian);
    crate::bytes::lemma_word_bounds(bytes, 24, endian);
    crate::bytes::lemma_word_bounds(bytes, 28, endian);
    if class is Elf64 {
        crate::bytes::lemma_word_bounds(bytes, 32, endian);
        crate::bytes::lemma_word_bounds(bytes, 40, endian);
        crate::bytes::lemma_word_bounds(bytes, 48, endian);
    }
}

} // verus!
