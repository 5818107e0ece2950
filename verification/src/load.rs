//! Loading a program image from a buffer.

use crate::address::{TargetAddr, TargetRange};
use crate::bytes::{copy_range, word_at};
use crate::cache::{all_accepted, all_visible, cache_refused, CodeCache};
use crate::elf::{
    program_header_size, ElfHeaderInfo, ProgramHeaderFields, ELFCLASS32, ELFCLASS64, ELFDATA2LSB,
    ELFDATA2MSB, EM_AARCH64, EM_ARM, EM_RISCV, ET_DYN, ET_EXEC, PT_LOAD,
};
use crate::error::{
    claim, fail_at, failure, unclaimed, ErrorContext, LoadError, LoadErrorKind, LoadResult, LoadStage,
};
use crate::identity::{
    ElfClass, ElfData, ElfMachine, ElfType, FloatAbi, LoadLimits, LoadPolicy, LoadProfile,
    LoadRequest,
};
use crate::image::admission::{
    admission_fault, admit_image, inspect_spec, inspected_segments_are_loadable_headers, Inspection,
};
use crate::image::complete::{planned_images_fit, protected_granules_lie_in_memory};
use crate::image::decode::{image_target, DecodedImage, RelocatedImage};
use crate::image::inspect::{image_plan, plans_keep_their_segments};
use crate::image::loaded::{
    all_apart, image_fits, lemma_image_within, lemma_region_byte, loaded_content, loading_fills_every_region,
    mapping_adds_the_load_bias, region_byte, region_fits, regions_within, MappedView,
};
use crate::image::map::{
    artifact_request_spec, image_relocations, plan_layout_spec, plan_mapped,
    planned_segments_are_mapped,
};
use crate::image::parser::{headers_in, table_readable};
use crate::image::plan::{bias_spec, request_spec, AllocatedImage, PlannedView};
use crate::image::protection::{protection_spec, ProtectionCapabilities};
use crate::image::records::{RelocationAddend, RelocationRecord};
use crate::image::seal::{in_place, in_region, seal_plans_tile_the_image, seal_spec};
use crate::image::sealed::executable_spec;
use crate::memory::{ready, ImageAllocation, ImageMemory};
use crate::memory_mapper::{
    authorized, failed_with, install_spec, is_real_address, MappingMode, MappingModeKind,
    MemoryMapper, MemoryRegion, Result,
};
use crate::parser_limits::{check_tables, table_numbers_fit};
use crate::permissions::MemoryPermissions;
use crate::reader::{ElfReader, SliceElfReader};
use crate::relocation::apply::{
    addend_spec, lemma_operations_keep_length, lemma_plan_within, operations_done, place_spec,
    relocated_at, relocated_words_are_biased, relocation_adds_the_load_bias, relocation_plan,
    relocation_touches_only_its_words, words_within,
};
use crate::relocation::arm::ArmRelocator;
use crate::relocation::riscv::{Riscv32Relocator, Riscv64Relocator};
use crate::relocation::{ArchRelocator, RelocationOperation};
use crate::request::ArtifactProfile;
use crate::sort::{are_places, lemma_next_place};
use vstd::prelude::*;

verus! {

/// The header and the program headers of an ELF file.
pub struct ElfFile {
    pub class: u8,
    pub data: u8,
    pub elf_type: u16,
    pub machine: u16,
    pub entry: u64,
    pub program_header_offset: u64,
    pub program_header_entry_size: u16,
    pub program_header_count: u16,
    pub program_headers: Vec<ProgramHeaderFields>,
}

/// The contents of an ELF file description.
#[verifier::ext_equal]
pub struct ElfFileView {
    pub class: u8,
    pub data: u8,
    pub elf_type: u16,
    pub machine: u16,
    pub entry: u64,
    pub program_header_offset: u64,
    pub program_header_entry_size: u16,
    pub program_header_count: u16,
    pub program_headers: Seq<ProgramHeaderFields>,
}

impl View for ElfFile {
    type V = ElfFileView;

    open spec fn view(&self) -> ElfFileView {
        ElfFileView {
            class: self.class,
            data: self.data,
            elf_type: self.elf_type,
            machine: self.machine,
            entry: self.entry,
            program_header_offset: self.program_header_offset,
            program_header_entry_size: self.program_header_entry_size,
            program_header_count: self.program_header_count,
            program_headers: self.program_headers@,
        }
    }
}

/// What `goblin::elf::Elf::parse` makes of some bytes on a machine whose addresses
/// have `address_bits` bits: the header and the program headers, or nothing where
/// it fails.
pub uninterp spec fn elf_file(bytes: Seq<u8>, address_bits: nat) -> Option<ElfFileView>;

/// Whether a description is that of the ELF header at the start of some bytes: the
/// magic number, a class and a data encoding that exist, the fields of the header at
/// the offsets of that class, and the program headers, one after the other from the
/// offset that the header gives.
pub open spec fn described(bytes: Seq<u8>, elf: ElfFileView) -> bool {
    &&& bytes.len() >= 16
    &&& bytes[0] == 0x7f && bytes[1] == 0x45 && bytes[2] == 0x4c && bytes[3] == 0x46
    &&& elf.class == bytes[4]
    &&& elf.data == bytes[5]
    &&& class_spec(elf.class) is Some
    &&& endian_spec(elf.data) is Some
    &&& header_described(bytes, elf, class_spec(elf.class)->0, endian_spec(elf.data)->0)
    &&& table_described(bytes, elf, class_spec(elf.class)->0, endian_spec(elf.data)->0)
}

/// Whether the fields of a description are those of the header at the start of some
/// bytes of a class and a byte order.
pub open spec fn header_described(
    bytes: Seq<u8>,
    elf: ElfFileView,
    class: ElfClass,
    endian: ElfData,
) -> bool {
    &&& elf.elf_type == word_at(bytes, 16, 2, endian)
    &&& elf.machine == word_at(bytes, 18, 2, endian)
    &&& match class {
        ElfClass::Elf32 => {
            &&& bytes.len() >= 52
            &&& elf.entry == word_at(bytes, 24, 4, endian)
            &&& elf.program_header_offset == word_at(bytes, 28, 4, endian)
            &&& elf.program_header_entry_size == word_at(bytes, 42, 2, endian)
            &&& elf.program_header_count == word_at(bytes, 44, 2, endian)
        },
        ElfClass::Elf64 => {
            &&& bytes.len() >= 64
            &&& elf.entry == word_at(bytes, 24, 8, endian)
            &&& elf.program_header_offset == word_at(bytes, 32, 8, endian)
            &&& elf.program_header_entry_size == word_at(bytes, 54, 2, endian)
            &&& elf.program_header_count == word_at(bytes, 56, 2, endian)
        },
    }
}

/// Whether the program headers of a description are those in some bytes at the
/// offset of its table, as a machine address holds it. The size that the header
/// gives for one entry plays no part.
pub open spec fn table_described(
    bytes: Seq<u8>,
    elf: ElfFileView,
    class: ElfClass,
    endian: ElfData,
) -> bool {
    let start = elf.program_header_offset as usize as int;
    let size = program_header_size(class) as int;
    let count = elf.program_header_count as int;
    &&& count > 0 ==> start + count * size <= bytes.len()
    &&& elf.program_headers == headers_in(bytes, start, size, count, class, endian)
}

/// Parses a buffer with `goblin::elf::Elf::parse`. The contract claims that the
/// result depends on the bytes and on the width of a machine address alone, and that
/// the header and the program headers are read from the bytes as `described` says.
/// On which bytes parsing fails is not stated: the parser also reads the sections,
/// the symbols and the relocations, and fails where one of them is malformed. With
/// 32-bit addresses the parser overflows on a hash table or a symbol number beyond the
/// address space, and its lists of sections, dynamic entries and strings may outgrow
/// the address space, so such bytes are left out.
#[verifier::external_body]
fn parse_elf(buffer: &[u8]) -> (r: Option<ElfFile>)
    requires
        usize::BITS == 64 || table_numbers_fit(buffer@),
    ensures
        match r {
            Some(file) => elf_file(buffer@, usize::BITS as nat) == Some(file@),
            None => elf_file(buffer@, usize::BITS as nat) is None,
        },
        r matches Some(file) ==> described(buffer@, file@),
{
    let elf = goblin::elf::Elf::parse(buffer).ok()?;
    let headers = elf.program_headers.iter().map(|ph| ProgramHeaderFields {
        program_type: ph.p_type, flags: ph.p_flags, file_offset: ph.p_offset, vaddr: ph.p_vaddr,
        file_size: ph.p_filesz, memory_size: ph.p_memsz, align: ph.p_align,
    }).collect();
    Some(ElfFile {
        class: elf.header.e_ident[4], data: elf.header.e_ident[5],
        elf_type: elf.header.e_type, machine: elf.header.e_machine, entry: elf.header.e_entry,
        program_header_offset: elf.header.e_phoff,
        program_header_entry_size: elf.header.e_phentsize,
        program_header_count: elf.header.e_phnum, program_headers: headers,
    })
}

/// What a file holds on this machine: what the parser makes of it, or nothing where its
/// tables have numbers that are no machine addresses or entries that no list can hold.
pub open spec fn elf_contents(bytes: Seq<u8>) -> Option<ElfFileView> {
    if usize::BITS == 64 || table_numbers_fit(bytes) {
        elf_file(bytes, usize::BITS as nat)
    } else {
        None
    }
}

/// Reads the header and the program headers of a file.
pub fn read_elf(buffer: &[u8]) -> (r: Option<ElfFile>)
    ensures
        match r {
            Some(file) => elf_contents(buffer@) == Some(file@) && described(buffer@, file@),
            None => elf_contents(buffer@) is None,
        },
{
    if usize::BITS != 64 && !check_tables(buffer) {
        return None;
    }
    parse_elf(buffer)
}

/// The class of a file.
pub open spec fn class_spec(class: u8) -> Option<ElfClass> {
    if class == ELFCLASS32 {
        Some(ElfClass::Elf32)
    } else if class == ELFCLASS64 {
        Some(ElfClass::Elf64)
    } else {
        None
    }
}

/// The byte order of a file.
pub open spec fn endian_spec(data: u8) -> Option<ElfData> {
    if data == ELFDATA2LSB {
        Some(ElfData::Little)
    } else if data == ELFDATA2MSB {
        Some(ElfData::Big)
    } else {
        None
    }
}

/// The machine of a file.
pub open spec fn machine_spec(machine: u16) -> ElfMachine {
    if machine == EM_ARM {
        ElfMachine::Arm
    } else if machine == EM_RISCV {
        ElfMachine::Riscv
    } else if machine == EM_AARCH64 {
        ElfMachine::Aarch64
    } else {
        ElfMachine::Other(machine)
    }
}

/// The profile that a position-independent file is loaded with.
pub fn dynamic_load_profile(elf: &ElfFile) -> (r: Result<(LoadProfile, ElfClass, ElfMachine)>)
    ensures
        match (class_spec(elf.class), endian_spec(elf.data)) {
            (None, _) => failed_with(r, "Unsupported ELF class"@),
            (Some(_), None) => failed_with(r, "Unsupported ELF endian"@),
            (Some(class), Some(endian)) => r == Ok::<
                (LoadProfile, ElfClass, ElfMachine),
                &'static str,
            >(
                (
                    LoadProfile {
                        class,
                        endian,
                        machine: machine_spec(elf.machine),
                        elf_type: ElfType::Dyn,
                        float_abi: FloatAbi::Soft,
                    },
                    class,
                    machine_spec(elf.machine),
                ),
            ),
        },
{
    let class = if elf.class == ELFCLASS32 {
        ElfClass::Elf32
    } else if elf.class == ELFCLASS64 {
        ElfClass::Elf64
    } else {
        return Err("Unsupported ELF class");
    };
    let endian = if elf.data == ELFDATA2LSB {
        ElfData::Little
    } else if elf.data == ELFDATA2MSB {
        ElfData::Big
    } else {
        return Err("Unsupported ELF endian");
    };
    let machine = if elf.machine == EM_ARM {
        ElfMachine::Arm
    } else if elf.machine == EM_RISCV {
        ElfMachine::Riscv
    } else if elf.machine == EM_AARCH64 {
        ElfMachine::Aarch64
    } else {
        ElfMachine::Other(elf.machine)
    };
    Ok((LoadProfile::new(class, endian, machine, ElfType::Dyn), class, machine))
}

/// The header that a parsed file has for a class, a byte order and a machine, or
/// `None` where the file could not be parsed or has others.
pub open spec fn header_spec(
    file: Option<ElfFileView>,
    class: ElfClass,
    endian: ElfData,
    machine: ElfMachine,
) -> Option<ElfHeaderInfo> {
    match file {
        Some(elf) => if class_spec(elf.class) == Some(class) && endian_spec(elf.data) == Some(
            endian,
        ) && machine_spec(elf.machine) == machine {
            Some(dyn_header(elf))
        } else {
            None
        },
        None => None,
    }
}

/// The header of a parsed file, if the file has this class, byte order and machine.
pub fn header_of(elf: &ElfFile, class: ElfClass, endian: ElfData, machine: ElfMachine) -> (r:
    Option<ElfHeaderInfo>)
    ensures
        r == header_spec(Some(elf@), class, endian, machine),
{
    match dynamic_load_profile(elf) {
        Ok((profile, own_class, own_machine)) => {
            if own_class == class && profile.endian() == endian && own_machine == machine {
                Some(
                    ElfHeaderInfo {
                        class,
                        endian,
                        machine,
                        entry: elf.entry,
                        program_header_offset: elf.program_header_offset,
                        program_header_entry_size: elf.program_header_entry_size,
                        program_header_count: elf.program_header_count,
                    },
                )
            } else {
                None
            }
        },
        Err(_) => None,
    }
}

/// The header of a file, if it can be parsed and belongs to a profile.
pub fn header_for(bytes: &[u8], profile: &ArtifactProfile) -> (r: Option<ElfHeaderInfo>)
    ensures
        r == header_spec(
            elf_contents(bytes@),
            profile.class,
            profile.endian,
            profile.machine,
        ),
{
    match read_elf(bytes) {
        Some(elf) => header_of(&elf, profile.class, profile.endian, profile.machine),
        None => None,
    }
}

/// The type of a file.
pub open spec fn type_spec(elf_type: u16) -> ElfType {
    if elf_type == ET_DYN {
        ElfType::Dyn
    } else if elf_type == ET_EXEC {
        ElfType::Exec
    } else {
        ElfType::Other(elf_type)
    }
}

/// The header of a parsed file under a load profile: the file must have been parsed,
/// and must be of the class, the byte order, the machine and the type of the profile.
pub open spec fn admitted_header(file: Option<ElfFileView>, profile: LoadProfile) -> LoadResult<
    ElfHeaderInfo,
> {
    match file {
        None => Err(failure(LoadStage::Admit, LoadErrorKind::BadElf, ErrorContext::Nothing)),
        Some(elf) => match header_spec(file, profile.class, profile.endian, profile.machine) {
            Some(header) => if type_spec(elf.elf_type) == profile.elf_type {
                Ok(header)
            } else {
                Err(
                    failure(
                        LoadStage::Admit,
                        LoadErrorKind::UnsupportedByProfile,
                        ErrorContext::Nothing,
                    ),
                )
            },
            None => Err(
                failure(
                    LoadStage::Admit,
                    LoadErrorKind::UnsupportedByProfile,
                    ErrorContext::Nothing,
                ),
            ),
        },
    }
}

/// Checks a parsed file against a load profile.
pub fn check_header(elf: &Option<ElfFile>, profile: &LoadProfile) -> (r: LoadResult<ElfHeaderInfo>)
    ensures
        r == admitted_header(
            match elf {
                Some(file) => Some(file@),
                None => None,
            },
            *profile,
        ),
{
    let elf = match elf {
        Some(elf) => elf,
        None => {
            return Err(fail_at(LoadStage::Admit, LoadErrorKind::BadElf, ErrorContext::Nothing));
        },
    };
    let elf_type = if elf.elf_type == ET_DYN {
        ElfType::Dyn
    } else if elf.elf_type == ET_EXEC {
        ElfType::Exec
    } else {
        ElfType::Other(elf.elf_type)
    };
    match header_of(elf, profile.class(), profile.endian(), profile.machine()) {
        Some(header) => if elf_type == profile.elf_type() {
            return Ok(header);
        },
        None => {},
    }
    Err(fail_at(LoadStage::Admit, LoadErrorKind::UnsupportedByProfile, ErrorContext::Nothing))
}

/// Reads the header of a file under a load profile.
pub fn read_header(bytes: &[u8], profile: &LoadProfile) -> (r: LoadResult<ElfHeaderInfo>)
    ensures
        r == admitted_header(elf_contents(bytes@), *profile),
{
    let elf = read_elf(bytes);
    check_header(&elf, profile)
}

/// The message for the stage in which a load failed.
pub open spec fn stage_message(stage: Option<LoadStage>) -> Seq<char> {
    match stage {
        Some(LoadStage::Admit) => "Unable to admit dynamic ELF"@,
        Some(LoadStage::Inspect) => "Unable to inspect dynamic ELF"@,
        Some(LoadStage::Plan) => "Unable to plan dynamic ELF"@,
        Some(LoadStage::Allocate) => "Unable to allocate dynamic ELF"@,
        Some(LoadStage::Mapping) => "Unable to map dynamic ELF"@,
        Some(LoadStage::Decode) => "Unable to decode dynamic ELF"@,
        Some(LoadStage::Relocate) => "Unable to relocate dynamic ELF"@,
        Some(LoadStage::Cache) => "Unable to synchronize dynamic ELF"@,
        Some(LoadStage::Seal) => "Unable to seal dynamic ELF"@,
        _ => "Unable to load dynamic ELF"@,
    }
}

/// The message for a load failure.
pub fn compatibility_error(error: LoadError) -> (r: &'static str)
    ensures
        r@ == stage_message(error.stage),
{
    match error.stage() {
        Some(LoadStage::Admit) => "Unable to admit dynamic ELF",
        Some(LoadStage::Inspect) => "Unable to inspect dynamic ELF",
        Some(LoadStage::Plan) => "Unable to plan dynamic ELF",
        Some(LoadStage::Allocate) => "Unable to allocate dynamic ELF",
        Some(LoadStage::Mapping) => "Unable to map dynamic ELF",
        Some(LoadStage::Decode) => "Unable to decode dynamic ELF",
        Some(LoadStage::Relocate) => "Unable to relocate dynamic ELF",
        Some(LoadStage::Cache) => "Unable to synchronize dynamic ELF",
        Some(LoadStage::Seal) => "Unable to seal dynamic ELF",
        _ => "Unable to load dynamic ELF",
    }
}

/// The first loadable segment from `from` on whose addresses have no end.
pub open spec fn endless_from(headers: Seq<ProgramHeaderFields>, from: int) -> Option<int>
    decreases headers.len() - from,
{
    if from >= headers.len() {
        None
    } else if headers[from].program_type == PT_LOAD && headers[from].vaddr
        + headers[from].memory_size > u64::MAX {
        Some(from)
    } else {
        endless_from(headers, from + 1)
    }
}

/// The lowest address of the first `k` loadable segments, or `start`.
pub open spec fn lowest(headers: Seq<ProgramHeaderFields>, k: int, start: usize) -> usize
    decreases k,
{
    if k <= 0 {
        start
    } else {
        let before = lowest(headers, k - 1, start);
        let own = headers[k - 1].vaddr as usize;
        if headers[k - 1].program_type == PT_LOAD && own < before {
            own
        } else {
            before
        }
    }
}

/// The highest end of the first `k` loadable segments, or `end`.
pub open spec fn highest(headers: Seq<ProgramHeaderFields>, k: int, end: usize) -> usize
    decreases k,
{
    if k <= 0 {
        end
    } else {
        let before = highest(headers, k - 1, end);
        let own = (headers[k - 1].vaddr + headers[k - 1].memory_size) as u64 as usize;
        if headers[k - 1].program_type == PT_LOAD && own > before {
            own
        } else {
            before
        }
    }
}

/// The mapper after the bounds of the first `k` segments of a file are taken over.
pub open spec fn laid_out(mapper: MemoryMapper, headers: Seq<ProgramHeaderFields>, k: int) -> MemoryMapper {
    MemoryMapper {
        virtual_start: lowest(headers, k, mapper.virtual_start),
        virtual_end: highest(headers, k, mapper.virtual_end),
        ..mapper
    }
}

/// Takes over the bounds and the entry of a file, whose loadable segments are
/// taken to be compact. It stops at a segment whose addresses have no end.
pub fn build_memory_layout(elf: &ElfFile, mapper: &mut MemoryMapper) -> (r: Result<()>)
    ensures
        match endless_from(elf@.program_headers, 0) {
            Some(k) => failed_with(r, "Program header range has no end"@) && *final(mapper)
                == laid_out(*old(mapper), elf@.program_headers, k),
            None => r is Ok && *final(mapper) == (MemoryMapper {
                virtual_entry: elf@.entry as usize,
                ..laid_out(
                    *old(mapper),
                    elf@.program_headers,
                    elf@.program_headers.len() as int,
                )
            }),
        },
{
    let mut index: usize = 0;
    while index < elf.program_headers.len()
        invariant
            index <= elf.program_headers@.len(),
            endless_from(elf.program_headers@, 0) == endless_from(
                elf.program_headers@,
                index as int,
            ),
            *mapper == laid_out(*old(mapper), elf.program_headers@, index as int),
        decreases elf.program_headers@.len() - index,
    {
        let ph = elf.program_headers[index];
        if ph.program_type == PT_LOAD {
            let end: u64 = match ph.vaddr.checked_add(ph.memory_size) {
                Some(end) => end,
                None => return Err("Program header range has no end"),
            };
            mapper.update_start(ph.vaddr as usize);
            mapper.update_end(end as usize);
        }
        index = index + 1;
    }
    mapper.set_entry(elf.entry as usize);
    Ok(())
}

/// Where the file bytes of a segment start in a buffer, as a machine address holds it.
pub open spec fn source_start(header: ProgramHeaderFields) -> usize {
    header.file_offset as usize
}

/// Where the file bytes of a segment end in a buffer, as a machine address holds it.
pub open spec fn source_end(header: ProgramHeaderFields) -> usize {
    (header.file_offset + header.file_size) as u64 as usize
}

/// What keeps a segment from being copied to its fixed address.
pub open spec fn copy_fault(
    mode: MappingMode,
    header: ProgramHeaderFields,
    buffer_len: nat,
) -> Option<Seq<char>> {
    if header.program_type != PT_LOAD {
        None
    } else if header.file_offset + header.file_size > u64::MAX {
        Some("Program header range has no end"@)
    } else if source_start(header) > source_end(header) || source_end(header) > buffer_len {
        Some("Invalid indices to the buffer"@)
    } else {
        match mode {
            MappingMode::Allocated => Some("Fixed span requires a fixed mapper"@),
            MappingMode::Fixed(regions) => if authorized(
                regions@,
                header.vaddr as usize,
                (source_end(header) - source_start(header)) as usize,
                MemoryPermissions::spec_write(),
            ) {
                None
            } else {
                Some("Address span is outside authorized regions"@)
            },
        }
    }
}

/// The first segment from `from` on that cannot be copied.
pub open spec fn uncopied_from(
    mode: MappingMode,
    headers: Seq<ProgramHeaderFields>,
    from: int,
    buffer_len: nat,
) -> Option<int>
    decreases headers.len() - from,
{
    if from >= headers.len() {
        None
    } else if copy_fault(mode, headers[from], buffer_len) is Some {
        Some(from)
    } else {
        uncopied_from(mode, headers, from + 1, buffer_len)
    }
}

/// The addresses and bytes of the writes of a mapper.
pub open spec fn written(mapper: MemoryMapper) -> Seq<(u64, Seq<u8>)> {
    Seq::new(
        mapper.writes@.len(),
        |i: int| (mapper.writes@[i].address, mapper.writes@[i].bytes@),
    )
}

/// The writes of the first `k` segments of a file.
pub open spec fn segment_writes(headers: Seq<ProgramHeaderFields>, k: int, buffer: Seq<u8>) -> Seq<
    (u64, Seq<u8>),
>
    decreases k,
{
    if k <= 0 {
        Seq::empty()
    } else if headers[k - 1].program_type == PT_LOAD {
        segment_writes(headers, k - 1, buffer).push(
            (
                headers[k - 1].vaddr as usize as u64,
                buffer.subrange(
                    source_start(headers[k - 1]) as int,
                    source_end(headers[k - 1]) as int,
                ),
            ),
        )
    } else {
        segment_writes(headers, k - 1, buffer)
    }
}

/// Copies the file bytes of every loadable segment to its fixed address, up to the
/// first that cannot be copied. What a segment has beyond its file bytes is left as
/// it is.
pub fn copy_content_to_memory(buffer: &[u8], elf: &ElfFile, mapper: &mut MemoryMapper) -> (r:
    Result<()>)
    ensures
        *final(mapper) == (MemoryMapper { writes: final(mapper).writes, ..*old(mapper) }),
        match uncopied_from(old(mapper).mode, elf@.program_headers, 0, buffer@.len()) {
            Some(k) => failed_with(
                r,
                copy_fault(old(mapper).mode, elf@.program_headers[k], buffer@.len())->0,
            ) && written(*final(mapper)) == written(*old(mapper)) + segment_writes(
                elf@.program_headers,
                k,
                buffer@,
            ),
            None => r is Ok && written(*final(mapper)) == written(*old(mapper)) + segment_writes(
                elf@.program_headers,
                elf@.program_headers.len() as int,
                buffer@,
            ),
        },
{
    let mut index: usize = 0;
    proof {
        assert(written(*mapper) =~= written(*old(mapper)) + Seq::<(u64, Seq<u8>)>::empty());
    }
    while index < elf.program_headers.len()
        invariant
            index <= elf.program_headers@.len(),
            *mapper == (MemoryMapper { writes: mapper.writes, ..*old(mapper) }),
            uncopied_from(old(mapper).mode, elf.program_headers@, 0, buffer@.len())
                == uncopied_from(
                old(mapper).mode,
                elf.program_headers@,
                index as int,
                buffer@.len(),
            ),
            written(*mapper) == written(*old(mapper)) + segment_writes(
                elf.program_headers@,
                index as int,
                buffer@,
            ),
        decreases elf.program_headers@.len() - index,
    {
        let ph = elf.program_headers[index];
        if ph.program_type == PT_LOAD {
            let past: u64 = match ph.file_offset.checked_add(ph.file_size) {
                Some(past) => past,
                None => return Err("Program header range has no end"),
            };
            let start: usize = ph.file_offset as usize;
            let end: usize = past as usize;
            if start > end || end > buffer.len() {
                return Err("Invalid indices to the buffer");
            }
            let source = copy_range(buffer, start, end);
            let ghost before = *mapper;
            match mapper.write_slice_at(ph.vaddr as usize, source.as_slice()) {
                Ok(_) => {},
                Err(message) => return Err(message),
            }
            proof {
                assert(written(*mapper) =~= written(before).push(
                    (ph.vaddr as usize as u64, source@),
                )) by {
                    assert forall|i: int| 0 <= i < before.writes@.len() implies mapper.writes@[i]
                        == #[trigger] before.writes@[i] by {
                        assert(mapper.writes@.drop_last()[i] == before.writes@[i]);
                    }
                }
                assert(written(*mapper) =~= written(*old(mapper)) + segment_writes(
                    elf.program_headers@,
                    index + 1,
                    buffer@,
                ));
            }
        }
        index = index + 1;
    }
    Ok(())
}

/// What loading a file with fixed addresses does.
pub open spec fn exec_loaded(
    buffer: Seq<u8>,
    elf: ElfFileView,
    before: MemoryMapper,
    after: MemoryMapper,
    r: Result<()>,
) -> bool {
    match before.mode {
        MappingMode::Allocated => failed_with(r, "ET_EXEC requires Fixed mapping mode"@) && after
            == before,
        MappingMode::Fixed(regions) => {
            let headers = elf.program_headers;
            let n = headers.len() as int;
            match endless_from(headers, 0) {
                Some(k) => failed_with(r, "Program header range has no end"@) && after == laid_out(
                    before,
                    headers,
                    k,
                ),
                None => {
                    &&& after == (MemoryMapper {
                        virtual_entry: elf.entry as usize,
                        writes: after.writes,
                        ..laid_out(before, headers, n)
                    })
                    &&& match uncopied_from(before.mode, headers, 0, buffer.len()) {
                        Some(k) => {
                            &&& failed_with(
                                r,
                                copy_fault(before.mode, headers[k], buffer.len())->0,
                            )
                            &&& written(after) == written(before) + segment_writes(
                                headers,
                                k,
                                buffer,
                            )
                        },
                        None => {
                            &&& written(after) == written(before) + segment_writes(
                                headers,
                                n,
                                buffer,
                            )
                            &&& if authorized(
                                regions@,
                                elf.entry as usize,
                                1,
                                MemoryPermissions::spec_execute(),
                            ) {
                                r is Ok
                            } else {
                                failed_with(r, "Address span is outside authorized regions"@)
                            }
                        },
                    }
                },
            }
        },
    }
}

/// Loads a file with fixed addresses.
pub fn load_exec_elf(buffer: &[u8], elf: &ElfFile, mapper: &mut MemoryMapper) -> (r: Result<()>)
    ensures
        exec_loaded(buffer@, elf@, *old(mapper), *final(mapper), r),
{
    if mapper.mode_kind() != MappingModeKind::Fixed {
        return Err("ET_EXEC requires Fixed mapping mode");
    }
    build_memory_layout(elf, mapper)?;
    copy_content_to_memory(buffer, elf, mapper)?;
    mapper.real_entry()?;
    Ok(())
}

/// The quotas of a load that asks for no others.
pub open spec fn default_load_limits() -> LoadLimits {
    LoadLimits {
        max_file_len: 0x400_0000,
        max_program_headers: 128,
        max_load_segments: 32,
        max_image_span: 0x400_0000,
        max_segment_alignment: 0x4000_0000,
        max_dynamic_entries: 1024,
        max_relocations: 0x10_0000,
        max_runtime_metadata_bytes: 0x400_0000,
        max_relocation_operation_bytes: 0x400_0000,
    }
}

/// The request for a position-independent file.
pub open spec fn dyn_request(elf: ElfFileView, limits: LoadLimits) -> LoadRequest {
    LoadRequest {
        profile: LoadProfile {
            class: class_spec(elf.class)->0,
            endian: endian_spec(elf.data)->0,
            machine: machine_spec(elf.machine),
            elf_type: ElfType::Dyn,
            float_abi: FloatAbi::Soft,
        },
        limits,
    }
}

/// The decoded header of a file.
pub open spec fn dyn_header(elf: ElfFileView) -> ElfHeaderInfo {
    ElfHeaderInfo {
        class: class_spec(elf.class)->0,
        endian: endian_spec(elf.data)->0,
        machine: machine_spec(elf.machine),
        entry: elf.entry,
        program_header_offset: elf.program_header_offset,
        program_header_entry_size: elf.program_header_entry_size,
        program_header_count: elf.program_header_count,
    }
}

/// The relocation plan of the machine and class of a file, if they are supported.
pub open spec fn machine_relocations(
    request: LoadRequest,
    mapped: MappedView,
    records: Seq<RelocationRecord>,
    content: Seq<u8>,
) -> LoadResult<Seq<RelocationOperation>> {
    let target = image_target(request, mapped.load_bias);
    match (request.profile.machine, request.profile.class) {
        (ElfMachine::Arm, ElfClass::Elf32) => relocation_plan(
            records,
            ArmRelocator,
            target,
            mapped.regions,
            content,
        ),
        (ElfMachine::Riscv, ElfClass::Elf32) => relocation_plan(
            records,
            Riscv32Relocator,
            target,
            mapped.regions,
            content,
        ),
        (ElfMachine::Riscv, ElfClass::Elf64) => relocation_plan(
            records,
            Riscv64Relocator,
            target,
            mapped.regions,
            content,
        ),
        _ => Err(unclaimed(LoadErrorKind::UnsupportedByProfile, ErrorContext::Nothing)),
    }
}

/// The relocation plan of a file, or its failure as the load reports it.
pub open spec fn staged_relocations(
    request: LoadRequest,
    mapped: MappedView,
    records: Seq<RelocationRecord>,
    content: Seq<u8>,
) -> LoadResult<Seq<RelocationOperation>> {
    let words = machine_relocations(request, mapped, records, content);
    match (request.profile.machine, request.profile.class) {
        (ElfMachine::Arm, ElfClass::Elf32) => claim(words, LoadStage::Relocate),
        (ElfMachine::Riscv, _) => claim(words, LoadStage::Relocate),
        _ => words,
    }
}

/// The steps of a successful load: the inspected headers, the plan, the mapped
/// state, the relocations, the storage before the load and the relocated words.
pub struct LoadSteps {
    pub found: Inspection,
    pub plan: PlannedView,
    pub mapped: MappedView,
    pub records: Seq<RelocationRecord>,
    pub before: Seq<u8>,
    pub words: Seq<RelocationOperation>,
}

/// Whether a mapper holds a file as these steps load it: planned from its
/// program headers, copied from the buffer, and relocated to where it lies.
pub open spec fn loaded_by(
    buffer: Seq<u8>,
    elf: ElfFileView,
    limits: LoadLimits,
    mapper: MemoryMapper,
    steps: LoadSteps,
) -> bool {
    let request = dyn_request(elf, limits);
    let header = dyn_header(elf);
    let headers = headers_in(
        buffer,
        header.program_header_offset as int,
        header.program_header_entry_size as int,
        header.program_header_count as int,
        request.profile.class,
        request.profile.endian,
    );
    let copied = loaded_content(steps.before, steps.mapped, buffer);
    let asked = request_spec(steps.plan, ElfType::Dyn);
    &&& inspect_spec(
        request,
        header.machine,
        headers,
        buffer.len() as u64,
        LoadPolicy::phase0_spec(),
    ) == Ok::<Inspection, LoadError>(steps.found)
    &&& image_plan(request, header, steps.found) == Ok::<PlannedView, LoadError>(steps.plan)
    &&& asked is Ok
    &&& mapper.allocation == Some(steps.mapped.allocation)
    &&& mapper.mode is Allocated
    &&& steps.before.len() == steps.mapped.allocation.len
    &&& bias_spec(steps.plan, asked->Ok_0, request.profile.class, steps.mapped.allocation) == Ok::<
        TargetAddr,
        LoadError,
    >(steps.mapped.load_bias)
    &&& plan_mapped(steps.plan, request, steps.mapped.allocation, steps.mapped.load_bias) == Ok::<
        MappedView,
        LoadError,
    >(steps.mapped)
    &&& image_relocations(request, steps.mapped, copied) == Ok::<
        Seq<RelocationRecord>,
        LoadError,
    >(steps.records)
    &&& machine_relocations(request, steps.mapped, steps.records, copied) == Ok::<
        Seq<RelocationOperation>,
        LoadError,
    >(steps.words)
    &&& mapper.image() == operations_done(
        copied,
        steps.words,
        steps.words.len() as int,
        image_target(request, steps.mapped.load_bias).word(),
    )
}

/// The program headers of a position-independent file.
pub open spec fn dyn_headers(buffer: Seq<u8>, elf: ElfFileView, limits: LoadLimits) -> Seq<
    ProgramHeaderFields,
> {
    let header = dyn_header(elf);
    let request = dyn_request(elf, limits);
    headers_in(
        buffer,
        header.program_header_offset as int,
        header.program_header_entry_size as int,
        header.program_header_count as int,
        request.profile.class,
        request.profile.endian,
    )
}

/// The plan of a position-independent file whose program headers lie in the buffer.
pub open spec fn dyn_plan(buffer: Seq<u8>, elf: ElfFileView, limits: LoadLimits) -> LoadResult<
    PlannedView,
> {
    let request = dyn_request(elf, limits);
    let header = dyn_header(elf);
    match admission_fault(header, request, buffer.len() as u64) {
        Err(error) => Err(error),
        Ok(_) => match inspect_spec(
            request,
            header.machine,
            dyn_headers(buffer, elf, limits),
            buffer.len() as u64,
            LoadPolicy::phase0_spec(),
        ) {
            Err(error) => Err(error),
            Ok(found) => match image_plan(request, header, found) {
                Err(error) => Err(error),
                Ok(plan) => match request_spec(plan, ElfType::Dyn) {
                    Err(error) => Err(error),
                    Ok(_) => Ok(plan),
                },
            },
        },
    }
}

/// Why the addresses of an image or its entry do not exist on this machine.
pub open spec fn entry_fault(allocation: ImageAllocation, load_bias: TargetAddr, entry: TargetAddr) -> Option<
    Seq<char>,
> {
    match install_spec(Some(allocation), load_bias, entry) {
        Err(error) => Some(stage_message(error.stage)),
        Ok((start, end, entry)) => if !(start <= entry < end) {
            Some("The virtual address is in an illegal memory region"@)
        } else if allocation.base.0 + (entry - start) > usize::MAX {
            Some("Memory not allocated yet"@)
        } else {
            None
        },
    }
}

/// Why a planned file does not load in an allocation that held these bytes: the
/// failure to map it, to read its relocations, to do them, or to seal it, or that its
/// addresses do not exist.
pub open spec fn load_fault(
    buffer: Seq<u8>,
    elf: ElfFileView,
    limits: LoadLimits,
    plan: PlannedView,
    allocation: ImageAllocation,
    before: Seq<u8>,
) -> Option<Seq<char>> {
    let request = dyn_request(elf, limits);
    let asked = request_spec(plan, ElfType::Dyn)->Ok_0;
    let bias = bias_spec(plan, asked, request.profile.class, allocation)->Ok_0;
    match plan_mapped(plan, request, allocation, bias) {
        Err(error) => Some(stage_message(error.stage)),
        Ok(mapped) => {
            let copied = loaded_content(before, mapped, buffer);
            match image_relocations(request, mapped, copied) {
                Err(error) => Some(stage_message(error.stage)),
                Ok(records) => match staged_relocations(request, mapped, records, copied) {
                    Err(error) => Some(stage_message(error.stage)),
                    Ok(_) => match protection_spec(
                        allocation,
                        seal_spec(mapped)->Ok_0,
                        ProtectionCapabilities { granule: 1, max_ranges: usize::MAX },
                    ) {
                        Err(error) => Some(stage_message(error.stage)),
                        Ok(_) => entry_fault(allocation, bias, mapped.entry),
                    },
                },
            }
        },
    }
}

/// Whether a planned file is mapped and relocated in an allocation that held these
/// bytes, and the load fails because the cache refuses some of its code.
pub open spec fn uncached<C: CodeCache>(
    buffer: Seq<u8>,
    elf: ElfFileView,
    limits: LoadLimits,
    plan: PlannedView,
    allocation: ImageAllocation,
    before: Seq<u8>,
    cache: C,
    message: Seq<char>,
) -> bool {
    let request = dyn_request(elf, limits);
    let asked = request_spec(plan, ElfType::Dyn)->Ok_0;
    let bias = bias_spec(plan, asked, request.profile.class, allocation)->Ok_0;
    let mapped = plan_mapped(plan, request, allocation, bias);
    let copied = loaded_content(before, mapped->Ok_0, buffer);
    let records = image_relocations(request, mapped->Ok_0, copied);
    let parts = seal_spec(mapped->Ok_0)->Ok_0;
    &&& mapped is Ok
    &&& records is Ok
    &&& staged_relocations(request, mapped->Ok_0, records->Ok_0, copied) is Ok
    &&& exists|error: LoadError| #[trigger]
        cache_refused(cache, executable_spec(parts, parts.len() as int), error) && message
            == stage_message(error.stage)
}

/// Whether an allocation fits a planned file and held these bytes.
pub open spec fn suits(
    elf: ElfFileView,
    plan: PlannedView,
    allocation: ImageAllocation,
    before: Seq<u8>,
) -> bool {
    &&& allocation.len == before.len()
    &&& bias_spec(
        plan,
        request_spec(plan, ElfType::Dyn)->Ok_0,
        class_spec(elf.class)->0,
        allocation,
    ) is Ok
}

/// Whether a failure to load a planned file is explained: there was no memory for
/// it, or it is the fault of the file in an allocation that fits it, or the cache
/// refused the code of the file there.
pub open spec fn explained<C: CodeCache>(
    buffer: Seq<u8>,
    elf: ElfFileView,
    limits: LoadLimits,
    plan: PlannedView,
    cache: C,
    message: Seq<char>,
) -> bool {
    ||| message == "Unable to allocate dynamic ELF"@
    ||| exists|allocation: ImageAllocation, before: Seq<u8>|
        suits(elf, plan, allocation, before) && #[trigger] load_fault(
            buffer,
            elf,
            limits,
            plan,
            allocation,
            before,
        ) == Some(message)
    ||| exists|allocation: ImageAllocation, before: Seq<u8>|
        suits(elf, plan, allocation, before) && #[trigger] uncached(
            buffer,
            elf,
            limits,
            plan,
            allocation,
            before,
            cache,
            message,
        )
}

/// Whether the failure of a position-independent file with these program headers is
/// the one that its first faulty stage has. A file that can be planned fails only
/// with an explanation.
pub open spec fn dyn_failure<C: CodeCache, T>(
    buffer: Seq<u8>,
    elf: ElfFileView,
    limits: LoadLimits,
    cache: C,
    r: Result<T>,
) -> bool {
    match dyn_plan(buffer, elf, limits) {
        Err(error) => failed_with(r, stage_message(error.stage)),
        Ok(plan) => r matches Err(text) ==> explained(
            buffer,
            elf,
            limits,
            plan,
            cache,
            text@,
        ),
    }
}

/// How a file fails whose program headers do not lie in the buffer.
pub open spec fn unreadable_stage(buffer: Seq<u8>, elf: ElfFileView, limits: LoadLimits) -> Option<
    LoadStage,
> {
    match admission_fault(dyn_header(elf), dyn_request(elf, limits), buffer.len() as u64) {
        Err(error) => error.stage,
        Ok(_) => Some(LoadStage::Inspect),
    }
}

/// Whether the program headers of a file lie in the buffer.
pub open spec fn dyn_readable(buffer: Seq<u8>, elf: ElfFileView) -> bool {
    table_readable(dyn_header(elf), class_spec(elf.class)->0, buffer.len())
}

/// What a position-independent file gives in allocated mode: the failure of its
/// header, the failure of the first stage that it does not pass, or a load that
/// fails only with an explanation.
pub open spec fn dyn_outcome<C: CodeCache, T>(
    buffer: Seq<u8>,
    elf: ElfFileView,
    limits: LoadLimits,
    cache: C,
    r: Result<T>,
) -> bool {
    if class_spec(elf.class) is None {
        failed_with(r, "Unsupported ELF class"@)
    } else if endian_spec(elf.data) is None {
        failed_with(r, "Unsupported ELF endian"@)
    } else if dyn_readable(buffer, elf) {
        dyn_failure(buffer, elf, limits, cache, r)
    } else {
        failed_with(r, stage_message(unreadable_stage(buffer, elf, limits)))
    }
}

/// Whether instruction fetch sees the code of a mapped image.
pub open spec fn code_visible<C: CodeCache>(cache: C, mapped: MappedView) -> bool {
    seal_spec(mapped) matches Ok(ranges) && all_visible(
        cache,
        executable_spec(ranges, ranges.len() as int),
    )
}

/// Whether a mapper holds a loaded position-independent file whose code
/// instruction fetch sees.
pub open spec fn holds_loaded<C: CodeCache>(
    buffer: Seq<u8>,
    elf: ElfFileView,
    limits: LoadLimits,
    mapper: MemoryMapper,
    cache: C,
) -> bool {
    exists|steps: LoadSteps| #[trigger]
        loaded_by(buffer, elf, limits, mapper, steps) && code_visible(cache, steps.mapped)
}

fn relocate_for<'a>(
    machine: ElfMachine,
    class: ElfClass,
    decoded: DecodedImage<SliceElfReader<'a>, MemoryMapper>,
) -> (r: core::result::Result<RelocatedImage<SliceElfReader<'a>, MemoryMapper>, LoadError>)
    requires
        decoded.transaction.active(),
        machine == decoded.request.profile.machine,
        class == decoded.request.profile.class,
    ensures
        r matches Ok(image) ==> {
            let content = decoded.transaction.memory.image();
            let words = machine_relocations(
                decoded.request,
                decoded.mapped@,
                decoded.relocations@,
                content,
            );
            &&& words is Ok
            &&& image.request == decoded.request
            &&& image.mapped == decoded.mapped
            &&& image.transaction.pending == decoded.transaction.pending
            &&& image.transaction.memory.allocation == decoded.transaction.memory.allocation
            &&& image.transaction.memory.image() == operations_done(
                content,
                words->Ok_0,
                words->Ok_0.len() as int,
                image_target(decoded.request, decoded.mapped@.load_bias).word(),
            )
            &&& decoded.transaction.memory.reliable() ==> image.transaction.memory.reliable()
            &&& image.transaction.memory.source() == decoded.transaction.memory.source()
            &&& image.transaction.memory.image().len() == content.len()
        },
        ready(decoded.transaction.memory) && regions_within(
            decoded.mapped@.regions,
            decoded.transaction.memory.image().len(),
        ) ==> match staged_relocations(
            decoded.request,
            decoded.mapped@,
            decoded.relocations@,
            decoded.transaction.memory.image(),
        ) {
            Ok(_) => r is Ok,
            Err(error) => r matches Err(found) && found == error,
        },
{
    let outcome = match (machine, class) {
        (ElfMachine::Arm, ElfClass::Elf32) => decoded.relocation(ArmRelocator),
        (ElfMachine::Riscv, ElfClass::Elf32) => decoded.relocation(Riscv32Relocator),
        (ElfMachine::Riscv, ElfClass::Elf64) => decoded.relocation(Riscv64Relocator),
        _ => return Err(
            LoadError::new(LoadErrorKind::UnsupportedByProfile, ErrorContext::Nothing),
        ),
    };
    match outcome {
        Ok(image) => Ok(image),
        Err(failed) => Err(failed.error),
    }
}

/// The code of a planned file in an allocation that fits it.
pub open spec fn planned_code(
    elf: ElfFileView,
    limits: LoadLimits,
    plan: PlannedView,
    allocation: ImageAllocation,
) -> Seq<TargetRange> {
    let request = dyn_request(elf, limits);
    let asked = request_spec(plan, ElfType::Dyn)->Ok_0;
    let bias = bias_spec(plan, asked, request.profile.class, allocation)->Ok_0;
    let parts = seal_spec(plan_mapped(plan, request, allocation, bias)->Ok_0)->Ok_0;
    executable_spec(parts, parts.len() as int)
}

/// Whether an image is the plan of this file in memory of its own that was granted for
/// it.
pub open spec fn granted(
    image: AllocatedImage<SliceElfReader<'_>, MemoryMapper>,
    elf: ElfFileView,
    limits: LoadLimits,
) -> bool {
    let plan = image.plan@;
    let allocation = image.transaction.pending->0.allocation;
    &&& class_spec(elf.class) is Some
    &&& endian_spec(elf.data) is Some
    &&& image.plan.request == dyn_request(elf, limits)
    &&& dyn_plan(image.reader.bytes(), elf, limits) == Ok::<PlannedView, LoadError>(plan)
    &&& image.transaction.active()
    &&& image.transaction.memory.mode is Allocated
    &&& image.transaction.memory.allocation == Some(allocation)
    &&& ready(image.transaction.memory)
    &&& suits(elf, plan, allocation, image.transaction.memory.image())
    &&& bias_spec(
        plan,
        request_spec(plan, ElfType::Dyn)->Ok_0,
        class_spec(elf.class)->0,
        allocation,
    ) == Ok::<TargetAddr, LoadError>(image.load_bias)
}

/// Whether a mapper holds a file that was loaded in this allocation, which held these
/// bytes: its image and the addresses that it was linked for, and instruction fetch
/// sees its code.
pub open spec fn loaded_in<C: CodeCache>(
    buffer: Seq<u8>,
    elf: ElfFileView,
    limits: LoadLimits,
    plan: PlannedView,
    allocation: ImageAllocation,
    before: Seq<u8>,
    mapper: MemoryMapper,
    cache: C,
) -> bool {
    exists|steps: LoadSteps|
        {
            &&& #[trigger] loaded_by(buffer, elf, limits, mapper, steps)
            &&& code_visible(cache, steps.mapped)
            &&& steps.plan == plan
            &&& steps.before == before
            &&& steps.mapped.allocation == allocation
            &&& install_spec(Some(allocation), steps.mapped.load_bias, steps.mapped.entry) == Ok::<
                (u64, u64, u64),
                LoadError,
            >(
                (
                    mapper.virtual_start as u64,
                    mapper.virtual_end as u64,
                    mapper.virtual_entry as u64,
                ),
            )
        }
}

/// Loads a file into the memory that was granted for its plan. The first stage that
/// the file does not pass there decides the failure; a file that passes them all is
/// loaded, unless the cache refuses some of its code.
#[verifier::spinoff_prover]
#[verifier::rlimit(100)]
pub fn load_allocated<'a, C: CodeCache>(
    allocated: AllocatedImage<SliceElfReader<'a>, MemoryMapper>,
    elf: &ElfFile,
    limits: &LoadLimits,
    cache: &mut C,
) -> (r: Result<MemoryMapper>)
    requires
        granted(allocated, elf@, *limits),
    ensures
        ({
            let bytes = allocated.reader.bytes();
            let plan = allocated.plan@;
            let allocation = allocated.transaction.pending->0.allocation;
            let before = allocated.transaction.memory.image();
            let fault = load_fault(bytes, elf@, *limits, plan, allocation, before);
            &&& all_accepted(*old(cache), planned_code(elf@, *limits, plan, allocation)) ==> match fault {
                Some(message) => failed_with(r, message),
                None => r is Ok,
            }
            &&& match r {
                Ok(mapper) => {
                    &&& fault is None
                    &&& loaded_in(
                        bytes,
                        elf@,
                        *limits,
                        plan,
                        allocation,
                        before,
                        mapper,
                        *final(cache),
                    )
                    &&& holds_loaded(bytes, elf@, *limits, mapper, *final(cache))
                    &&& exists|entry: usize| #[trigger]
                        is_real_address(
                            mapper,
                            mapper.virtual_entry,
                            Ok::<usize, &'static str>(entry),
                        )
                },
                Err(text) => fault == Some(text@) || uncached(
                    bytes,
                    elf@,
                    *limits,
                    plan,
                    allocation,
                    before,
                    *old(cache),
                    text@,
                ),
            }
        }),
{
    let (_, class, machine) = dynamic_load_profile(elf)?;
    let ghost buffer = allocated.reader.bytes();
    let ghost request = allocated.plan.request;
    let ghost header = dyn_header(elf@);
    let ghost plan = allocated.plan@;
    let ghost before = allocated.transaction.memory.image();
    let ghost allocation = allocated.transaction.pending->0.allocation;
    let ghost asked = request_spec(plan, ElfType::Dyn)->Ok_0;
    let ghost bias = allocated.load_bias;
    let ghost headers = dyn_headers(buffer, elf@, *limits);
    let ghost found = inspect_spec(
        request,
        header.machine,
        headers,
        buffer.len() as u64,
        LoadPolicy::phase0_spec(),
    )->Ok_0;
    let ghost fate = load_fault(buffer, elf@, *limits, plan, allocation, before);
    proof {
        assert(allocated.reader.data.len() == buffer.len());
        assert(before.len() == allocation.len);
        if plan_mapped(plan, request, allocation, bias) is Ok {
            planned_images_fit(
                request,
                header,
                headers,
                buffer.len() as u64,
                LoadPolicy::phase0_spec(),
                found,
                plan,
                asked,
                allocation,
                bias,
                plan_mapped(plan, request, allocation, bias)->Ok_0,
            );
        }
    }
    let mapped = match allocated.map() {
        Ok(mapped) => mapped,
        Err(failed) => {
            assert(fate == Some(stage_message(failed.error.stage)));
            return Err(compatibility_error(failed.error));
        },
    };
    let ghost view = mapped.mapped@;
    proof {
        lemma_image_within(view, allocation.len as nat, buffer.len());
        assert(ready(mapped.transaction.memory));
        assert(in_place(view));
        seal_plans_tile_the_image(view);
        let capabilities = ProtectionCapabilities { granule: 1, max_ranges: usize::MAX };
        if let Ok(granules) = protection_spec(allocation, seal_spec(view)->Ok_0, capabilities) {
            protected_granules_lie_in_memory(view, capabilities, granules);
        }
    }
    let decoded = match mapped.decode() {
        Ok(decoded) => decoded,
        Err(failed) => {
            assert(fate == Some(stage_message(failed.error.stage)));
            return Err(compatibility_error(failed.error));
        },
    };
    let ghost records = decoded.relocations@;
    let ghost copied = decoded.transaction.memory.image();
    let relocated = match relocate_for(machine, class, decoded) {
        Ok(relocated) => relocated,
        Err(error) => {
            assert(fate == Some(stage_message(error.stage)));
            return Err(compatibility_error(error));
        },
    };
    let ghost words = machine_relocations(request, view, records, copied)->Ok_0;
    let cached = match relocated.cache(cache) {
        Ok(cached) => cached,
        Err(failed) => {
            let text = compatibility_error(failed.error);
            assert(uncached(
                buffer,
                elf@,
                *limits,
                plan,
                allocation,
                before,
                *old(cache),
                text@,
            ));
            return Err(text);
        },
    };
    let sealed = match cached.seal() {
        Ok(sealed) => sealed,
        Err(failed) => {
            assert(fate == Some(stage_message(failed.error.stage)));
            return Err(compatibility_error(failed.error));
        },
    };
    let (loaded, load_bias, runtime_entry) = sealed.into_loaded_parts();
    let ghost steps = LoadSteps { found, plan, mapped: view, records, before, words };
    assert(loaded_by(buffer, elf@, *limits, loaded, steps));
    assert(fate == entry_fault(allocation, load_bias, runtime_entry));
    let mut loaded = loaded;
    let ghost image = loaded;
    match loaded.install_loaded_image(load_bias, runtime_entry) {
        Ok(_) => {},
        Err(error) => {
            let text = compatibility_error(error);
            assert(fate == Some(text@));
            return Err(text);
        },
    }
    let entry: usize = match loaded.real_entry() {
        Ok(entry) => entry,
        Err(text) => {
            assert(fate == Some(text@));
            return Err(text);
        },
    };
    proof {
        assert(loaded.image() == image.image());
        assert(loaded_by(buffer, elf@, *limits, loaded, steps));
        assert(holds_loaded(buffer, elf@, *limits, loaded, *cache));
        assert(is_real_address(
            loaded,
            loaded.virtual_entry,
            Ok::<usize, &'static str>(entry),
        ));
    }
    Ok(loaded)
}

/// Plans a file and allocates memory of its own for it.
#[verifier::spinoff_prover]
#[verifier::rlimit(40)]
fn allocate_for<'a, C: CodeCache>(
    buffer: &'a [u8],
    elf: &ElfFile,
    limits: &LoadLimits,
    cache: &C,
) -> (r: Result<AllocatedImage<SliceElfReader<'a>, MemoryMapper>>)
    ensures
        r matches Ok(image) ==> granted(image, elf@, *limits) && image.reader.bytes() == buffer@
            && dyn_readable(buffer@, elf@),
        dyn_outcome(buffer@, elf@, *limits, *cache, r),
{
    let (profile, class, machine) = dynamic_load_profile(elf)?;
    let request = LoadRequest::new(profile, *limits);
    let header = ElfHeaderInfo {
        class,
        endian: profile.endian(),
        machine,
        entry: elf.entry,
        program_header_offset: elf.program_header_offset,
        program_header_entry_size: elf.program_header_entry_size,
        program_header_count: elf.program_header_count,
    };
    let admitted = match admit_image(SliceElfReader::new(buffer), header, request) {
        Ok(admitted) => admitted,
        Err(error) => return Err(compatibility_error(error)),
    };
    let inspected = match admitted.inspect() {
        Ok(inspected) => inspected,
        Err(error) => return Err(compatibility_error(error)),
    };
    let planned = match inspected.plan() {
        Ok(planned) => planned,
        Err(error) => return Err(compatibility_error(error)),
    };
    assert(dyn_readable(buffer@, elf@));
    match planned.allocate(MemoryMapper::new(None)) {
        Ok(allocated) => Ok(allocated),
        Err(failed) => Err(compatibility_error(failed.error)),
    }
}

/// Loads a position-independent file. The mapper is replaced only by a complete
/// load.
///
/// Whether the allocator grants the memory of the image is not stated; what follows a
/// grant is what [`load_allocated`] does.
#[verifier::spinoff_prover]
#[verifier::rlimit(40)]
pub fn load_dyn_elf<C: CodeCache>(
    buffer: &[u8],
    elf: &ElfFile,
    mapper: &mut MemoryMapper,
    cache: &mut C,
) -> (r: Result<()>)
    ensures
        old(mapper).mode is Fixed ==> failed_with(r, "ET_DYN requires Allocated mapping mode"@),
        old(mapper).mode is Allocated ==> dyn_outcome(
            buffer@,
            elf@,
            default_load_limits(),
            *old(cache),
            r,
        ),
        r is Err ==> *final(mapper) == *old(mapper),
        r is Ok ==> holds_loaded(
            buffer@,
            elf@,
            default_load_limits(),
            *final(mapper),
            *final(cache),
        ),
        r is Ok ==> exists|entry: usize|
            #[trigger] is_real_address(
                *final(mapper),
                final(mapper).virtual_entry,
                Ok::<usize, &'static str>(entry),
            ),
{
    if !mapper.can_load_dynamic_image() {
        return Err("ET_DYN requires Allocated mapping mode");
    }
    let limits = LoadLimits::default_limits();
    let allocated = allocate_for(buffer, elf, &limits, cache)?;
    let ghost plan = allocated.plan@;
    let ghost allocation = allocated.transaction.pending->0.allocation;
    let ghost before = allocated.transaction.memory.image();
    match load_allocated(allocated, elf, &limits, cache) {
        Ok(loaded) => {
            *mapper = loaded;
            Ok(())
        },
        Err(text) => {
            assert(suits(elf@, plan, allocation, before));
            assert(load_fault(buffer@, elf@, limits, plan, allocation, before) == Some(text@)
                || uncached(
                buffer@,
                elf@,
                limits,
                plan,
                allocation,
                before,
                *old(cache),
                text@,
            ));
            Err(text)
        },
    }
}

/// Loads a parsed file by its type.
pub fn load_parsed<C: CodeCache>(
    buffer: &[u8],
    elf: &ElfFile,
    mapper: &mut MemoryMapper,
    cache: &mut C,
) -> (r: Result<()>)
    ensures
        elf.elf_type != ET_DYN && elf.elf_type != ET_EXEC ==> failed_with(
            r,
            "Unsupported ELF type"@,
        ) && *final(mapper) == *old(mapper),
        elf.elf_type == ET_DYN ==> {
            &&& r is Err ==> *final(mapper) == *old(mapper)
            &&& r is Ok ==> old(mapper).mode is Allocated && holds_loaded(
                buffer@,
                elf@,
                default_load_limits(),
                *final(mapper),
                *final(cache),
            )
            &&& old(mapper).mode is Fixed ==> failed_with(
                r,
                "ET_DYN requires Allocated mapping mode"@,
            )
            &&& old(mapper).mode is Allocated ==> dyn_outcome(
            buffer@,
            elf@,
            default_load_limits(),
            *old(cache),
            r,
        )
        },
        elf.elf_type == ET_EXEC ==> exec_loaded(
            buffer@,
            elf@,
            *old(mapper),
            *final(mapper),
            r,
        ),
{
    if elf.elf_type == ET_DYN {
        load_dyn_elf(buffer, elf, mapper, cache)
    } else if elf.elf_type == ET_EXEC {
        load_exec_elf(buffer, elf, mapper)
    } else {
        Err("Unsupported ELF type")
    }
}

/// Loads an ELF file from a buffer.
pub fn load_elf<C: CodeCache>(buffer: &[u8], mapper: &mut MemoryMapper, cache: &mut C) -> (r: Result<
    (),
>)
    ensures
        match elf_contents(buffer@) {
            None => failed_with(r, "Unable to parse the buffer"@) && *final(mapper) == *old(mapper),
            Some(elf) => {
                &&& described(buffer@, elf)
                &&& elf.elf_type != ET_DYN && elf.elf_type != ET_EXEC ==> failed_with(
                    r,
                    "Unsupported ELF type"@,
                ) && *final(mapper) == *old(mapper)
                &&& elf.elf_type == ET_DYN && r is Ok ==> holds_loaded(
                    buffer@,
                    elf,
                    default_load_limits(),
                    *final(mapper),
                    *final(cache),
                )
                &&& elf.elf_type == ET_DYN && r is Err ==> *final(mapper) == *old(mapper)
                &&& elf.elf_type == ET_DYN && old(mapper).mode is Fixed ==> failed_with(
                    r,
                    "ET_DYN requires Allocated mapping mode"@,
                )
                &&& elf.elf_type == ET_DYN && old(mapper).mode is Allocated ==> dyn_outcome(
                    buffer@,
                    elf,
                    default_load_limits(),
                    *old(cache),
                    r,
                )
                &&& elf.elf_type == ET_EXEC ==> exec_loaded(
                    buffer@,
                    elf,
                    *old(mapper),
                    *final(mapper),
                    r,
                )
            },
        },
{
    match read_elf(buffer) {
        Some(elf) => load_parsed(buffer, &elf, mapper, cache),
        None => Err("Unable to parse the buffer"),
    }
}

/// The facts of a load that its laws rest on: the image fits its memory and its
/// file, and its relocated words lie in memory.
proof fn lemma_loaded_by(
    buffer: Seq<u8>,
    elf: ElfFileView,
    limits: LoadLimits,
    mapper: MemoryMapper,
    steps: LoadSteps,
)
    requires
        loaded_by(buffer, elf, limits, mapper, steps),
        buffer.len() <= u64::MAX,
        loaded_content(steps.before, steps.mapped, buffer).len() == steps.before.len(),
    ensures
        words_within(
            steps.words,
            image_target(dyn_request(elf, limits), steps.mapped.load_bias).word(),
            steps.before.len(),
        ),
{
    let request = dyn_request(elf, limits);
    let mapped = steps.mapped;
    let target = image_target(request, mapped.load_bias);
    let copied = loaded_content(steps.before, mapped, buffer);
    lemma_steps_fit(buffer, elf, limits, mapper, steps);
    lemma_image_within(mapped, mapped.allocation.len as nat, buffer.len());
    match (request.profile.machine, request.profile.class) {
        (ElfMachine::Arm, ElfClass::Elf32) => {
            lemma_plan_within(
                steps.records,
                ArmRelocator,
                target,
                mapped.regions,
                copied,
                steps.words,
            );
        },
        (ElfMachine::Riscv, ElfClass::Elf32) => {
            lemma_plan_within(
                steps.records,
                Riscv32Relocator,
                target,
                mapped.regions,
                copied,
                steps.words,
            );
        },
        (ElfMachine::Riscv, ElfClass::Elf64) => {
            lemma_plan_within(
                steps.records,
                Riscv64Relocator,
                target,
                mapped.regions,
                copied,
                steps.words,
            );
        },
        _ => {},
    }
}

proof fn lemma_steps_fit(
    buffer: Seq<u8>,
    elf: ElfFileView,
    limits: LoadLimits,
    mapper: MemoryMapper,
    steps: LoadSteps,
)
    requires
        loaded_by(buffer, elf, limits, mapper, steps),
        buffer.len() <= u64::MAX,
    ensures
        image_fits(steps.mapped, steps.mapped.allocation.len as nat, buffer.len()),
        regions_within(steps.mapped.regions, steps.mapped.image_span as nat),
        all_apart(steps.mapped),
{
    planned_images_fit(
        dyn_request(elf, limits),
        dyn_header(elf),
        dyn_headers(buffer, elf, limits),
        buffer.len() as u64,
        LoadPolicy::phase0_spec(),
        steps.found,
        steps.plan,
        request_spec(steps.plan, ElfType::Dyn)->Ok_0,
        steps.mapped.allocation,
        steps.mapped.load_bias,
        steps.mapped,
    );
}

/// A loaded file is in memory: every byte of a segment that no relocated word covers
/// is the byte of the file, or zero where the file has none.
pub proof fn loaded_files_are_in_memory(
    buffer: Seq<u8>,
    elf: ElfFileView,
    limits: LoadLimits,
    mapper: MemoryMapper,
    steps: LoadSteps,
    i: int,
    offset: int,
)
    requires
        loaded_by(buffer, elf, limits, mapper, steps),
        buffer.len() <= u64::MAX,
        0 <= i < steps.mapped.regions.len(),
        in_region(steps.mapped.regions[i], offset),
        !relocated_at(
            steps.words,
            image_target(dyn_request(elf, limits), steps.mapped.load_bias).word(),
            offset,
        ),
    ensures
        mapper.image()[offset] == region_byte(steps.mapped.regions[i], buffer, offset),
{
    let mapped = steps.mapped;
    let word = image_target(dyn_request(elf, limits), mapped.load_bias).word();
    let copied = loaded_content(steps.before, mapped, buffer);
    lemma_steps_fit(buffer, elf, limits, mapper, steps);
    loading_fills_every_region(steps.before, mapped, buffer);
    lemma_loaded_by(buffer, elf, limits, mapper, steps);
    assert(region_fits(mapped.regions[i], copied.len(), buffer.len()));
    lemma_region_byte(copied, mapped.regions[i], buffer, offset);
    relocation_touches_only_its_words(copied, steps.words, word, offset);
}

/// A loaded file is relocated: the word at the place of every relocation is the load
/// bias plus the addend of the relocation. `relocator` is the one of the file's machine and class.
pub proof fn loaded_files_are_relocated<A: ArchRelocator>(
    buffer: Seq<u8>,
    elf: ElfFileView,
    limits: LoadLimits,
    mapper: MemoryMapper,
    steps: LoadSteps,
    relocator: A,
    i: int,
)
    requires
        loaded_by(buffer, elf, limits, mapper, steps),
        buffer.len() <= u64::MAX,
        relocation_plan(
            steps.records,
            relocator,
            image_target(dyn_request(elf, limits), steps.mapped.load_bias),
            steps.mapped.regions,
            loaded_content(steps.before, steps.mapped, buffer),
        ) == Ok::<Seq<RelocationOperation>, LoadError>(steps.words),
        0 <= i < steps.records.len(),
    ensures
        ({
            let word = image_target(dyn_request(elf, limits), steps.mapped.load_bias).word();
            let place = place_spec(steps.records[i], word, steps.mapped.regions);
            let addend = addend_spec(
                steps.records[i],
                relocator,
                word,
                steps.mapped.regions,
                loaded_content(steps.before, steps.mapped, buffer),
            );
            &&& place is Ok
            &&& addend is Ok
            &&& word.held(mapper.image(), place->Ok_0) == steps.mapped.load_bias.0 + addend->Ok_0
        }),
{
    lemma_steps_fit(buffer, elf, limits, mapper, steps);
    loading_fills_every_region(steps.before, steps.mapped, buffer);
    lemma_loaded_by(buffer, elf, limits, mapper, steps);
    relocation_adds_the_load_bias(
        steps.records,
        relocator,
        image_target(dyn_request(elf, limits), steps.mapped.load_bias),
        steps.mapped.regions,
        loaded_content(steps.before, steps.mapped, buffer),
        steps.words,
        i,
    );
}

/// A program with fixed addresses is written only where it is authorized to be:
/// every write, also of a copy that stopped halfway, lies in a region that allows it.
pub proof fn programs_write_only_where_they_may(
    regions: Seq<MemoryRegion>,
    mode: MappingMode,
    headers: Seq<ProgramHeaderFields>,
    k: int,
    buffer: Seq<u8>,
    i: int,
)
    requires
        mode matches MappingMode::Fixed(allowed) && allowed@ == regions,
        0 <= k <= headers.len(),
        buffer.len() <= usize::MAX,
        uncopied_from(mode, headers, 0, buffer.len()) matches Some(stop) ==> k <= stop,
        0 <= i < segment_writes(headers, k, buffer).len(),
    ensures
        ({
            let write = segment_writes(headers, k, buffer)[i];
            authorized(
                regions,
                write.0 as usize,
                write.1.len() as usize,
                MemoryPermissions::spec_write(),
            )
        }),
    decreases k,
{
    if k > 0 {
        let before = segment_writes(headers, k - 1, buffer);
        lemma_copied(mode, headers, 0, k - 1, buffer.len());
        if i < before.len() {
            programs_write_only_where_they_may(regions, mode, headers, k - 1, buffer, i);
        }
    }
}

/// What comes before the first segment that cannot be copied can be copied.
proof fn lemma_copied(
    mode: MappingMode,
    headers: Seq<ProgramHeaderFields>,
    from: int,
    at: int,
    buffer_len: nat,
)
    requires
        0 <= from <= at < headers.len(),
        uncopied_from(mode, headers, from, buffer_len) matches Some(stop) ==> at < stop,
    ensures
        copy_fault(mode, headers[at], buffer_len) is None,
    decreases at - from,
{
    if from < at {
        lemma_copied(mode, headers, from + 1, at, buffer_len);
    }
}

proof fn lemma_loaded_header(
    buffer: Seq<u8>,
    elf: ElfFileView,
    limits: LoadLimits,
    mapper: MemoryMapper,
    steps: LoadSteps,
    h: int,
) -> (k: int)
    requires
        loaded_by(buffer, elf, limits, mapper, steps),
        buffer.len() <= u64::MAX,
        0 <= h < elf.program_header_count,
        dyn_headers(buffer, elf, limits)[h].program_type == 1,
        dyn_headers(buffer, elf, limits)[h].memory_size > 0,
    ensures
        0 <= k < steps.mapped.regions.len(),
        ({
            let header = dyn_headers(buffer, elf, limits)[h];
            let region = steps.mapped.regions[k];
            &&& region.vaddr_range.start.0 == header.vaddr
            &&& region.vaddr_range.len == header.memory_size
            &&& region.file_range.offset == header.file_offset
            &&& region.file_range.len == header.file_size
            &&& header.file_size <= header.memory_size
            &&& region.allocation_offset + steps.mapped.allocation.base.0
                == steps.mapped.load_bias.0 + header.vaddr
        }),
{
    let request = dyn_request(elf, limits);
    let headers = dyn_headers(buffer, elf, limits);
    inspected_segments_are_loadable_headers(
        request,
        dyn_header(elf).machine,
        headers,
        buffer.len() as u64,
        LoadPolicy::phase0_spec(),
        steps.found,
    );
    let s = choose|s: int|
        0 <= s < steps.found.load_segments.len() && (
        #[trigger] steps.found.load_segments[s]).index == h;
    let segment = steps.found.load_segments[s];
    plans_keep_their_segments(request, dyn_header(elf), steps.found, steps.plan);
    assert(steps.plan.found.load_segments.contains(steps.found.load_segments[s]));
    planned_segments_are_mapped(
        steps.plan,
        request,
        steps.mapped.allocation,
        steps.mapped.load_bias,
        steps.mapped,
        segment,
    )
}

/// A loaded file has its segments in memory. Byte `j` of a loadable program header (one of
/// type 1) stands at the load bias plus its address. It is the byte of the file at the
/// offset that the header gives, or zero behind the bytes that the file has, unless a
/// relocated word covers it.
pub proof fn loaded_files_have_their_segments_in_memory(
    buffer: Seq<u8>,
    elf: ElfFileView,
    limits: LoadLimits,
    mapper: MemoryMapper,
    steps: LoadSteps,
    h: int,
    j: int,
)
    requires
        loaded_by(buffer, elf, limits, mapper, steps),
        buffer.len() <= u64::MAX,
        0 <= h < elf.program_header_count,
        dyn_headers(buffer, elf, limits)[h].program_type == 1,
        0 <= j < dyn_headers(buffer, elf, limits)[h].memory_size,
        steps.mapped.allocation.base.0 + steps.mapped.allocation.len <= u64::MAX,
    ensures
        ({
            let header = dyn_headers(buffer, elf, limits)[h];
            let at = steps.mapped.load_bias.0 + header.vaddr + j - steps.mapped.allocation.base.0;
            &&& 0 <= at < mapper.image().len()
            &&& header.file_size <= header.memory_size
            &&& {
                ||| mapper.image()[at] == if j < header.file_size {
                    buffer[header.file_offset + j]
                } else {
                    0
                }
                ||| relocated_at(
                    steps.words,
                    image_target(dyn_request(elf, limits), steps.mapped.load_bias).word(),
                    at,
                )
            }
        }),
{
    let header = dyn_headers(buffer, elf, limits)[h];
    let k = lemma_loaded_header(buffer, elf, limits, mapper, steps, h);
    let region = steps.mapped.regions[k];
    let at = steps.mapped.load_bias.0 + header.vaddr + j - steps.mapped.allocation.base.0;
    let word = image_target(dyn_request(elf, limits), steps.mapped.load_bias).word();
    assert(at == region.allocation_offset + j);
    assert(in_region(region, at));
    lemma_steps_fit(buffer, elf, limits, mapper, steps);
    loading_fills_every_region(steps.before, steps.mapped, buffer);
    lemma_loaded_by(buffer, elf, limits, mapper, steps);
    let copied = loaded_content(steps.before, steps.mapped, buffer);
    lemma_operations_keep_length(copied, steps.words, steps.words.len() as int, word);
    assert(region_fits(region, copied.len(), buffer.len()));
    if !relocated_at(steps.words, word, at) {
        loaded_files_are_in_memory(buffer, elf, limits, mapper, steps, k, at);
    }
}

/// A loaded file is relocated by its machine: every record is of type 23 in a 32-bit Arm
/// file and of type 3 in a RISC-V file, and names no symbol. The word of the record, of
/// four bytes in a 32-bit file and eight in a 64-bit one, is the load bias plus the word
/// that the segment had there, in an Arm file, or plus the addend of the record, in a
/// RISC-V file.
pub proof fn loaded_words_are_biased(
    buffer: Seq<u8>,
    elf: ElfFileView,
    limits: LoadLimits,
    mapper: MemoryMapper,
    steps: LoadSteps,
    i: int,
)
    requires
        loaded_by(buffer, elf, limits, mapper, steps),
        buffer.len() <= u64::MAX,
        elf.class == 1 || elf.class == 2,
        0 <= i < steps.records.len(),
    ensures
        ({
            let request = dyn_request(elf, limits);
            let record = steps.records[i];
            let before = loaded_content(steps.before, steps.mapped, buffer);
            let regions = steps.mapped.regions;
            let endian = request.profile.endian;
            let width = if request.profile.class is Elf32 {
                4int
            } else {
                8int
            };
            &&& elf.machine == 40 && elf.class == 1 ==> record.raw_type == 23 && record.addend
                is Implicit
            &&& elf.machine == 243 ==> record.raw_type == 3 && record.addend is Explicit
            &&& (elf.machine == 40 && elf.class == 1) || elf.machine == 243
            &&& record.symbol_index == 0
            &&& exists|k: int|
                0 <= k < regions.len() && {
                    let start = (#[trigger] regions[k]).vaddr_range.start.0;
                    let at = regions[k].allocation_offset + (record.offset.0 - start);
                    &&& start <= record.offset.0
                    &&& record.offset.0 + width <= start + regions[k].vaddr_range.len
                    &&& word_at(mapper.image(), at, width, endian) == steps.mapped.load_bias.0 + (
                    match record.addend {
                        RelocationAddend::Explicit(value) => value as int,
                        RelocationAddend::Implicit => word_at(before, at, width, endian) as int,
                    })
                }
        }),
{
    let request = dyn_request(elf, limits);
    let target = image_target(request, steps.mapped.load_bias);
    let before = loaded_content(steps.before, steps.mapped, buffer);
    lemma_steps_fit(buffer, elf, limits, mapper, steps);
    loading_fills_every_region(steps.before, steps.mapped, buffer);
    lemma_image_within(steps.mapped, steps.mapped.allocation.len as nat, buffer.len());
    match (request.profile.machine, request.profile.class) {
        (ElfMachine::Arm, ElfClass::Elf32) => {
            relocated_words_are_biased(
                steps.records,
                ArmRelocator,
                target,
                steps.mapped.regions,
                before,
                steps.words,
                i,
            );
        },
        (ElfMachine::Riscv, ElfClass::Elf32) => {
            relocated_words_are_biased(
                steps.records,
                Riscv32Relocator,
                target,
                steps.mapped.regions,
                before,
                steps.words,
                i,
            );
        },
        (ElfMachine::Riscv, ElfClass::Elf64) => {
            relocated_words_are_biased(
                steps.records,
                Riscv64Relocator,
                target,
                steps.mapped.regions,
                before,
                steps.words,
                i,
            );
        },
        _ => {},
    }
}

/// A loaded file is entered at its entry: the mapper has the entry of the file, with its
/// mode bit if it has one, and the machine address of the entry is the load bias plus
/// it. The mapper starts at the load bias before its memory.
pub proof fn loaded_files_are_entered_at_their_entry<C: CodeCache>(
    buffer: Seq<u8>,
    elf: ElfFileView,
    limits: LoadLimits,
    plan: PlannedView,
    allocation: ImageAllocation,
    before: Seq<u8>,
    mapper: MemoryMapper,
    cache: C,
    address: usize,
) -> (load_bias: int)
    requires
        loaded_in(buffer, elf, limits, plan, allocation, before, mapper, cache),
        is_real_address(mapper, mapper.virtual_entry, Ok::<usize, &'static str>(address)),
    ensures
        mapper.virtual_entry == elf.entry,
        mapper.virtual_start + load_bias == allocation.base.0,
        mapper.virtual_end == mapper.virtual_start + allocation.len,
        load_bias + plan.aligned_min_vaddr.0 == allocation.base.0,
        address == load_bias + elf.entry,
{
    let steps = choose|steps: LoadSteps|
        {
            &&& #[trigger] loaded_by(buffer, elf, limits, mapper, steps)
            &&& code_visible(cache, steps.mapped)
            &&& steps.plan == plan
            &&& steps.before == before
            &&& steps.mapped.allocation == allocation
            &&& install_spec(Some(allocation), steps.mapped.load_bias, steps.mapped.entry) == Ok::<
                (u64, u64, u64),
                LoadError,
            >(
                (
                    mapper.virtual_start as u64,
                    mapper.virtual_end as u64,
                    mapper.virtual_entry as u64,
                ),
            )
        };
    plans_keep_their_segments(
        dyn_request(elf, limits),
        dyn_header(elf),
        steps.found,
        steps.plan,
    );
    mapping_adds_the_load_bias(
        artifact_request_spec(dyn_request(elf, limits)),
        steps.plan.found.dynamic,
        plan_layout_spec(steps.plan),
        allocation,
        steps.mapped.load_bias,
        steps.mapped,
    );
    steps.mapped.load_bias.0 as int
}

/// The writes of a program with fixed addresses are its loadable program headers (those
/// of type 1) in their order: each puts the bytes that the file has for the header at the
/// address that the header gives.
pub proof fn programs_are_written_to_their_addresses(
    headers: Seq<ProgramHeaderFields>,
    k: int,
    buffer: Seq<u8>,
) -> (places: Seq<int>)
    requires
        0 <= k <= headers.len(),
        forall|h: int|
            0 <= h < k && (#[trigger] headers[h]).program_type == 1 ==> headers[h].file_offset
                + headers[h].file_size <= buffer.len() <= usize::MAX && headers[h].vaddr
                <= usize::MAX,
    ensures
        are_places(places, k, |h: int| headers[h].program_type == 1),
        segment_writes(headers, k, buffer).len() == places.len(),
        forall|i: int|
            0 <= i < places.len() ==> {
                let write = segment_writes(headers, k, buffer)[i];
                let header = headers[#[trigger] places[i]];
                &&& write.0 == header.vaddr
                &&& write.1.len() == header.file_size
                &&& forall|j: int|
                    0 <= j < header.file_size ==> #[trigger] write.1[j] == buffer[header.file_offset
                        + j]
            },
    decreases k,
{
    let wanted = |h: int| headers[h].program_type == 1;
    if k <= 0 {
        Seq::empty()
    } else {
        let before = programs_are_written_to_their_addresses(headers, k - 1, buffer);
        assert(headers[k - 1].program_type == 1 ==> headers[k - 1].file_offset + headers[k
            - 1].file_size <= usize::MAX);
        lemma_next_place(before, k - 1, wanted)
    }
}

proof fn lemma_bounds(headers: Seq<ProgramHeaderFields>, k: int, start: usize, end: usize, h: int)
    requires
        0 <= h < k <= headers.len(),
        headers[h].program_type == 1,
    ensures
        lowest(headers, k, start) <= headers[h].vaddr as usize,
        highest(headers, k, end) >= (headers[h].vaddr + headers[h].memory_size) as u64 as usize,
    decreases k,
{
    if h < k - 1 {
        lemma_bounds(headers, k - 1, start, end, h);
    }
}

proof fn lemma_bounds_taken(headers: Seq<ProgramHeaderFields>, k: int, start: usize, end: usize)
    requires
        0 <= k <= headers.len(),
    ensures
        lowest(headers, k, start) <= start,
        highest(headers, k, end) >= end,
        lowest(headers, k, start) == start || exists|h: int|
            0 <= h < k && (#[trigger] headers[h]).program_type == 1 && lowest(headers, k, start)
                == headers[h].vaddr as usize,
        highest(headers, k, end) == end || exists|h: int|
            0 <= h < k && (#[trigger] headers[h]).program_type == 1 && highest(headers, k, end) == (
            headers[h].vaddr + headers[h].memory_size) as u64 as usize,
    decreases k,
{
    if k > 0 {
        lemma_bounds_taken(headers, k - 1, start, end);
    }
}

/// A mapper takes over the bounds of a program: no loadable program header (one of type 1)
/// begins before its start or ends behind its end, and each bound is that of some header
/// or the one that the mapper had.
pub proof fn mappers_enclose_their_program(
    mapper: MemoryMapper,
    headers: Seq<ProgramHeaderFields>,
    k: int,
)
    requires
        0 <= k <= headers.len(),
        forall|h: int|
            0 <= h < k && (#[trigger] headers[h]).program_type == 1 ==> headers[h].vaddr
                + headers[h].memory_size <= usize::MAX,
    ensures
        ({
            let after = laid_out(mapper, headers, k);
            &&& after.virtual_start <= mapper.virtual_start
            &&& after.virtual_end >= mapper.virtual_end
            &&& forall|h: int|
                0 <= h < k && (#[trigger] headers[h]).program_type == 1 ==> after.virtual_start
                    <= headers[h].vaddr && headers[h].vaddr + headers[h].memory_size
                    <= after.virtual_end
            &&& after.virtual_start == mapper.virtual_start || exists|h: int|
                0 <= h < k && (#[trigger] headers[h]).program_type == 1 && after.virtual_start
                    == headers[h].vaddr
            &&& after.virtual_end == mapper.virtual_end || exists|h: int|
                0 <= h < k && (#[trigger] headers[h]).program_type == 1 && after.virtual_end
                    == headers[h].vaddr + headers[h].memory_size
        }),
{
    lemma_bounds_taken(headers, k, mapper.virtual_start, mapper.virtual_end);
    assert forall|h: int| 0 <= h < k && (#[trigger] headers[h]).program_type == 1 implies lowest(
        headers,
        k,
        mapper.virtual_start,
    ) <= headers[h].vaddr && headers[h].vaddr + headers[h].memory_size <= highest(
        headers,
        k,
        mapper.virtual_end,
    ) by {
        lemma_bounds(headers, k, mapper.virtual_start, mapper.virtual_end, h);
    }
}

/// A parsed file is admitted exactly if its header has the numbers of the profile: those of the
/// class, the byte order, the machine and the type. The header is then the one of the file.
pub proof fn files_are_admitted_by_their_numbers(elf: ElfFileView, profile: LoadProfile)
    requires
        profile.machine matches ElfMachine::Other(other) ==> other != 40 && other != 183 && other
            != 243,
        profile.elf_type matches ElfType::Other(other) ==> other != 2 && other != 3,
    ensures
        admitted_header(Some(elf), profile) is Ok <==> {
            &&& elf.class == if profile.class is Elf32 {
                1u8
            } else {
                2u8
            }
            &&& elf.data == if profile.endian is Little {
                1u8
            } else {
                2u8
            }
            &&& elf.machine == match profile.machine {
                ElfMachine::Arm => 40u16,
                ElfMachine::Aarch64 => 183u16,
                ElfMachine::Riscv => 243u16,
                ElfMachine::Other(other) => other,
            }
            &&& elf.elf_type == match profile.elf_type {
                ElfType::Exec => 2u16,
                ElfType::Dyn => 3u16,
                ElfType::Other(other) => other,
            }
        },
        admitted_header(Some(elf), profile) matches Ok(header) ==> {
            &&& header.class == profile.class
            &&& header.endian == profile.endian
            &&& header.machine == profile.machine
            &&& header.entry == elf.entry
            &&& header.program_header_offset == elf.program_header_offset
            &&& header.program_header_entry_size == elf.program_header_entry_size
            &&& header.program_header_count == elf.program_header_count
        },
        admitted_header(None, profile) is Err,
{
}

} // verus!
