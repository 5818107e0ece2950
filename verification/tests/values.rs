//! Addresses, permissions, words and quotas.

use blueos_loader::address::{FileRange, TargetAddr, TargetRange};
use blueos_loader::arith::is_power_of_two;
use blueos_loader::bytes::{bytes_precede, read_u16, read_u32, read_u64, write_word};
use blueos_loader::cache::{cache_lines, line_sizes, synchronize_all, CodeCache};
use blueos_loader::corpus::{decode_hex_corpus, hex_digit};
use blueos_loader::elf::{
    self, classify_tag, permissions_from_flags, DynamicTagClass, ProgramHeaderFields, DT_FLAGS, DT_RELA,
};
use blueos_loader::error::{ErrorContext, LimitKind, LoadError, LoadErrorKind, LoadResult, LoadStage};
use blueos_loader::identity::{
    ElfClass, ElfData, ElfMachine, ElfType, EntryMode, LoadLimits, LoadPolicy, LoadProfile,
    SessionLimits,
};
use blueos_loader::limits::LoadLimits as ArtifactLimits;
use blueos_loader::permissions::MemoryPermissions;
use blueos_loader::sort::sort_by_rank;
use goblin::elf::{dynamic, header, program_header, reloc};

fn range(start: u64, len: u64) -> TargetRange {
    TargetRange::new(TargetAddr::new(start), len)
}

#[test]
fn addresses_do_not_wrap() {
    let top = TargetAddr::new(u64::MAX);
    assert_eq!(top.checked_add(0), Ok(top));
    assert_eq!(top.checked_add(1).unwrap_err().kind(), LoadErrorKind::IntegerOverflow);
    assert_eq!(TargetAddr::new(0x30).checked_sub(TargetAddr::new(0x10)), Ok(0x20));
    assert!(TargetAddr::new(0x10).checked_sub(TargetAddr::new(0x30)).is_err());
}

#[test]
fn addresses_are_aligned_to_powers_of_two() {
    let address = TargetAddr::new(0x1234);
    assert_eq!(address.align_down(0x1000), Ok(TargetAddr::new(0x1000)));
    assert_eq!(address.align_up(0x1000), Ok(TargetAddr::new(0x2000)));
    assert_eq!(TargetAddr::new(0x2000).align_up(0x1000), Ok(TargetAddr::new(0x2000)));
    assert_eq!(
        address.align_up(0x1001).unwrap_err().kind(),
        LoadErrorKind::InvalidAlignment
    );
    assert!(address.align_down(0).is_err());
    assert!(TargetAddr::new(u64::MAX).align_up(2).is_err());
    assert!(is_power_of_two(1) && is_power_of_two(1 << 63));
    assert!(!is_power_of_two(0) && !is_power_of_two(12));
}

#[test]
fn ranges_hold_spans_and_meet() {
    let code = range(0x1000, 0x100);
    assert_eq!(code.end(), Ok(TargetAddr::new(0x1100)));
    assert!(code.contains_span(TargetAddr::new(0x10fc), 4));
    assert!(!code.contains_span(TargetAddr::new(0x10fd), 4));
    assert!(!code.contains_span(TargetAddr::new(0xfff), 1));
    assert!(code.overlaps(range(0x10ff, 1)));
    assert!(!code.overlaps(range(0x1100, 0x10)));
    assert!(range(u64::MAX, 1).end().is_err());
    let file = FileRange::new(8, 8);
    assert_eq!(file.end(), Ok(16));
    assert!(file.validate(16).is_ok());
    assert_eq!(file.validate(15).unwrap_err().kind(), LoadErrorKind::OutOfBounds);
}

#[test]
fn permissions_are_sets() {
    let read = MemoryPermissions::read();
    let both = read.bitor(MemoryPermissions::write());
    assert!(both.contains(read));
    assert!(!read.contains(both));
    assert_eq!(both.without(MemoryPermissions::write()), read);
    assert!(read.contains(MemoryPermissions::none()));
    assert_eq!(
        permissions_from_flags(5),
        read.bitor(MemoryPermissions::execute())
    );
}

#[test]
fn words_are_read_in_their_order() {
    let bytes = [0x11, 0x22, 0x33, 0x44, 0x55, 0x66, 0x77, 0x88];
    assert_eq!(read_u16(&bytes, 0, ElfData::Little), Ok(0x2211));
    assert_eq!(read_u16(&bytes, 0, ElfData::Big), Ok(0x1122));
    assert_eq!(read_u32(&bytes, 2, ElfData::Little), Ok(0x6655_4433));
    assert_eq!(read_u64(&bytes, 0, ElfData::Big), Ok(0x1122_3344_5566_7788));
    assert!(read_u32(&bytes, 5, ElfData::Little).is_err());
    assert!(read_u64(&bytes, 1, ElfData::Little).is_err());
    let written = write_word(0x1234_5678, 4, ElfData::Big);
    assert_eq!(written, vec![0x12, 0x34, 0x56, 0x78]);
    assert_eq!(read_u32(&written, 0, ElfData::Big), Ok(0x1234_5678));
}

#[test]
fn byte_strings_are_ordered() {
    assert!(bytes_precede(b"liba", b"libb"));
    assert!(bytes_precede(b"lib", b"liba"));
    assert!(!bytes_precede(b"libb", b"liba"));
    assert!(!bytes_precede(b"lib", b"lib"));
}

#[test]
fn sorting_is_stable_in_rank() {
    assert_eq!(sort_by_rank(&vec![5u32, 1, 4, 1]), vec![1, 1, 4, 5]);
    assert_eq!(sort_by_rank(&Vec::<u32>::new()), Vec::<u32>::new());
}

#[test]
fn quotas_name_what_they_limit() {
    let limits = LoadLimits::new(10, 2, 1, 100, 16, 3, 4, 50, 60);
    assert!(limits.check_file_len(10).is_ok());
    let error = limits.check_file_len(11).unwrap_err();
    assert_eq!(error.kind(), LoadErrorKind::ResourceLimit);
    assert_eq!(
        *error.context(),
        ErrorContext::Limit { resource: LimitKind::FileLength, actual: 11, maximum: 10 }
    );
    assert!(limits.check_program_header_count(3).is_err());
    assert!(limits.check_load_segment_count(2).is_err());
    assert!(limits.check_image_span(101).is_err());
    assert!(limits.check_segment_alignment(32).is_err());
    assert!(limits.check_dynamic_entry_count(4).is_err());
    assert!(limits.check_relocation_count(5).is_err());
    assert!(limits.check_runtime_metadata_bytes(51).is_err());
    assert!(limits.check_relocation_operation_bytes(61).is_err());
    assert!(LoadLimits::default_limits().check_file_len(64 * 1024 * 1024).is_ok());
    assert!(LoadLimits::default_limits().check_file_len(64 * 1024 * 1024 + 1).is_err());
    let session = SessionLimits::new(2, 3, 4, 5, limits);
    assert!(session.check_image_count(2).is_ok() && session.check_image_count(3).is_err());
    assert!(session.check_dependency_edge_count(4).is_err());
    assert!(session.check_dependency_depth(5).is_err());
    assert!(session.check_dependency_name_len(6).is_err());
}

#[test]
fn artifact_quotas_can_be_set_one_by_one() {
    let limits = ArtifactLimits::new(10, 2)
        .with_image_limits(1, 100)
        .with_layout_limits(16, 30)
        .with_runtime_limits(3, 4)
        .with_runtime_memory_limits(50, 60);
    assert!(limits.check_file_len(11).is_err());
    assert!(limits.check_program_header_count(2).is_ok());
    assert!(limits.check_load_segment_count(2).is_err());
    assert!(limits.check_image_span(100).is_ok());
    assert!(limits.check_segment_alignment(17).is_err());
    assert!(limits.check_layout_bytes(31).is_err());
    assert!(limits.check_dynamic_entry_count(3).is_ok());
    assert!(limits.check_relocation_count(5).is_err());
    assert!(limits.check_runtime_metadata_bytes(51).is_err());
    assert!(limits.check_relocation_operation_bytes(60).is_ok());
}

#[test]
fn thumb_entries_carry_a_bit() {
    let thumb = LoadProfile::arm_thumb_soft_float(ElfType::Dyn);
    assert!(thumb.entry_mode().is_thumb());
    assert_eq!(thumb.entry_mode().canonical_entry(0x101), 0x100);
    let riscv = LoadProfile::riscv64(ElfType::Dyn);
    assert!(!riscv.entry_mode().is_thumb());
    assert_eq!(riscv.entry_mode().canonical_entry(0x101), 0x101);
    assert_eq!(EntryMode::Thumb.minimum_instruction_size(), 2);
    assert_eq!(riscv.class(), ElfClass::Elf64);
    assert_eq!(LoadProfile::riscv32(ElfType::Dyn).class(), ElfClass::Elf32);
    assert_eq!(LoadProfile::aarch64(ElfType::Exec).machine(), ElfMachine::Aarch64);
}

#[test]
fn the_closed_world_allows_no_text_relocations() {
    let policy = LoadPolicy::phase0();
    assert!(!policy.allows_interpreter());
    assert!(!policy.allows_tls());
    assert!(!policy.allows_executable_stack());
    let everything = MemoryPermissions::read()
        .bitor(MemoryPermissions::write())
        .bitor(MemoryPermissions::execute());
    assert!(!policy.allows_segment_permissions(everything));
    assert!(policy.allows_segment_permissions(MemoryPermissions::read()));
    assert!(policy.allows_dynamic_tag(DT_FLAGS, 8));
    assert!(!policy.allows_dynamic_tag(DT_FLAGS, 4));
}

#[test]
fn tags_and_types_have_their_numbers() {
    let numbers = [
        (elf::DT_NULL as u64, dynamic::DT_NULL as u64),
        (elf::DT_NEEDED as u64, dynamic::DT_NEEDED as u64),
        (elf::DT_PLTRELSZ as u64, dynamic::DT_PLTRELSZ as u64),
        (elf::DT_PLTGOT as u64, dynamic::DT_PLTGOT as u64),
        (elf::DT_HASH as u64, dynamic::DT_HASH as u64),
        (elf::DT_STRTAB as u64, dynamic::DT_STRTAB as u64),
        (elf::DT_SYMTAB as u64, dynamic::DT_SYMTAB as u64),
        (elf::DT_RELA as u64, dynamic::DT_RELA as u64),
        (elf::DT_RELASZ as u64, dynamic::DT_RELASZ as u64),
        (elf::DT_RELAENT as u64, dynamic::DT_RELAENT as u64),
        (elf::DT_STRSZ as u64, dynamic::DT_STRSZ as u64),
        (elf::DT_SYMENT as u64, dynamic::DT_SYMENT as u64),
        (elf::DT_INIT as u64, dynamic::DT_INIT as u64),
        (elf::DT_FINI as u64, dynamic::DT_FINI as u64),
        (elf::DT_SONAME as u64, dynamic::DT_SONAME as u64),
        (elf::DT_RPATH as u64, dynamic::DT_RPATH as u64),
        (elf::DT_SYMBOLIC as u64, dynamic::DT_SYMBOLIC as u64),
        (elf::DT_REL as u64, dynamic::DT_REL as u64),
        (elf::DT_RELSZ as u64, dynamic::DT_RELSZ as u64),
        (elf::DT_RELENT as u64, dynamic::DT_RELENT as u64),
        (elf::DT_PLTREL as u64, dynamic::DT_PLTREL as u64),
        (elf::DT_DEBUG as u64, dynamic::DT_DEBUG as u64),
        (elf::DT_TEXTREL as u64, dynamic::DT_TEXTREL as u64),
        (elf::DT_JMPREL as u64, dynamic::DT_JMPREL as u64),
        (elf::DT_BIND_NOW as u64, dynamic::DT_BIND_NOW as u64),
        (elf::DT_INIT_ARRAY as u64, dynamic::DT_INIT_ARRAY as u64),
        (elf::DT_FINI_ARRAY as u64, dynamic::DT_FINI_ARRAY as u64),
        (elf::DT_INIT_ARRAYSZ as u64, dynamic::DT_INIT_ARRAYSZ as u64),
        (elf::DT_FINI_ARRAYSZ as u64, dynamic::DT_FINI_ARRAYSZ as u64),
        (elf::DT_RUNPATH as u64, dynamic::DT_RUNPATH as u64),
        (elf::DT_FLAGS as u64, dynamic::DT_FLAGS as u64),
        (elf::DT_PREINIT_ARRAY as u64, dynamic::DT_PREINIT_ARRAY as u64),
        (elf::DT_PREINIT_ARRAYSZ as u64, dynamic::DT_PREINIT_ARRAYSZ as u64),
        (elf::DT_GNU_HASH as u64, dynamic::DT_GNU_HASH as u64),
        (elf::DT_TLSDESC_PLT as u64, dynamic::DT_TLSDESC_PLT as u64),
        (elf::DT_TLSDESC_GOT as u64, dynamic::DT_TLSDESC_GOT as u64),
        (elf::DT_VERSYM as u64, dynamic::DT_VERSYM as u64),
        (elf::DT_RELACOUNT as u64, dynamic::DT_RELACOUNT as u64),
        (elf::DT_RELCOUNT as u64, dynamic::DT_RELCOUNT as u64),
        (elf::DT_FLAGS_1 as u64, dynamic::DT_FLAGS_1 as u64),
        (elf::DT_VERDEF as u64, dynamic::DT_VERDEF as u64),
        (elf::DT_VERDEFNUM as u64, dynamic::DT_VERDEFNUM as u64),
        (elf::DT_VERNEED as u64, dynamic::DT_VERNEED as u64),
        (elf::DT_VERNEEDNUM as u64, dynamic::DT_VERNEEDNUM as u64),
        (elf::DF_TEXTREL as u64, dynamic::DF_TEXTREL as u64),
        (elf::DF_BIND_NOW as u64, dynamic::DF_BIND_NOW as u64),
        (elf::DF_1_NOW as u64, dynamic::DF_1_NOW as u64),
        (elf::DF_1_PIE as u64, dynamic::DF_1_PIE as u64),
        (elf::PT_LOAD as u64, program_header::PT_LOAD as u64),
        (elf::PT_DYNAMIC as u64, program_header::PT_DYNAMIC as u64),
        (elf::PT_INTERP as u64, program_header::PT_INTERP as u64),
        (elf::PT_PHDR as u64, program_header::PT_PHDR as u64),
        (elf::PT_TLS as u64, program_header::PT_TLS as u64),
        (elf::PT_GNU_EH_FRAME as u64, program_header::PT_GNU_EH_FRAME as u64),
        (elf::PT_GNU_STACK as u64, program_header::PT_GNU_STACK as u64),
        (elf::PT_GNU_RELRO as u64, program_header::PT_GNU_RELRO as u64),
        (elf::PT_ARM_EXIDX as u64, program_header::PT_ARM_EXIDX as u64),
        (elf::PF_X as u64, program_header::PF_X as u64),
        (elf::PF_W as u64, program_header::PF_W as u64),
        (elf::PF_R as u64, program_header::PF_R as u64),
        (elf::R_RISCV_32 as u64, reloc::R_RISCV_32 as u64),
        (elf::R_RISCV_64 as u64, reloc::R_RISCV_64 as u64),
        (elf::R_RISCV_RELATIVE as u64, reloc::R_RISCV_RELATIVE as u64),
        (elf::R_RISCV_JUMP_SLOT as u64, reloc::R_RISCV_JUMP_SLOT as u64),
        (elf::R_AARCH64_ABS64 as u64, reloc::R_AARCH64_ABS64 as u64),
        (elf::R_AARCH64_GLOB_DAT as u64, reloc::R_AARCH64_GLOB_DAT as u64),
        (elf::R_AARCH64_JUMP_SLOT as u64, reloc::R_AARCH64_JUMP_SLOT as u64),
        (elf::R_AARCH64_RELATIVE as u64, reloc::R_AARCH64_RELATIVE as u64),
        (elf::R_ARM_ABS32 as u64, reloc::R_ARM_ABS32 as u64),
        (elf::R_ARM_GLOB_DAT as u64, reloc::R_ARM_GLOB_DAT as u64),
        (elf::R_ARM_JUMP_SLOT as u64, reloc::R_ARM_JUMP_SLOT as u64),
        (elf::R_ARM_RELATIVE as u64, reloc::R_ARM_RELATIVE as u64),
        (elf::ET_EXEC as u64, header::ET_EXEC as u64),
        (elf::ET_DYN as u64, header::ET_DYN as u64),
        (elf::EM_ARM as u64, header::EM_ARM as u64),
        (elf::EM_AARCH64 as u64, header::EM_AARCH64 as u64),
        (elf::EM_RISCV as u64, header::EM_RISCV as u64),
        (elf::ELFCLASS32 as u64, header::ELFCLASS32 as u64),
        (elf::ELFCLASS64 as u64, header::ELFCLASS64 as u64),
        (elf::ELFDATA2LSB as u64, header::ELFDATA2LSB as u64),
        (elf::ELFDATA2MSB as u64, header::ELFDATA2MSB as u64),
        (elf::EI_CLASS as u64, header::EI_CLASS as u64),
        (elf::EI_DATA as u64, header::EI_DATA as u64),
        (elf::ELF_IDENT_SIZE as u64, header::SIZEOF_IDENT as u64),
        (elf::ELF32_HEADER_SIZE as u64, header::header32::SIZEOF_EHDR as u64),
        (elf::ELF64_HEADER_SIZE as u64, header::header64::SIZEOF_EHDR as u64),
        (
            elf::ELF32_PROGRAM_HEADER_SIZE as u64,
            program_header::program_header32::SIZEOF_PHDR as u64,
        ),
        (
            elf::ELF64_PROGRAM_HEADER_SIZE as u64,
            program_header::program_header64::SIZEOF_PHDR as u64,
        ),
    ];
    for (ours, theirs) in numbers {
        assert_eq!(ours, theirs);
    }
    assert!(matches!(classify_tag(DT_RELA), DynamicTagClass::RelativeTable));
}

#[test]
fn program_headers_are_decoded_by_class() {
    let mut bytes = vec![0u8; 56];
    bytes[0] = 1;
    bytes[4] = 5;
    bytes[8..16].copy_from_slice(&0x100u64.to_le_bytes());
    bytes[16..24].copy_from_slice(&0x2000u64.to_le_bytes());
    bytes[32..40].copy_from_slice(&0x30u64.to_le_bytes());
    bytes[40..48].copy_from_slice(&0x40u64.to_le_bytes());
    bytes[48..56].copy_from_slice(&0x1000u64.to_le_bytes());
    let header = ProgramHeaderFields::decode(&bytes, ElfClass::Elf64, ElfData::Little).unwrap();
    assert_eq!(header.program_type, 1);
    assert_eq!(header.file_offset, 0x100);
    assert_eq!(header.vaddr, 0x2000);
    assert_eq!(header.file_size, 0x30);
    assert_eq!(header.memory_size, 0x40);
    assert_eq!(header.align, 0x1000);
    assert!(ProgramHeaderFields::decode(&bytes[..55], ElfClass::Elf64, ElfData::Little).is_err());
}

#[test]
fn cache_lines_cover_a_range() {
    // 64-byte data lines and 32-byte instruction lines.
    assert_eq!(line_sizes((4 << 16) | 3), (64, 32));
    assert_eq!(cache_lines(range(0x1010, 0x60), 64), Ok(vec![0x1000, 0x1040]));
    assert_eq!(cache_lines(range(0x1010, 0x71), 64), Ok(vec![0x1000, 0x1040, 0x1080]));
    assert_eq!(cache_lines(range(0x1000, 0), 64), Ok(Vec::new()));
    assert!(cache_lines(range(u64::MAX, 2), 64).is_err());
}

struct Counting(usize, usize);

impl CodeCache for Counting {
    fn visible(&self, _range: TargetRange) -> bool {
        true
    }

    fn accepts(&self, _range: TargetRange) -> bool {
        true
    }

    fn refuses(&self, _range: TargetRange, _error: LoadError) -> bool {
        true
    }

    fn synchronize(&mut self, runtime_range: TargetRange) -> LoadResult<()> {
        if self.0 == self.1 {
            return Err(LoadError::new(
                LoadErrorKind::UnsupportedByProfile,
                ErrorContext::TargetRange {
                    start: runtime_range.start(),
                    len: runtime_range.len(),
                    align: 0,
                },
            ));
        }
        self.0 += 1;
        Ok(())
    }
}

#[test]
fn every_range_is_synchronized() {
    let ranges = vec![range(0, 4), range(8, 4)];
    let mut cache = Counting(0, 5);
    let outcome = synchronize_all(&mut cache, ranges.clone()).unwrap();
    assert_eq!(outcome.ranges(), ranges.as_slice());
    assert_eq!(cache.0, 2);
    let mut failing = Counting(0, 1);
    let error = match synchronize_all(&mut failing, ranges) {
        Ok(_) => panic!("expected a failure"),
        Err(error) => error,
    };
    assert_eq!(error.stage(), Some(LoadStage::Cache));
    assert_eq!(failing.0, 1);
}

#[test]
fn hexadecimal_inputs_are_decoded() {
    assert_eq!(decode_hex_corpus(b"7f454C46\r\n"), b"\x7fELF".to_vec());
    assert_eq!(decode_hex_corpus(b"7f4"), b"7f4".to_vec());
    assert_eq!(decode_hex_corpus(b"\x7fELF\n"), b"\x7fELF".to_vec());
    assert_eq!(decode_hex_corpus(b""), Vec::<u8>::new());
    assert_eq!(hex_digit(b'a'), 10);
    assert_eq!(hex_digit(b'F'), 15);
    assert_eq!(hex_digit(b'7'), 7);
    assert_eq!(hex_digit(b'z'), 0);
}
