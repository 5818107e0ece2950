//! ELF identity, load profiles, quotas and the policy on optional features.

use crate::elf::{
    classify_tag, tag_class, DynamicTagClass, DF_1_NOW, DF_1_PIE, DF_BIND_NOW, ELFCLASS32,
    ELFCLASS64, ELFDATA2LSB, ELFDATA2MSB, EM_AARCH64, EM_ARM, EM_RISCV, ET_DYN, ET_EXEC,
};
use crate::error::{ErrorContext, LimitKind, LoadError, LoadErrorKind, LoadResult};
use crate::permissions::MemoryPermissions;
use vstd::prelude::*;

verus! {

#[derive(Clone, Copy, Debug, PartialEq, Eq, Structural)]
pub enum ElfClass {
    Elf32,
    Elf64,
}

impl ElfClass {
    /// The number that stands for the class in an ELF header.
    pub open spec fn number(self) -> u64 {
        match self {
            ElfClass::Elf32 => ELFCLASS32 as u64,
            ElfClass::Elf64 => ELFCLASS64 as u64,
        }
    }
}

impl vstd::std_specs::convert::FromSpecImpl<ElfClass> for u64 {
    open spec fn obeys_from_spec() -> bool {
        true
    }

    open spec fn from_spec(value: ElfClass) -> u64 {
        match value {
            ElfClass::Elf32 => ELFCLASS32 as u64,
            ElfClass::Elf64 => ELFCLASS64 as u64,
        }
    }
}

impl From<ElfClass> for u64 {
    fn from(value: ElfClass) -> (r: u64) {
        match value {
            ElfClass::Elf32 => ELFCLASS32 as u64,
            ElfClass::Elf64 => ELFCLASS64 as u64,
        }
    }
}

#[derive(Clone, Copy, Debug, PartialEq, Eq, Structural)]
pub enum ElfData {
    Little,
    Big,
}

impl vstd::std_specs::convert::FromSpecImpl<ElfData> for u64 {
    open spec fn obeys_from_spec() -> bool {
        true
    }

    open spec fn from_spec(value: ElfData) -> u64 {
        match value {
            ElfData::Little => ELFDATA2LSB as u64,
            ElfData::Big => ELFDATA2MSB as u64,
        }
    }
}

impl From<ElfData> for u64 {
    fn from(value: ElfData) -> (r: u64) {
        match value {
            ElfData::Little => ELFDATA2LSB as u64,
            ElfData::Big => ELFDATA2MSB as u64,
        }
    }
}

#[derive(Clone, Copy, Debug, PartialEq, Eq, Structural)]
pub enum ElfType {
    Dyn,
    Exec,
    Other(u16),
}

impl vstd::std_specs::convert::FromSpecImpl<ElfType> for u64 {
    open spec fn obeys_from_spec() -> bool {
        true
    }

    open spec fn from_spec(value: ElfType) -> u64 {
        match value {
            ElfType::Dyn => ET_DYN as u64,
            ElfType::Exec => ET_EXEC as u64,
            ElfType::Other(other) => other as u64,
        }
    }
}

impl From<ElfType> for u64 {
    fn from(value: ElfType) -> (r: u64) {
        match value {
            ElfType::Dyn => ET_DYN as u64,
            ElfType::Exec => ET_EXEC as u64,
            ElfType::Other(other) => other as u64,
        }
    }
}

#[derive(Clone, Copy, Debug, PartialEq, Eq, Structural)]
pub enum ElfMachine {
    Riscv,
    Aarch64,
    Arm,
    Other(u16),
}

impl ElfMachine {
    /// The number that stands for the machine in an ELF header.
    pub open spec fn number(self) -> u64 {
        match self {
            ElfMachine::Arm => EM_ARM as u64,
            ElfMachine::Riscv => EM_RISCV as u64,
            ElfMachine::Aarch64 => EM_AARCH64 as u64,
            ElfMachine::Other(other) => other as u64,
        }
    }
}

impl vstd::std_specs::convert::FromSpecImpl<ElfMachine> for u64 {
    open spec fn obeys_from_spec() -> bool {
        true
    }

    open spec fn from_spec(value: ElfMachine) -> u64 {
        match value {
            ElfMachine::Aarch64 => EM_AARCH64 as u64,
            ElfMachine::Arm => EM_ARM as u64,
            ElfMachine::Riscv => EM_RISCV as u64,
            ElfMachine::Other(other) => other as u64,
        }
    }
}

impl From<ElfMachine> for u64 {
    fn from(value: ElfMachine) -> (r: u64) {
        match value {
            ElfMachine::Aarch64 => EM_AARCH64 as u64,
            ElfMachine::Arm => EM_ARM as u64,
            ElfMachine::Riscv => EM_RISCV as u64,
            ElfMachine::Other(other) => other as u64,
        }
    }
}

/// How entry addresses of a profile are encoded.
#[derive(Clone, Copy, Debug, PartialEq, Eq, Structural)]
pub enum EntryMode {
    /// Two-byte instructions; bit 0 of a function address marks the mode.
    Thumb,
    /// Two-byte instructions with plain addresses.
    Compressed,
    /// Four-byte instructions with plain addresses.
    Word,
}

/// `address` without the mode bit.
pub open spec fn clear_mode_bit(address: u64) -> u64 {
    (address - address % 2) as u64
}

impl EntryMode {
    pub open spec fn canonical_spec(self, entry: u64) -> u64 {
        if self == EntryMode::Thumb {
            clear_mode_bit(entry)
        } else {
            entry
        }
    }

    pub open spec fn instruction_spec(self) -> u64 {
        match self {
            EntryMode::Thumb => 2,
            EntryMode::Compressed => 2,
            EntryMode::Word => 4,
        }
    }

    pub fn is_thumb(self) -> (r: bool)
        ensures
            r == (self == EntryMode::Thumb),
    {
        self == EntryMode::Thumb
    }

    /// The address of the first instruction behind an entry value.
    pub fn canonical_entry(self, entry: u64) -> (r: u64)
        ensures
            r == self.canonical_spec(entry),
    {
        if self.is_thumb() {
            entry - entry % 2
        } else {
            entry
        }
    }

    pub fn minimum_instruction_size(self) -> (r: u64)
        ensures
            r == self.instruction_spec(),
    {
        match self {
            EntryMode::Thumb => 2,
            EntryMode::Compressed => 2,
            EntryMode::Word => 4,
        }
    }
}

#[derive(Clone, Copy, Debug, PartialEq, Eq, Structural)]
pub enum FloatAbi {
    Soft,
    Hard,
}

/// The ELF identity a load accepts.
#[derive(Clone, Copy, Debug, PartialEq, Eq, Structural)]
pub struct LoadProfile {
    pub class: ElfClass,
    pub endian: ElfData,
    pub machine: ElfMachine,
    pub elf_type: ElfType,
    pub float_abi: FloatAbi,
}

impl LoadProfile {
    pub open spec fn entry_mode_spec(self) -> EntryMode {
        match self.machine {
            ElfMachine::Arm => EntryMode::Thumb,
            ElfMachine::Riscv => EntryMode::Compressed,
            _ => EntryMode::Word,
        }
    }

    #[inline]
    pub fn new(class: ElfClass, endian: ElfData, machine: ElfMachine, elf_type: ElfType) -> (r: Self)
        ensures
            r == (LoadProfile { class, endian, machine, elf_type, float_abi: FloatAbi::Soft }),
    {
        LoadProfile { class, endian, machine, elf_type, float_abi: FloatAbi::Soft }
    }

    pub fn arm_thumb_soft_float(elf_type: ElfType) -> (r: Self)
        ensures
            r == (LoadProfile {
                class: ElfClass::Elf32,
                endian: ElfData::Little,
                machine: ElfMachine::Arm,
                elf_type,
                float_abi: FloatAbi::Soft,
            }),
    {
        LoadProfile::new(ElfClass::Elf32, ElfData::Little, ElfMachine::Arm, elf_type)
    }

    pub fn arm_thumb_hard_float(elf_type: ElfType) -> (r: Self)
        ensures
            r == (LoadProfile {
                class: ElfClass::Elf32,
                endian: ElfData::Little,
                machine: ElfMachine::Arm,
                elf_type,
                float_abi: FloatAbi::Hard,
            }),
    {
        LoadProfile {
            class: ElfClass::Elf32,
            endian: ElfData::Little,
            machine: ElfMachine::Arm,
            elf_type,
            float_abi: FloatAbi::Hard,
        }
    }

    pub fn riscv32(elf_type: ElfType) -> (r: Self)
        ensures
            r == (LoadProfile {
                class: ElfClass::Elf32,
                endian: ElfData::Little,
                machine: ElfMachine::Riscv,
                elf_type,
                float_abi: FloatAbi::Soft,
            }),
    {
        LoadProfile::new(ElfClass::Elf32, ElfData::Little, ElfMachine::Riscv, elf_type)
    }

    pub fn riscv64(elf_type: ElfType) -> (r: Self)
        ensures
            r == (LoadProfile {
                class: ElfClass::Elf64,
                endian: ElfData::Little,
                machine: ElfMachine::Riscv,
                elf_type,
                float_abi: FloatAbi::Soft,
            }),
    {
        LoadProfile::new(ElfClass::Elf64, ElfData::Little, ElfMachine::Riscv, elf_type)
    }

    pub fn aarch64(elf_type: ElfType) -> (r: Self)
        ensures
            r == (LoadProfile {
                class: ElfClass::Elf64,
                endian: ElfData::Little,
                machine: ElfMachine::Aarch64,
                elf_type,
                float_abi: FloatAbi::Soft,
            }),
    {
        LoadProfile::new(ElfClass::Elf64, ElfData::Little, ElfMachine::Aarch64, elf_type)
    }

    #[inline]
    pub fn class(&self) -> (r: ElfClass)
        ensures
            r == self.class,
    {
        self.class
    }

    #[inline]
    pub fn endian(&self) -> (r: ElfData)
        ensures
            r == self.endian,
    {
        self.endian
    }

    #[inline]
    pub fn machine(&self) -> (r: ElfMachine)
        ensures
            r == self.machine,
    {
        self.machine
    }

    #[inline]
    pub fn elf_type(&self) -> (r: ElfType)
        ensures
            r == self.elf_type,
    {
        self.elf_type
    }

    /// How functions of this profile encode their entry address.
    pub fn entry_mode(&self) -> (r: EntryMode)
        ensures
            r == self.entry_mode_spec(),
    {
        match self.machine {
            ElfMachine::Arm => EntryMode::Thumb,
            ElfMachine::Riscv => EntryMode::Compressed,
            _ => EntryMode::Word,
        }
    }
}

/// The quotas of one image load.
#[derive(Clone, Copy, Debug, PartialEq, Eq, Structural)]
pub struct LoadLimits {
    pub max_file_len: u64,
    pub max_program_headers: u16,
    pub max_load_segments: u16,
    pub max_image_span: u64,
    pub max_segment_alignment: u64,
    pub max_dynamic_entries: u64,
    pub max_relocations: u64,
    pub max_runtime_metadata_bytes: u64,
    pub max_relocation_operation_bytes: u64,
}

/// The failure of a quota.
pub open spec fn limit_failure(resource: LimitKind, actual: u64, maximum: u64) -> LoadError {
    LoadError {
        stage: None,
        kind: LoadErrorKind::ResourceLimit,
        context: ErrorContext::Limit { resource, actual, maximum },
    }
}

/// A quota allows everything up to and including its maximum.
pub open spec fn within(resource: LimitKind, actual: u64, maximum: u64) -> LoadResult<()> {
    if actual <= maximum {
        Ok(())
    } else {
        Err(limit_failure(resource, actual, maximum))
    }
}

impl LoadLimits {
    /// The quotas a load has when its caller asks for no others.
    pub fn default_limits() -> (r: Self)
        ensures
            r == (LoadLimits {
                max_file_len: 0x400_0000,
                max_program_headers: 128,
                max_load_segments: 32,
                max_image_span: 0x400_0000,
                max_segment_alignment: 0x4000_0000,
                max_dynamic_entries: 1024,
                max_relocations: 0x10_0000,
                max_runtime_metadata_bytes: 0x400_0000,
                max_relocation_operation_bytes: 0x400_0000,
            }),
    {
        LoadLimits::new(
            64 * 1024 * 1024,
            128,
            32,
            64 * 1024 * 1024,
            1024 * 1024 * 1024,
            1024,
            1024 * 1024,
            64 * 1024 * 1024,
            64 * 1024 * 1024,
        )
    }

    #[inline]
    pub fn new(
        max_file_len: u64,
        max_program_headers: u16,
        max_load_segments: u16,
        max_image_span: u64,
        max_segment_alignment: u64,
        max_dynamic_entries: u64,
        max_relocations: u64,
        max_runtime_metadata_bytes: u64,
        max_relocation_operation_bytes: u64,
    ) -> (r: Self)
        ensures
            r == (LoadLimits {
                max_file_len,
                max_program_headers,
                max_load_segments,
                max_image_span,
                max_segment_alignment,
                max_dynamic_entries,
                max_relocations,
                max_runtime_metadata_bytes,
                max_relocation_operation_bytes,
            }),
    {
        LoadLimits {
            max_file_len,
            max_program_headers,
            max_load_segments,
            max_image_span,
            max_segment_alignment,
            max_dynamic_entries,
            max_relocations,
            max_runtime_metadata_bytes,
            max_relocation_operation_bytes,
        }
    }

    pub fn check_file_len(&self, actual: u64) -> (r: LoadResult<()>)
        ensures
            r == within(LimitKind::FileLength, actual, self.max_file_len),
    {
        check_limit(LimitKind::FileLength, actual, self.max_file_len)
    }

    pub fn check_program_header_count(&self, actual: u16) -> (r: LoadResult<()>)
        ensures
            r == within(
                LimitKind::ProgramHeaderCount,
                actual as u64,
                self.max_program_headers as u64,
            ),
    {
        if actual <= self.max_program_headers {
            return Ok(());
        }
        Err(
            LoadError::new(
                LoadErrorKind::ResourceLimit,
                ErrorContext::Limit {
                    resource: LimitKind::ProgramHeaderCount,
                    actual: actual as u64,
                    maximum: self.max_program_headers as u64,
                },
            ),
        )
    }

    pub fn check_load_segment_count(&self, actual: usize) -> (r: LoadResult<()>)
        ensures
            r == within(LimitKind::LoadSegmentCount, actual as u64, self.max_load_segments as u64),
    {
        if actual <= self.max_load_segments as usize {
            return Ok(());
        }
        Err(
            LoadError::new(
                LoadErrorKind::ResourceLimit,
                ErrorContext::Limit {
                    resource: LimitKind::LoadSegmentCount,
                    actual: actual as u64,
                    maximum: self.max_load_segments as u64,
                },
            ),
        )
    }

    pub fn check_image_span(&self, actual: u64) -> (r: LoadResult<()>)
        ensures
            r == within(LimitKind::ImageSpan, actual, self.max_image_span),
    {
        check_limit(LimitKind::ImageSpan, actual, self.max_image_span)
    }

    pub fn check_segment_alignment(&self, actual: u64) -> (r: LoadResult<()>)
        ensures
            r == within(LimitKind::SegmentAlignment, actual, self.max_segment_alignment),
    {
        check_limit(LimitKind::SegmentAlignment, actual, self.max_segment_alignment)
    }

    pub fn check_dynamic_entry_count(&self, actual: u64) -> (r: LoadResult<()>)
        ensures
            r == within(LimitKind::DynamicEntryCount, actual, self.max_dynamic_entries),
    {
        check_limit(LimitKind::DynamicEntryCount, actual, self.max_dynamic_entries)
    }

    pub fn check_relocation_count(&self, actual: u64) -> (r: LoadResult<()>)
        ensures
            r == within(LimitKind::RelocationCount, actual, self.max_relocations),
    {
        check_limit(LimitKind::RelocationCount, actual, self.max_relocations)
    }

    pub fn check_runtime_metadata_bytes(&self, actual: u64) -> (r: LoadResult<()>)
        ensures
            r == within(LimitKind::RuntimeMetadataBytes, actual, self.max_runtime_metadata_bytes),
    {
        check_limit(LimitKind::RuntimeMetadataBytes, actual, self.max_runtime_metadata_bytes)
    }

    pub fn check_relocation_operation_bytes(&self, actual: u64) -> (r: LoadResult<()>)
        ensures
            r == within(
                LimitKind::RelocationOperationBytes,
                actual,
                self.max_relocation_operation_bytes,
            ),
    {
        check_limit(
            LimitKind::RelocationOperationBytes,
            actual,
            self.max_relocation_operation_bytes,
        )
    }
}

pub fn check_limit(resource: LimitKind, actual: u64, maximum: u64) -> (r: LoadResult<()>)
    ensures
        r == within(resource, actual, maximum),
{
    if actual <= maximum {
        return Ok(());
    }
    Err(
        LoadError::new(
            LoadErrorKind::ResourceLimit,
            ErrorContext::Limit { resource, actual, maximum },
        ),
    )
}

/// A profile together with the quotas a load runs under.
#[derive(Clone, Copy, Debug, PartialEq, Eq, Structural)]
pub struct LoadRequest {
    pub profile: LoadProfile,
    pub limits: LoadLimits,
}

impl LoadRequest {
    #[inline]
    pub fn new(profile: LoadProfile, limits: LoadLimits) -> (r: Self)
        ensures
            r == (LoadRequest { profile, limits }),
    {
        LoadRequest { profile, limits }
    }

    #[inline]
    pub fn profile(&self) -> (r: &LoadProfile)
        ensures
            *r == self.profile,
    {
        &self.profile
    }

    #[inline]
    pub fn limits(&self) -> (r: &LoadLimits)
        ensures
            *r == self.limits,
    {
        &self.limits
    }
}

/// The quotas of one link session.
#[derive(Clone, Copy, Debug, PartialEq, Eq, Structural)]
pub struct SessionLimits {
    pub max_images: u32,
    pub max_dependency_edges: u32,
    pub max_dependency_depth: u16,
    pub max_dependency_name_len: u32,
    pub per_image: LoadLimits,
}

impl SessionLimits {
    pub fn new(
        max_images: u32,
        max_dependency_edges: u32,
        max_dependency_depth: u16,
        max_dependency_name_len: u32,
        per_image: LoadLimits,
    ) -> (r: Self)
        ensures
            r == (SessionLimits {
                max_images,
                max_dependency_edges,
                max_dependency_depth,
                max_dependency_name_len,
                per_image,
            }),
    {
        SessionLimits {
            max_images,
            max_dependency_edges,
            max_dependency_depth,
            max_dependency_name_len,
            per_image,
        }
    }

    pub fn check_image_count(&self, actual: u32) -> (r: LoadResult<()>)
        ensures
            r == within(LimitKind::ImageCount, actual as u64, self.max_images as u64),
    {
        check_limit(LimitKind::ImageCount, actual as u64, self.max_images as u64)
    }

    pub fn check_dependency_edge_count(&self, actual: u32) -> (r: LoadResult<()>)
        ensures
            r == within(
                LimitKind::DependencyEdgeCount,
                actual as u64,
                self.max_dependency_edges as u64,
            ),
    {
        check_limit(
            LimitKind::DependencyEdgeCount,
            actual as u64,
            self.max_dependency_edges as u64,
        )
    }

    pub fn check_dependency_depth(&self, actual: u16) -> (r: LoadResult<()>)
        ensures
            r == within(
                LimitKind::DependencyDepth,
                actual as u64,
                self.max_dependency_depth as u64,
            ),
    {
        check_limit(LimitKind::DependencyDepth, actual as u64, self.max_dependency_depth as u64)
    }

    pub fn check_dependency_name_len(&self, actual: u64) -> (r: LoadResult<()>)
        ensures
            r == within(
                LimitKind::DependencyNameLength,
                actual,
                self.max_dependency_name_len as u64,
            ),
    {
        check_limit(LimitKind::DependencyNameLength, actual, self.max_dependency_name_len as u64)
    }

    #[inline]
    pub fn per_image(&self) -> (r: &LoadLimits)
        ensures
            *r == self.per_image,
    {
        &self.per_image
    }
}

/// The optional ELF features a loader accepts.
///
/// A policy controls optional semantics only. Structural checks and safety
/// rules such as bounds, overflow, overlap and W+X are enforced independently
/// and cannot be switched off here.
#[derive(Clone, Copy, Debug, PartialEq, Eq, Structural)]
pub struct LoadPolicy {
    pub allow_interpreter: bool,
    pub allow_tls: bool,
    pub allow_executable_stack: bool,
    pub allow_unknown_program_headers: bool,
    pub allow_execute_only_segments: bool,
    pub allow_write_only_segments: bool,
    pub allow_no_access_segments: bool,
    pub allow_needed: bool,
    pub allow_plt_relocations: bool,
    pub allow_relr: bool,
    pub allow_lifecycle: bool,
    pub allow_search_paths: bool,
    pub allow_symbolic_lookup: bool,
    pub allow_symbol_versions: bool,
    pub allow_tls_descriptors: bool,
    pub allow_unknown_dynamic_tags: bool,
    pub allowed_dynamic_flags: u64,
    pub allowed_dynamic_flags_1: u64,
}

impl LoadPolicy {
    /// The closed-world policy: no optional feature is accepted.
    pub open spec fn phase0_spec() -> Self {
        LoadPolicy {
            allow_interpreter: false,
            allow_tls: false,
            allow_executable_stack: false,
            allow_unknown_program_headers: false,
            allow_execute_only_segments: false,
            allow_write_only_segments: false,
            allow_no_access_segments: false,
            allow_needed: false,
            allow_plt_relocations: false,
            allow_relr: false,
            allow_lifecycle: false,
            allow_search_paths: false,
            allow_symbolic_lookup: false,
            allow_symbol_versions: false,
            allow_tls_descriptors: false,
            allow_unknown_dynamic_tags: false,
            allowed_dynamic_flags: DF_BIND_NOW,
            allowed_dynamic_flags_1: DF_1_NOW | DF_1_PIE,
        }
    }

    pub open spec fn segment_permissions_spec(self, permissions: MemoryPermissions) -> bool {
        let read = MemoryPermissions::spec_read();
        let write = MemoryPermissions::spec_write();
        let execute = MemoryPermissions::spec_execute();
        if permissions == read || permissions == read.joined(execute) || permissions == read.joined(
            write,
        ) {
            true
        } else if permissions == execute {
            self.allow_execute_only_segments
        } else if permissions == write {
            self.allow_write_only_segments
        } else if permissions == MemoryPermissions::spec_none() {
            self.allow_no_access_segments
        } else {
            false
        }
    }

    pub open spec fn dynamic_tag_spec(self, tag: u64, value: u64) -> bool {
        match tag_class(tag) {
            DynamicTagClass::RelativeTable => true,
            DynamicTagClass::TextRelocation => false,
            DynamicTagClass::RelativeBitmap => self.allow_relr,
            DynamicTagClass::Needed => self.allow_needed,
            DynamicTagClass::PltRelocation => self.allow_plt_relocations,
            DynamicTagClass::Lifecycle => self.allow_lifecycle,
            DynamicTagClass::SearchPath => self.allow_search_paths,
            DynamicTagClass::Symbolic => self.allow_symbolic_lookup,
            DynamicTagClass::SymbolVersion => self.allow_symbol_versions,
            DynamicTagClass::TlsDescriptor => self.allow_tls_descriptors,
            DynamicTagClass::Flags => value & !self.allowed_dynamic_flags == 0,
            DynamicTagClass::Flags1 => value & !self.allowed_dynamic_flags_1 == 0,
            DynamicTagClass::Soname => true,
            DynamicTagClass::Metadata => true,
            DynamicTagClass::Unknown => self.allow_unknown_dynamic_tags,
        }
    }

    pub fn phase0() -> (r: Self)
        ensures
            r == Self::phase0_spec(),
    {
        LoadPolicy {
            allow_interpreter: false,
            allow_tls: false,
            allow_executable_stack: false,
            allow_unknown_program_headers: false,
            allow_execute_only_segments: false,
            allow_write_only_segments: false,
            allow_no_access_segments: false,
            allow_needed: false,
            allow_plt_relocations: false,
            allow_relr: false,
            allow_lifecycle: false,
            allow_search_paths: false,
            allow_symbolic_lookup: false,
            allow_symbol_versions: false,
            allow_tls_descriptors: false,
            allow_unknown_dynamic_tags: false,
            allowed_dynamic_flags: DF_BIND_NOW,
            allowed_dynamic_flags_1: DF_1_NOW | DF_1_PIE,
        }
    }

    #[inline]
    pub fn allows_interpreter(&self) -> (r: bool)
        ensures
            r == self.allow_interpreter,
    {
        self.allow_interpreter
    }

    #[inline]
    pub fn allows_tls(&self) -> (r: bool)
        ensures
            r == self.allow_tls,
    {
        self.allow_tls
    }

    #[inline]
    pub fn allows_executable_stack(&self) -> (r: bool)
        ensures
            r == self.allow_executable_stack,
    {
        self.allow_executable_stack
    }

    #[inline]
    pub fn allows_unknown_program_headers(&self) -> (r: bool)
        ensures
            r == self.allow_unknown_program_headers,
    {
        self.allow_unknown_program_headers
    }

    /// Whether a non-empty loadable segment may have these permissions.
    pub fn allows_segment_permissions(&self, permissions: MemoryPermissions) -> (r: bool)
        ensures
            r == self.segment_permissions_spec(permissions),
    {
        let read_execute = MemoryPermissions::read().bitor(MemoryPermissions::execute());
        let read_write = MemoryPermissions::read().bitor(MemoryPermissions::write());
        if permissions == MemoryPermissions::read() || permissions == read_execute || permissions
            == read_write {
            return true;
        }
        if permissions == MemoryPermissions::execute() {
            return self.allow_execute_only_segments;
        }
        if permissions == MemoryPermissions::write() {
            return self.allow_write_only_segments;
        }
        if permissions == MemoryPermissions::none() {
            return self.allow_no_access_segments;
        }
        false
    }

    /// Whether a dynamic tag with this value is understood and permitted.
    pub fn allows_dynamic_tag(&self, tag: u64, value: u64) -> (r: bool)
        ensures
            r == self.dynamic_tag_spec(tag, value),
    {
        match classify_tag(tag) {
            DynamicTagClass::RelativeTable => true,
            DynamicTagClass::TextRelocation => false,
            DynamicTagClass::RelativeBitmap => self.allow_relr,
            DynamicTagClass::Needed => self.allow_needed,
            DynamicTagClass::PltRelocation => self.allow_plt_relocations,
            DynamicTagClass::Lifecycle => self.allow_lifecycle,
            DynamicTagClass::SearchPath => self.allow_search_paths,
            DynamicTagClass::Symbolic => self.allow_symbolic_lookup,
            DynamicTagClass::SymbolVersion => self.allow_symbol_versions,
            DynamicTagClass::TlsDescriptor => self.allow_tls_descriptors,
            DynamicTagClass::Flags => value & !self.allowed_dynamic_flags == 0,
            DynamicTagClass::Flags1 => value & !self.allowed_dynamic_flags_1 == 0,
            DynamicTagClass::Soname => true,
            DynamicTagClass::Metadata => true,
            DynamicTagClass::Unknown => self.allow_unknown_dynamic_tags,
        }
    }
}

/// A writable and executable segment is permitted by no policy.
pub proof fn no_policy_permits_write_and_execute(
    policy: LoadPolicy,
    permissions: MemoryPermissions,
)
    requires
        permissions.writable(),
        permissions.executable(),
    ensures
        !policy.segment_permissions_spec(permissions),
{
    let bits = permissions.bits;
    assert(bits & 2 == 2 && bits & 4 == 4 ==> bits != 0 && bits != 1 && bits != 2 && bits != 4
        && bits != (1u8 | 2) && bits != (1u8 | 4)) by (bit_vector);
}

/// Text relocations are permitted by no policy.
pub proof fn no_policy_permits_text_relocations(policy: LoadPolicy, value: u64)
    ensures
        !policy.dynamic_tag_spec(crate::elf::DT_TEXTREL, value),
{
}

/// Classes, byte orders, types and machines have the numbers of the format.
pub proof fn identities_have_their_numbers(
    class: ElfClass,
    endian: ElfData,
    kind: ElfType,
    machine: ElfMachine,
)
    ensures
        class.number() == if class is Elf32 {
            1int
        } else {
            2int
        },
        <u64 as vstd::std_specs::convert::FromSpec<ElfClass>>::from_spec(class) == class.number(),
        <u64 as vstd::std_specs::convert::FromSpec<ElfData>>::from_spec(endian)
            == if endian is Little {
            1int
        } else {
            2int
        },
        <u64 as vstd::std_specs::convert::FromSpec<ElfType>>::from_spec(kind) == match kind {
            ElfType::Exec => 2int,
            ElfType::Dyn => 3int,
            ElfType::Other(other) => other as int,
        },
        machine.number() == match machine {
            ElfMachine::Arm => 40int,
            ElfMachine::Aarch64 => 183int,
            ElfMachine::Riscv => 243int,
            ElfMachine::Other(other) => other as int,
        },
        <u64 as vstd::std_specs::convert::FromSpec<ElfMachine>>::from_spec(machine)
            == machine.number(),
{
}

/// Only a Thumb entry has a mode bit, the lowest one, and the instruction is at the address
/// without it. Where instructions have two bytes they may stand at every second address,
/// else at every fourth.
pub proof fn entries_are_at_their_instruction(mode: EntryMode, entry: u64)
    ensures
        mode is Thumb ==> mode.canonical_spec(entry) % 2 == 0 && (mode.canonical_spec(entry)
            == entry || mode.canonical_spec(entry) + 1 == entry),
        !(mode is Thumb) ==> mode.canonical_spec(entry) == entry,
        mode.instruction_spec() == if mode is Word {
            4int
        } else {
            2int
        },
{
}

/// A quota allows exactly what does not exceed its maximum.
pub proof fn quotas_allow_their_maximum(resource: LimitKind, actual: u64, maximum: u64)
    ensures
        within(resource, actual, maximum) is Ok <==> actual <= maximum,
{
}

/// A policy permits a segment that can be read, with or without one more permission. One
/// that can only be executed, only be written, or not be used at all is permitted where the
/// policy says so, and no other one is.
pub proof fn segments_are_permitted_by_their_permissions(policy: LoadPolicy, bits: u8)
    ensures
        policy.segment_permissions_spec(MemoryPermissions { bits }) == if bits == 1 || bits == 3
            || bits == 5 {
            true
        } else if bits == 4 {
            policy.allow_execute_only_segments
        } else if bits == 2 {
            policy.allow_write_only_segments
        } else if bits == 0 {
            policy.allow_no_access_segments
        } else {
            false
        },
{
    assert(1u8 | 2 == 3 && 1u8 | 4 == 5) by (bit_vector);
}

/// A policy judges a dynamic entry by the number of its tag. Relocation tables, names and
/// the tables that others refer to are permitted, text relocations are not, flags are
/// permitted as far as the policy has them, and what else there is follows what the policy
/// allows.
pub proof fn dynamic_entries_are_permitted_by_their_tag(policy: LoadPolicy, tag: u64, value: u64)
    ensures
        policy.dynamic_tag_spec(tag, value) == if tag == 7 || tag == 8 || tag == 9 || tag == 17
            || tag == 18 || tag == 19 || tag == 14 || tag == 3 || tag == 4 || tag == 5 || tag == 6
            || tag == 10 || tag == 11 || tag == 21 || tag == 24 || tag == 0x6fff_fef5 || tag
            == 0x6fff_fff9 || tag == 0x6fff_fffa {
            true
        } else if tag == 22 {
            false
        } else if tag == 35 || tag == 36 || tag == 37 {
            policy.allow_relr
        } else if tag == 1 {
            policy.allow_needed
        } else if tag == 2 || tag == 20 || tag == 23 {
            policy.allow_plt_relocations
        } else if tag == 12 || tag == 13 || 25 <= tag <= 28 || tag == 32 || tag == 33 {
            policy.allow_lifecycle
        } else if tag == 15 || tag == 29 {
            policy.allow_search_paths
        } else if tag == 16 {
            policy.allow_symbolic_lookup
        } else if tag == 0x6fff_fff0 || 0x6fff_fffc <= tag <= 0x6fff_ffff {
            policy.allow_symbol_versions
        } else if tag == 0x6fff_fef6 || tag == 0x6fff_fef7 {
            policy.allow_tls_descriptors
        } else if tag == 30 {
            value & !policy.allowed_dynamic_flags == 0
        } else if tag == 0x6fff_fffb {
            value & !policy.allowed_dynamic_flags_1 == 0
        } else {
            policy.allow_unknown_dynamic_tags
        },
{
}

/// The closed-world policy permits nothing optional but binding at once and, for a program,
/// to be loaded anywhere.
pub proof fn the_closed_world_permits_no_option(tag: u64, value: u64)
    ensures
        ({
            let policy = LoadPolicy::phase0_spec();
            &&& !policy.allow_interpreter && !policy.allow_tls && !policy.allow_executable_stack
            &&& !policy.allow_unknown_program_headers
            &&& tag == 1 || tag == 2 || tag == 12 || tag == 13 || tag == 15 || tag == 16 || tag
                == 20 || tag == 22 || tag == 23 || 25 <= tag <= 29 || tag > 0x6fff_ffff || 32
                <= tag <= 37 ==> !policy.dynamic_tag_spec(tag, value)
            &&& tag == 30 ==> (policy.dynamic_tag_spec(tag, value) <==> value == 0 || value == 8)
            &&& tag == 0x6fff_fffb ==> (policy.dynamic_tag_spec(tag, value) <==> value == 0 || value
                == 1 || value == 0x800_0000 || value == 0x800_0001)
        }),
{
    assert(value & !8u64 == 0 <==> value == 0 || value == 8) by (bit_vector);
    assert(value & !(1u64 | 0x800_0000u64) == 0 <==> value == 0 || value == 1 || value == 0x800_0000
        || value == 0x800_0001) by (bit_vector);
}

} // verus!
