//! 64-bit Arm relocations.

use crate::elf::{R_AARCH64_ABS64, R_AARCH64_GLOB_DAT, R_AARCH64_JUMP_SLOT, R_AARCH64_RELATIVE};
use crate::identity::{ElfClass, ElfMachine};
use crate::relocation::{AddendEncoding, ArchRelocator, RelocationKind};
use vstd::prelude::*;

verus! {

/// Relocations of 64-bit Arm images.
#[derive(Clone, Copy, Debug, PartialEq, Eq, Structural)]
pub struct AArch64Relocator;

impl ArchRelocator for AArch64Relocator {
    open spec fn target_machine(&self) -> ElfMachine {
        ElfMachine::Aarch64
    }

    open spec fn target_class(&self) -> ElfClass {
        ElfClass::Elf64
    }

    open spec fn relative_code(&self) -> u32 {
        R_AARCH64_RELATIVE
    }

    open spec fn encoding(&self) -> AddendEncoding {
        AddendEncoding::Explicit
    }

    open spec fn kind_of(&self, raw_type: u32) -> Option<RelocationKind> {
        if raw_type == R_AARCH64_RELATIVE {
            Some(RelocationKind::Relative)
        } else if raw_type == R_AARCH64_ABS64 {
            Some(RelocationKind::Absolute)
        } else if raw_type == R_AARCH64_GLOB_DAT {
            Some(RelocationKind::GlobalData)
        } else if raw_type == R_AARCH64_JUMP_SLOT {
            Some(RelocationKind::JumpSlot)
        } else {
            None
        }
    }

    fn machine(&self) -> (r: ElfMachine) {
        ElfMachine::Aarch64
    }

    fn class(&self) -> (r: ElfClass) {
        ElfClass::Elf64
    }

    fn relative_type(&self) -> (r: u32) {
        R_AARCH64_RELATIVE
    }

    fn addend_encoding(&self) -> (r: AddendEncoding) {
        AddendEncoding::Explicit
    }

    fn classify_relocation(&self, raw_type: u32) -> (r: Option<RelocationKind>) {
        if raw_type == R_AARCH64_RELATIVE {
            Some(RelocationKind::Relative)
        } else if raw_type == R_AARCH64_ABS64 {
            Some(RelocationKind::Absolute)
        } else if raw_type == R_AARCH64_GLOB_DAT {
            Some(RelocationKind::GlobalData)
        } else if raw_type == R_AARCH64_JUMP_SLOT {
            Some(RelocationKind::JumpSlot)
        } else {
            None
        }
    }
}

/// 64-bit Arm images keep their addends in the records. Type 1027 is relative, 257
/// absolute, 1025 a data slot and 1026 a jump slot; there is no other.
pub proof fn aarch64_types_have_their_meaning(relocator: AArch64Relocator, raw_type: u32)
    ensures
        relocator.target_machine() is Aarch64,
        relocator.target_class() is Elf64,
        relocator.encoding() is Explicit,
        relocator.relative_code() == 1027,
        match relocator.kind_of(raw_type) {
            Some(RelocationKind::Relative) => raw_type == 1027,
            Some(RelocationKind::Absolute) => raw_type == 257,
            Some(RelocationKind::GlobalData) => raw_type == 1025,
            Some(RelocationKind::JumpSlot) => raw_type == 1026,
            None => raw_type != 1027 && raw_type != 257 && raw_type != 1025 && raw_type != 1026,
        },
{
}

} // verus!
