//! RISC-V relocations.

use crate::elf::{R_RISCV_32, R_RISCV_64, R_RISCV_JUMP_SLOT, R_RISCV_RELATIVE};
use crate::identity::{ElfClass, ElfMachine};
use crate::relocation::{AddendEncoding, ArchRelocator, RelocationKind};
use vstd::prelude::*;

verus! {

/// Relocations of 64-bit RISC-V images.
#[derive(Clone, Copy, Debug, PartialEq, Eq, Structural)]
pub struct Riscv64Relocator;

impl ArchRelocator for Riscv64Relocator {
    open spec fn target_machine(&self) -> ElfMachine {
        ElfMachine::Riscv
    }

    open spec fn target_class(&self) -> ElfClass {
        ElfClass::Elf64
    }

    open spec fn relative_code(&self) -> u32 {
        R_RISCV_RELATIVE
    }

    open spec fn encoding(&self) -> AddendEncoding {
        AddendEncoding::Explicit
    }

    open spec fn kind_of(&self, raw_type: u32) -> Option<RelocationKind> {
        if raw_type == R_RISCV_RELATIVE {
            Some(RelocationKind::Relative)
        } else if raw_type == R_RISCV_64 {
            Some(RelocationKind::Absolute)
        } else if raw_type == R_RISCV_JUMP_SLOT {
            Some(RelocationKind::JumpSlot)
        } else {
            None
        }
    }

    fn machine(&self) -> (r: ElfMachine) {
        ElfMachine::Riscv
    }

    fn class(&self) -> (r: ElfClass) {
        ElfClass::Elf64
    }

    fn relative_type(&self) -> (r: u32) {
        R_RISCV_RELATIVE
    }

    fn addend_encoding(&self) -> (r: AddendEncoding) {
        AddendEncoding::Explicit
    }

    fn classify_relocation(&self, raw_type: u32) -> (r: Option<RelocationKind>) {
        if raw_type == R_RISCV_RELATIVE {
            Some(RelocationKind::Relative)
        } else if raw_type == R_RISCV_64 {
            Some(RelocationKind::Absolute)
        } else if raw_type == R_RISCV_JUMP_SLOT {
            Some(RelocationKind::JumpSlot)
        } else {
            None
        }
    }
}

/// Relocations of 32-bit RISC-V images.
#[derive(Clone, Copy, Debug, PartialEq, Eq, Structural)]
pub struct Riscv32Relocator;

impl ArchRelocator for Riscv32Relocator {
    open spec fn target_machine(&self) -> ElfMachine {
        ElfMachine::Riscv
    }

    open spec fn target_class(&self) -> ElfClass {
        ElfClass::Elf32
    }

    open spec fn relative_code(&self) -> u32 {
        R_RISCV_RELATIVE
    }

    open spec fn encoding(&self) -> AddendEncoding {
        AddendEncoding::Explicit
    }

    open spec fn kind_of(&self, raw_type: u32) -> Option<RelocationKind> {
        if raw_type == R_RISCV_RELATIVE {
            Some(RelocationKind::Relative)
        } else if raw_type == R_RISCV_32 {
            Some(RelocationKind::Absolute)
        } else if raw_type == R_RISCV_JUMP_SLOT {
            Some(RelocationKind::JumpSlot)
        } else {
            None
        }
    }

    fn machine(&self) -> (r: ElfMachine) {
        ElfMachine::Riscv
    }

    fn class(&self) -> (r: ElfClass) {
        ElfClass::Elf32
    }

    fn relative_type(&self) -> (r: u32) {
        R_RISCV_RELATIVE
    }

    fn addend_encoding(&self) -> (r: AddendEncoding) {
        AddendEncoding::Explicit
    }

    fn classify_relocation(&self, raw_type: u32) -> (r: Option<RelocationKind>) {
        if raw_type == R_RISCV_RELATIVE {
            Some(RelocationKind::Relative)
        } else if raw_type == R_RISCV_32 {
            Some(RelocationKind::Absolute)
        } else if raw_type == R_RISCV_JUMP_SLOT {
            Some(RelocationKind::JumpSlot)
        } else {
            None
        }
    }
}

/// RISC-V images keep their addends in the records. Type 3 is relative, 5 a jump slot, and
/// the absolute one is 2 in 64-bit images and 1 in 32-bit ones; there is no other.
pub proof fn riscv_types_have_their_meaning(
    wide: Riscv64Relocator,
    narrow: Riscv32Relocator,
    raw_type: u32,
)
    ensures
        wide.target_machine() is Riscv && narrow.target_machine() is Riscv,
        wide.target_class() is Elf64 && narrow.target_class() is Elf32,
        wide.encoding() is Explicit && narrow.encoding() is Explicit,
        wide.relative_code() == 3 && narrow.relative_code() == 3,
        match wide.kind_of(raw_type) {
            Some(RelocationKind::Relative) => raw_type == 3,
            Some(RelocationKind::Absolute) => raw_type == 2,
            Some(RelocationKind::GlobalData) => false,
            Some(RelocationKind::JumpSlot) => raw_type == 5,
            None => raw_type != 3 && raw_type != 2 && raw_type != 5,
        },
        match narrow.kind_of(raw_type) {
            Some(RelocationKind::Relative) => raw_type == 3,
            Some(RelocationKind::Absolute) => raw_type == 1,
            Some(RelocationKind::GlobalData) => false,
            Some(RelocationKind::JumpSlot) => raw_type == 5,
            None => raw_type != 3 && raw_type != 1 && raw_type != 5,
        },
{
}

} // verus!
