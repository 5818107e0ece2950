//! 32-bit Arm relocations.

use crate::elf::{R_ARM_ABS32, R_ARM_GLOB_DAT, R_ARM_JUMP_SLOT, R_ARM_RELATIVE};
use crate::identity::{ElfClass, ElfMachine};
use crate::relocation::{AddendEncoding, ArchRelocator, RelocationKind};
use vstd::prelude::*;

verus! {

/// Relocations of 32-bit Arm images, whose addends are kept in place.
#[derive(Clone, Copy, Debug, PartialEq, Eq, Structural)]
pub struct ArmRelocator;

impl ArchRelocator for ArmRelocator {
    open spec fn target_machine(&self) -> ElfMachine {
        ElfMachine::Arm
    }

    open spec fn target_class(&self) -> ElfClass {
        ElfClass::Elf32
    }

    open spec fn relative_code(&self) -> u32 {
        R_ARM_RELATIVE
    }

    open spec fn encoding(&self) -> AddendEncoding {
        AddendEncoding::Implicit
    }

    open spec fn kind_of(&self, raw_type: u32) -> Option<RelocationKind> {
        if raw_type == R_ARM_RELATIVE {
            Some(RelocationKind::Relative)
        } else if raw_type == R_ARM_ABS32 {
            Some(RelocationKind::Absolute)
        } else if raw_type == R_ARM_GLOB_DAT {
            Some(RelocationKind::GlobalData)
        } else if raw_type == R_ARM_JUMP_SLOT {
            Some(RelocationKind::JumpSlot)
        } else {
            None
        }
    }

    fn machine(&self) -> (r: ElfMachine) {
        ElfMachine::Arm
    }

    fn class(&self) -> (r: ElfClass) {
        ElfClass::Elf32
    }

    fn relative_type(&self) -> (r: u32) {
        R_ARM_RELATIVE
    }

    fn addend_encoding(&self) -> (r: AddendEncoding) {
        AddendEncoding::Implicit
    }

    fn classify_relocation(&self, raw_type: u32) -> (r: Option<RelocationKind>) {
        if raw_type == R_ARM_RELATIVE {
            Some(RelocationKind::Relative)
        } else if raw_type == R_ARM_ABS32 {
            Some(RelocationKind::Absolute)
        } else if raw_type == R_ARM_GLOB_DAT {
            Some(RelocationKind::GlobalData)
        } else if raw_type == R_ARM_JUMP_SLOT {
            Some(RelocationKind::JumpSlot)
        } else {
            None
        }
    }
}

/// 32-bit Arm images keep their addends in place. Type 23 is relative, 2 absolute, 21 a
/// data slot and 22 a jump slot; there is no other.
pub proof fn arm_types_have_their_meaning(relocator: ArmRelocator, raw_type: u32)
    ensures
        relocator.target_machine() is Arm,
        relocator.target_class() is Elf32,
        relocator.encoding() is Implicit,
        relocator.relative_code() == 23,
        match relocator.kind_of(raw_type) {
            Some(RelocationKind::Relative) => raw_type == 23,
            Some(RelocationKind::Absolute) => raw_type == 2,
            Some(RelocationKind::GlobalData) => raw_type == 21,
            Some(RelocationKind::JumpSlot) => raw_type == 22,
            None => raw_type != 23 && raw_type != 2 && raw_type != 21 && raw_type != 22,
        },
{
}

} // verus!
