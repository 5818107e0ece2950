//! Which relocations each architecture applies.

use blueos_loader::relocation::aarch64::AArch64Relocator;
use blueos_loader::relocation::arm::ArmRelocator;
use blueos_loader::relocation::riscv::{Riscv32Relocator, Riscv64Relocator};
use blueos_loader::relocation::{ArchRelocator, RelocationKind};
use goblin::elf::reloc::{
    R_AARCH64_ABS64, R_AARCH64_COPY, R_AARCH64_GLOB_DAT, R_AARCH64_IRELATIVE, R_AARCH64_JUMP_SLOT,
    R_AARCH64_RELATIVE, R_AARCH64_TLSDESC, R_ARM_ABS32, R_ARM_COPY, R_ARM_GLOB_DAT,
    R_ARM_JUMP_SLOT, R_ARM_RELATIVE, R_RISCV_32, R_RISCV_64, R_RISCV_COPY, R_RISCV_JUMP_SLOT,
    R_RISCV_RELATIVE, R_RISCV_TLS_DTPMOD64,
};

#[test]
fn classifies_only_phase2_now_relocations() {
    let relocator = AArch64Relocator;
    assert_eq!(
        relocator.classify_relocation(R_AARCH64_RELATIVE),
        Some(RelocationKind::Relative)
    );
    assert_eq!(
        relocator.classify_relocation(R_AARCH64_ABS64),
        Some(RelocationKind::Absolute)
    );
    assert_eq!(
        relocator.classify_relocation(R_AARCH64_GLOB_DAT),
        Some(RelocationKind::GlobalData)
    );
    assert_eq!(
        relocator.classify_relocation(R_AARCH64_JUMP_SLOT),
        Some(RelocationKind::JumpSlot)
    );
    assert_eq!(relocator.classify_relocation(R_AARCH64_COPY), None);
    assert_eq!(relocator.classify_relocation(R_AARCH64_IRELATIVE), None);
    assert_eq!(relocator.classify_relocation(R_AARCH64_TLSDESC), None);
}

#[test]
fn rv64_classifies_only_phase2_now_relocations() {
    let relocator = Riscv64Relocator;
    assert_eq!(
        relocator.classify_relocation(R_RISCV_RELATIVE),
        Some(RelocationKind::Relative)
    );
    assert_eq!(
        relocator.classify_relocation(R_RISCV_64),
        Some(RelocationKind::Absolute)
    );
    assert_eq!(
        relocator.classify_relocation(R_RISCV_JUMP_SLOT),
        Some(RelocationKind::JumpSlot)
    );
    assert_eq!(relocator.classify_relocation(R_RISCV_32), None);
    assert_eq!(relocator.classify_relocation(R_RISCV_COPY), None);
    assert_eq!(relocator.classify_relocation(R_RISCV_TLS_DTPMOD64), None);
}

#[test]
fn rv32_classifies_only_phase2_now_relocations() {
    let relocator = Riscv32Relocator;
    assert_eq!(
        relocator.classify_relocation(R_RISCV_RELATIVE),
        Some(RelocationKind::Relative)
    );
    assert_eq!(
        relocator.classify_relocation(R_RISCV_32),
        Some(RelocationKind::Absolute)
    );
    assert_eq!(
        relocator.classify_relocation(R_RISCV_JUMP_SLOT),
        Some(RelocationKind::JumpSlot)
    );
    assert_eq!(relocator.classify_relocation(R_RISCV_64), None);
    assert_eq!(relocator.classify_relocation(R_RISCV_COPY), None);
}

#[test]
fn arm_classifies_its_relocations() {
    let relocator = ArmRelocator;
    assert_eq!(
        relocator.classify_relocation(R_ARM_RELATIVE),
        Some(RelocationKind::Relative)
    );
    assert_eq!(
        relocator.classify_relocation(R_ARM_ABS32),
        Some(RelocationKind::Absolute)
    );
    assert_eq!(
        relocator.classify_relocation(R_ARM_GLOB_DAT),
        Some(RelocationKind::GlobalData)
    );
    assert_eq!(
        relocator.classify_relocation(R_ARM_JUMP_SLOT),
        Some(RelocationKind::JumpSlot)
    );
    assert_eq!(relocator.classify_relocation(R_ARM_COPY), None);
}
