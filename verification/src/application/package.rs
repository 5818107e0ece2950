//! Application packages: what an application ships, and what each of its images may
//! need.

use crate::application::system_paths::same_text;
use crate::bytes::bytes_equal;
use crate::identity::{ElfClass, ElfData, ElfMachine, ElfType, FloatAbi, LoadProfile};
use vstd::prelude::*;
use vstd::string::*;

verus! {

/// Where a declared dependency comes from.
#[derive(Clone, Copy, Debug, PartialEq, Eq, Structural)]
pub enum DependencySource {
    /// The package itself.
    PackagePrivate,
    /// The system.
    System,
}

/// A dependency that an image may have.
#[derive(Debug)]
pub struct DeclaredDependency {
    pub soname: Vec<u8>,
    pub source: DependencySource,
}

/// One image of a package.
#[derive(Debug)]
pub struct PackageImageEntry {
    pub path: String,
    pub soname: Option<Vec<u8>>,
    pub build_id: Vec<u8>,
    pub needed: Vec<DeclaredDependency>,
}

/// All that an application ships.
#[derive(Debug)]
pub struct ApplicationPackageManifest {
    pub root: PackageImageEntry,
    pub private_images: Vec<PackageImageEntry>,
    pub system_sonames: Vec<Vec<u8>>,
    pub profile: String,
}

/// The first package from `from` on whose root is at this path.
pub open spec fn package_from(
    packages: Seq<ApplicationPackageManifest>,
    path: Seq<char>,
    from: int,
) -> Option<int>
    decreases packages.len() - from,
{
    if from >= packages.len() {
        None
    } else if packages[from].root.path@ == path {
        Some(from)
    } else {
        package_from(packages, path, from + 1)
    }
}

/// Whether an image has this name.
pub open spec fn has_soname(entry: PackageImageEntry, soname: Seq<u8>) -> bool {
    match entry.soname {
        Some(name) => name@ == soname,
        None => false,
    }
}

/// The first image from `from` on with this name.
pub open spec fn private_from(images: Seq<PackageImageEntry>, soname: Seq<u8>, from: int) -> Option<int>
    decreases images.len() - from,
{
    if from >= images.len() {
        None
    } else if has_soname(images[from], soname) {
        Some(from)
    } else {
        private_from(images, soname, from + 1)
    }
}

/// The first dependency from `from` on with this name.
pub open spec fn edge_from(needed: Seq<DeclaredDependency>, soname: Seq<u8>, from: int) -> Option<int>
    decreases needed.len() - from,
{
    if from >= needed.len() {
        None
    } else if needed[from].soname@ == soname {
        Some(from)
    } else {
        edge_from(needed, soname, from + 1)
    }
}

/// The package whose root is at a path.
pub fn find_root<'a>(packages: &'a Vec<ApplicationPackageManifest>, path: &str) -> (r: Option<
    &'a ApplicationPackageManifest,
>)
    ensures
        match package_from(packages@, path@, 0) {
            Some(i) => r matches Some(package) && *package == packages@[i],
            None => r is None,
        },
{
    let mut index: usize = 0;
    while index < packages.len()
        invariant
            index <= packages@.len(),
            package_from(packages@, path@, 0) == package_from(packages@, path@, index as int),
        decreases packages@.len() - index,
    {
        if same_text(packages[index].root.path.as_str(), path) {
            return Some(&packages[index]);
        }
        index = index + 1;
    }
    None
}

/// The position of the package's own image with a name.
pub fn find_private_image(package: &ApplicationPackageManifest, soname: &[u8]) -> (r: Option<usize>)
    ensures
        match private_from(package.private_images@, soname@, 0) {
            Some(i) => r matches Some(found) && found == i && i < package.private_images@.len(),
            None => r is None,
        },
{
    let mut index: usize = 0;
    while index < package.private_images.len()
        invariant
            index <= package.private_images@.len(),
            private_from(package.private_images@, soname@, 0) == private_from(
                package.private_images@,
                soname@,
                index as int,
            ),
        decreases package.private_images@.len() - index,
    {
        if let Some(name) = &package.private_images[index].soname {
            if bytes_equal(name.as_slice(), soname) {
                return Some(index);
            }
        }
        index = index + 1;
    }
    None
}

/// The dependency on a name that an image declares.
pub fn find_edge<'a>(entry: &'a PackageImageEntry, soname: &[u8]) -> (r: Option<
    &'a DeclaredDependency,
>)
    ensures
        match edge_from(entry.needed@, soname@, 0) {
            Some(i) => r matches Some(edge) && *edge == entry.needed@[i],
            None => r is None,
        },
{
    let mut index: usize = 0;
    while index < entry.needed.len()
        invariant
            index <= entry.needed@.len(),
            edge_from(entry.needed@, soname@, 0) == edge_from(
                entry.needed@,
                soname@,
                index as int,
            ),
        decreases entry.needed@.len() - index,
    {
        if bytes_equal(entry.needed[index].soname.as_slice(), soname) {
            return Some(&entry.needed[index]);
        }
        index = index + 1;
    }
    None
}

/// Which board a profile name stands for.
#[derive(Clone, Copy, Debug, PartialEq, Eq, Structural)]
pub enum TargetBoard {
    ThumbSoft,
    ThumbHard,
    Riscv64,
    Aarch64,
    Riscv32,
}

/// The board that a profile name stands for.
pub open spec fn board_of(profile: Seq<char>) -> Option<TargetBoard> {
    if profile == "thumbv7m-vivo-blueos-newlibeabi"@ {
        Some(TargetBoard::ThumbSoft)
    } else if profile == "thumbv8m-main-vivo-blueos-newlibeabihf"@ {
        Some(TargetBoard::ThumbHard)
    } else if profile == "riscv64-vivo-blueos"@ {
        Some(TargetBoard::Riscv64)
    } else if profile == "aarch64-vivo-blueos"@ {
        Some(TargetBoard::Aarch64)
    } else if profile == "riscv32-vivo-blueos-imac"@ || profile == "riscv32-vivo-blueos-imc"@ {
        Some(TargetBoard::Riscv32)
    } else {
        None
    }
}

/// The board that a profile name stands for.
pub fn target_board(profile: &str) -> (r: Option<TargetBoard>)
    ensures
        r == board_of(profile@),
{
    if same_text(profile, "thumbv7m-vivo-blueos-newlibeabi") {
        Some(TargetBoard::ThumbSoft)
    } else if same_text(profile, "thumbv8m-main-vivo-blueos-newlibeabihf") {
        Some(TargetBoard::ThumbHard)
    } else if same_text(profile, "riscv64-vivo-blueos") {
        Some(TargetBoard::Riscv64)
    } else if same_text(profile, "aarch64-vivo-blueos") {
        Some(TargetBoard::Aarch64)
    } else if same_text(profile, "riscv32-vivo-blueos-imac") || same_text(
        profile,
        "riscv32-vivo-blueos-imc",
    ) {
        Some(TargetBoard::Riscv32)
    } else {
        None
    }
}

/// The load profile of a board.
pub open spec fn board_profile(board: TargetBoard) -> LoadProfile {
    LoadProfile {
        class: match board {
            TargetBoard::Riscv64 | TargetBoard::Aarch64 => ElfClass::Elf64,
            _ => ElfClass::Elf32,
        },
        endian: ElfData::Little,
        machine: match board {
            TargetBoard::ThumbSoft | TargetBoard::ThumbHard => ElfMachine::Arm,
            TargetBoard::Aarch64 => ElfMachine::Aarch64,
            _ => ElfMachine::Riscv,
        },
        elf_type: ElfType::Dyn,
        float_abi: if board == TargetBoard::ThumbHard {
            FloatAbi::Hard
        } else {
            FloatAbi::Soft
        },
    }
}

/// The load profile of a package. An unknown name has none: it is never taken from
/// an image.
pub fn profile_for(package: &ApplicationPackageManifest) -> (r: Result<LoadProfile, ()>)
    ensures
        match board_of(package.profile@) {
            Some(board) => r matches Ok(profile) && profile == board_profile(board),
            None => r is Err,
        },
{
    match target_board(package.profile.as_str()) {
        Some(TargetBoard::ThumbSoft) => Ok(LoadProfile::arm_thumb_soft_float(ElfType::Dyn)),
        Some(TargetBoard::ThumbHard) => Ok(LoadProfile::arm_thumb_hard_float(ElfType::Dyn)),
        Some(TargetBoard::Riscv64) => Ok(LoadProfile::riscv64(ElfType::Dyn)),
        Some(TargetBoard::Aarch64) => Ok(LoadProfile::aarch64(ElfType::Dyn)),
        Some(TargetBoard::Riscv32) => Ok(LoadProfile::riscv32(ElfType::Dyn)),
        None => Err(()),
    }
}

/// A path finds the first package whose root is at it.
pub proof fn paths_find_the_first_package(
    packages: Seq<ApplicationPackageManifest>,
    path: Seq<char>,
    from: int,
)
    requires
        0 <= from <= packages.len(),
    ensures
        match package_from(packages, path, from) {
            Some(i) => from <= i < packages.len() && packages[i].root.path@ == path
                && forall|j: int|
                from <= j < i ==> (#[trigger] packages[j]).root.path@ != path,
            None => forall|j: int|
                from <= j < packages.len() ==> (#[trigger] packages[j]).root.path@ != path,
        },
    decreases packages.len() - from,
{
    if from < packages.len() {
        paths_find_the_first_package(packages, path, from + 1);
    }
}

/// A name finds the first image of a package that has it.
pub proof fn names_find_the_first_image(images: Seq<PackageImageEntry>, soname: Seq<u8>, from: int)
    requires
        0 <= from <= images.len(),
    ensures
        match private_from(images, soname, from) {
            Some(i) => from <= i < images.len() && images[i].soname is Some
                && images[i].soname->0@ == soname && forall|j: int|
                from <= j < i ==> !((#[trigger] images[j]).soname is Some
                    && images[j].soname->0@ == soname),
            None => forall|j: int|
                from <= j < images.len() ==> !((#[trigger] images[j]).soname is Some
                    && images[j].soname->0@ == soname),
        },
    decreases images.len() - from,
{
    if from < images.len() {
        names_find_the_first_image(images, soname, from + 1);
    }
}

/// A name finds the first declared dependency that has it.
pub proof fn names_find_the_first_dependency(
    needed: Seq<DeclaredDependency>,
    soname: Seq<u8>,
    from: int,
)
    requires
        0 <= from <= needed.len(),
    ensures
        match edge_from(needed, soname, from) {
            Some(i) => from <= i < needed.len() && needed[i].soname@ == soname && forall|j: int|
                from <= j < i ==> (#[trigger] needed[j]).soname@ != soname,
            None => forall|j: int|
                from <= j < needed.len() ==> (#[trigger] needed[j]).soname@ != soname,
        },
    decreases needed.len() - from,
{
    if from < needed.len() {
        names_find_the_first_dependency(needed, soname, from + 1);
    }
}

/// The images of a board are little-endian and can be loaded anywhere. Those of a 64-bit
/// board are of the 64-bit class, and one board passes floats in float registers.
pub proof fn boards_have_their_profiles(board: TargetBoard)
    ensures
        board_profile(board).endian is Little,
        board_profile(board).elf_type is Dyn,
        board_profile(board).class is Elf64 <==> board is Riscv64 || board is Aarch64,
        board_profile(board).machine is Arm <==> board is ThumbSoft || board is ThumbHard,
        board_profile(board).machine is Aarch64 <==> board is Aarch64,
        board_profile(board).machine is Riscv <==> board is Riscv64 || board is Riscv32,
        board_profile(board).float_abi is Hard <==> board is ThumbHard,
{
}

} // verus!
