//! The numbers that the kernel and an application agree on when it starts.

use vstd::prelude::*;

verus! {

/// The version of the start information.
pub const APPLICATION_START_INFO_ABI_VERSION: u32 = 1;

/// The version of a launch request.
pub const APPLICATION_LAUNCH_REQUEST_ABI_VERSION: u32 = 1;

/// One entry of the auxiliary vector.
#[derive(Clone, Copy, Debug, PartialEq, Eq, Structural)]
pub struct BlueOsAuxvEntry {
    pub key: usize,
    pub value: usize,
}

/// The end of the auxiliary vector.
pub const AT_NULL: usize = 0;

pub const AT_PHDR: usize = 3;

pub const AT_PHENT: usize = 4;

pub const AT_PHNUM: usize = 5;

pub const AT_PAGESZ: usize = 6;

pub const AT_ENTRY: usize = 9;

pub const AT_EXECFN: usize = 31;

/// The handle of the application as one number.
pub const AT_BLUEOS_HANDLE: usize = 0x1000;

/// The version of the start information that the application received.
pub const AT_BLUEOS_ABI_VERSION: usize = 0x1001;

} // verus!
