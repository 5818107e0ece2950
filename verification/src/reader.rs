//! Positioned reads of an ELF artifact.

use crate::address::FileRange;
use crate::bytes::copy_range;
use crate::error::{LoadError, LoadResult};
use vstd::prelude::*;

verus! {

/// The bytes of a snapshot, as specifications see them.
pub type SnapshotBytes = Seq<u8>;

/// A read-only view of one artifact snapshot.
pub trait ElfReader {
    /// The bytes of the snapshot.
    spec fn bytes(&self) -> SnapshotBytes;

    /// Whether every read within the snapshot succeeds.
    spec fn reliable(&self) -> bool;

    fn len(&self) -> (r: LoadResult<u64>)
        ensures
            r matches Ok(n) ==> n == self.bytes().len(),
            r matches Err(error) ==> error.stage is None,
            self.reliable() ==> r is Ok,
    ;

    /// Reads exactly `count` bytes from `offset` on. Which stage a failure belongs to
    /// is for the caller to say.
    fn read_exact_at(&self, offset: u64, count: usize) -> (r: LoadResult<Vec<u8>>)
        ensures
            r matches Ok(data) ==> offset + count <= self.bytes().len() && data@
                == self.bytes().subrange(offset as int, offset + count),
            r matches Err(error) ==> error.stage is None,
            self.reliable() && offset + count <= self.bytes().len() ==> r is Ok,
    ;
}

/// A reader over bytes that are already in memory.
pub struct SliceElfReader<'a> {
    pub data: &'a [u8],
}

impl<'a> SliceElfReader<'a> {
    pub fn new(data: &'a [u8]) -> (r: Self)
        ensures
            r.data@ == data@,
    {
        SliceElfReader { data }
    }
}

impl<'a> ElfReader for SliceElfReader<'a> {
    open spec fn bytes(&self) -> Seq<u8> {
        self.data@
    }

    /// Bytes in memory can always be read.
    open spec fn reliable(&self) -> bool {
        true
    }

    fn len(&self) -> (r: LoadResult<u64>)
        ensures
            r is Ok,
    {
        Ok(self.data.len() as u64)
    }

    fn read_exact_at(&self, offset: u64, count: usize) -> (r: LoadResult<Vec<u8>>)
        ensures
            match (FileRange { offset, len: count as u64 }).validate_spec(self.data@.len() as u64) {
                Ok(_) => r is Ok,
                Err(error) => r == Err::<Vec<u8>, LoadError>(error.unstaged_spec()),
            },
    {
        match FileRange::new(offset, count as u64).validate(self.data.len() as u64) {
            Ok(_) => {},
            Err(error) => return Err(error.unstaged()),
        }
        let start: usize = offset as usize;
        Ok(copy_range(self.data, start, start + count))
    }
}

} // verus!
