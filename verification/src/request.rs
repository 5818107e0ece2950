//! What a staged artifact load is asked to accept.

use crate::elf::ElfHeaderInfo;
use crate::error::{
    claim_at, fail_at, failure, ErrorContext, LoadError, LoadErrorKind, LoadResult, LoadStage,
};
use crate::identity::{ElfClass, ElfData, ElfMachine, EntryMode};
use crate::limits::LoadLimits;
use crate::reader::ElfReader;
use vstd::prelude::*;

verus! {

#[derive(Clone, Copy, Debug, PartialEq, Eq, Structural)]
pub enum ExpectedElfType {
    Dyn,
    Exec,
}

/// The identity and layout rules of an artifact.
#[derive(Clone, Copy, Debug, PartialEq, Eq, Structural)]
pub struct ArtifactProfile {
    pub class: ElfClass,
    pub endian: ElfData,
    pub machine: ElfMachine,
    pub entry_mode: EntryMode,
    pub minimum_image_alignment: u64,
}

impl ArtifactProfile {
    pub fn new(
        class: ElfClass,
        endian: ElfData,
        machine: ElfMachine,
        entry_mode: EntryMode,
        minimum_image_alignment: u64,
    ) -> (r: Self)
        ensures
            r == (ArtifactProfile { class, endian, machine, entry_mode, minimum_image_alignment }),
    {
        ArtifactProfile { class, endian, machine, entry_mode, minimum_image_alignment }
    }

    #[inline]
    pub fn class(&self) -> (r: ElfClass)
        ensures
            r == self.class,
    {
        self.class
    }

    #[inline]
    pub fn endian(&self) -> (r: ElfData)
        ensures
            r == self.endian,
    {
        self.endian
    }

    #[inline]
    pub fn entry_mode(&self) -> (r: EntryMode)
        ensures
            r == self.entry_mode,
    {
        self.entry_mode
    }

    #[inline]
    pub fn minimum_image_alignment(&self) -> (r: u64)
        ensures
            r == self.minimum_image_alignment,
    {
        self.minimum_image_alignment
    }
}

/// One artifact load.
#[derive(Clone, Copy, Debug, PartialEq, Eq, Structural)]
pub struct ArtifactRequest {
    pub expected: ExpectedElfType,
    pub profile: ArtifactProfile,
    pub limits: LoadLimits,
}

impl ArtifactRequest {
    pub fn new(expected: ExpectedElfType, profile: ArtifactProfile, limits: LoadLimits) -> (r: Self)
        ensures
            r == (ArtifactRequest { expected, profile, limits }),
    {
        ArtifactRequest { expected, profile, limits }
    }

    #[inline]
    pub fn profile(&self) -> (r: &ArtifactProfile)
        ensures
            *r == self.profile,
    {
        &self.profile
    }

    #[inline]
    pub fn limits(&self) -> (r: &LoadLimits)
        ensures
            *r == self.limits,
    {
        &self.limits
    }
}

/// The failure of a load whose artifact changed under it.
pub open spec fn changed_source() -> LoadError {
    failure(LoadStage::Mapping, LoadErrorKind::SourceChanged, ErrorContext::Nothing)
}

/// An artifact whose header was accepted.
pub struct AdmittedArtifact<R> {
    pub reader: R,
    pub header: ElfHeaderInfo,
    pub request: ArtifactRequest,
    pub file_len: u64,
}

impl<R: ElfReader> AdmittedArtifact<R> {
    pub fn new(reader: R, header: ElfHeaderInfo, request: ArtifactRequest, file_len: u64) -> (r: Self)
        ensures
            r == (AdmittedArtifact { reader, header, request, file_len }),
    {
        AdmittedArtifact { reader, header, request, file_len }
    }

    /// Fails with a changed source unless the snapshot still has the admitted
    /// length.
    pub fn ensure_snapshot(&self) -> (r: LoadResult<()>)
        ensures
            r is Ok ==> self.reader.bytes().len() == self.file_len,
            self.reader.reliable() ==> r == (if self.reader.bytes().len() == self.file_len {
                Ok::<(), LoadError>(())
            } else {
                Err::<(), LoadError>(changed_source())
            }),
            r matches Err(error) ==> error.stage == Some(LoadStage::Mapping),
    {
        let len: u64 = claim_at(self.reader.len(), LoadStage::Mapping)?;
        if len == self.file_len {
            Ok(())
        } else {
            Err(fail_at(LoadStage::Mapping, LoadErrorKind::SourceChanged, ErrorContext::Nothing))
        }
    }
}

} // verus!
