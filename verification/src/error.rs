//! Structured load failures.

use crate::address::TargetAddr;
use vstd::prelude::*;

verus! {

pub type LoadResult<T> = core::result::Result<T, LoadError>;

/// The pipeline stage that rejected an input.
#[derive(Clone, Copy, Debug, PartialEq, Eq, Structural)]
pub enum LoadStage {
    Admit,
    Validate,
    Parse,
    Inspect,
    Plan,
    Allocate,
    Mapping,
    Metadata,
    Decode,
    Relocate,
    Cache,
    Seal,
    Publish,
    Beginning,
    Discover,
    Scope,
    LinkSeal,
}

#[derive(Clone, Copy, Debug, PartialEq, Eq, Structural)]
pub enum LoadErrorKind {
    BadElf,
    UnsupportedByProfile,
    OutOfBounds,
    IntegerOverflow,
    ResourceLimit,
    OutOfMemory,
    InvalidAlignment,
    PermissionConflict,
    Backend,
    Io,
    SourceChanged,
    IncorrectLayout,
    NotAllocated,
    IdentityConflict,
}

#[derive(Clone, Copy, Debug, PartialEq, Eq, Structural)]
pub enum HeaderField {
    Magic,
    Class,
    Endian,
    Version,
    OsAbi,
    Type,
    Machine,
    Flags,
    Entry,
    HeaderSize,
    ProgramHeaderSize,
    ProgramHeaderTable,
}

#[derive(Clone, Copy, Debug, PartialEq, Eq, Structural)]
pub enum LimitKind {
    FileLength,
    ProgramHeaderCount,
    LoadSegmentCount,
    ImageSpan,
    SegmentAlignment,
    LayoutBytes,
    DynamicEntryCount,
    RelocationCount,
    RuntimeMetadataBytes,
    RelocationOperationBytes,
    ProtectionRangeCount,
    ImageCount,
    DependencyEdgeCount,
    DependencyDepth,
    DependencyNameLength,
}

#[derive(Clone, Copy, Debug, PartialEq, Eq, Structural)]
pub enum ProgramHeaderField {
    Type,
    FileRange,
    VirtualRange,
    DuplicateDynamic,
    DuplicateRelro,
    DuplicateStack,
    DuplicateInterpreter,
    DuplicateTls,
    UnsupportedInterpreter,
    UnsupportedTls,
    ExecutableStack,
    Align,
    UnknownField,
}

/// What a failure was about.
#[allow(inconsistent_fields)]
#[derive(Debug, PartialEq, Eq)]
pub enum ErrorContext {
    Nothing,
    FileRange { offset: u64, len: u64, file_len: u64 },
    HeaderField { field: HeaderField, value: u64 },
    TargetRange { start: TargetAddr, len: u64, align: u64 },
    ProgramHeader { index: u16, field: ProgramHeaderField, value: u64 },
    Allocation { base: TargetAddr, len: u64, align: u64 },
    MemoryAccess {
        allocation_base: TargetAddr,
        allocation_len: u64,
        allocation_align: u64,
        offset: u64,
        len: u64,
    },
    DynamicTag { tag: u64, value: u64 },
    Relocation { offset: TargetAddr, raw_type: u32, symbol_index: u32 },
    Limit { resource: LimitKind, actual: u64, maximum: u64 },
    Dependency { requester: u32, needed: Vec<u8> },
}

/// A load failure. The stage is attached by the first stage that claims it.
#[derive(Debug, PartialEq, Eq)]
pub struct LoadError {
    pub stage: Option<LoadStage>,
    pub kind: LoadErrorKind,
    pub context: ErrorContext,
}

impl LoadError {
    /// This error as `stage` reports it: an already attached stage stays.
    pub open spec fn claimed_by(self, stage: LoadStage) -> LoadError {
        LoadError {
            stage: if self.stage is Some {
                self.stage
            } else {
                Some(stage)
            },
            kind: self.kind,
            context: self.context,
        }
    }

    #[inline]
    pub fn new(kind: LoadErrorKind, context: ErrorContext) -> (r: Self)
        ensures
            r.stage is None,
            r.kind == kind,
            r.context == context,
    {
        LoadError { stage: None, kind, context }
    }

    #[inline]
    pub fn at_stage(self, stage: LoadStage) -> (r: Self)
        ensures
            r == self.claimed_by(stage),
    {
        match self.stage {
            Some(_) => self,
            None => LoadError { stage: Some(stage), kind: self.kind, context: self.context },
        }
    }

    #[inline]
    pub fn stage(&self) -> (r: Option<LoadStage>)
        ensures
            r == self.stage,
    {
        self.stage
    }

    #[inline]
    pub fn kind(&self) -> (r: LoadErrorKind)
        ensures
            r == self.kind,
    {
        self.kind
    }

    #[inline]
    pub fn context(&self) -> (r: &ErrorContext)
        ensures
            *r == self.context,
    {
        &self.context
    }
}

/// The error `kind` about `context` as reported by `stage`.
pub open spec fn failure(stage: LoadStage, kind: LoadErrorKind, context: ErrorContext) -> LoadError {
    LoadError { stage: Some(stage), kind, context }
}

/// The error `kind` about `context` before any stage has claimed it.
pub open spec fn unclaimed(kind: LoadErrorKind, context: ErrorContext) -> LoadError {
    LoadError { stage: None, kind, context }
}

/// `result` as `stage` reports it.
pub open spec fn claim<T>(result: LoadResult<T>, stage: LoadStage) -> LoadResult<T> {
    match result {
        Ok(value) => Ok(value),
        Err(error) => Err(error.claimed_by(stage)),
    }
}

/// Builds the error `kind` about `context` on behalf of `stage`.
#[inline]
pub fn fail_at(stage: LoadStage, kind: LoadErrorKind, context: ErrorContext) -> (r: LoadError)
    ensures
        r == failure(stage, kind, context),
{
    LoadError { stage: Some(stage), kind, context }
}

/// Attaches `stage` to the error of `result`, if there is one without a stage.
#[inline]
pub fn claim_at<T>(result: LoadResult<T>, stage: LoadStage) -> (r: LoadResult<T>)
    ensures
        r == claim(result, stage),
{
    match result {
        Ok(value) => Ok(value),
        Err(error) => Err(error.at_stage(stage)),
    }
}

/// The stage that reports an error first is the one that stays attached.
pub proof fn first_stage_stays(error: LoadError, first: LoadStage, second: LoadStage)
    ensures
        error.claimed_by(first).claimed_by(second) == error.claimed_by(first),
        error.claimed_by(first).stage is Some,
        error.stage is None ==> error.claimed_by(first).stage == Some(first),
        error.stage is Some ==> error.claimed_by(first) == error,
        error.claimed_by(first).kind == error.kind,
        error.claimed_by(first).context == error.context,
{
}

} // verus!
