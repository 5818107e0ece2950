//! Optional features of an artifact and the policy that judges them.

use crate::address::{FileRange, TargetRange};
use crate::elf::{DF_1_NOW, DF_1_PIE, DF_BIND_NOW, DT_FLAGS, DT_FLAGS_1};
use crate::error::{
    fail_at, failure, ErrorContext, LoadError, LoadErrorKind, LoadResult, LoadStage,
    ProgramHeaderField,
};
use vstd::prelude::*;

verus! {

/// Optional program features that an artifact asks for.
#[derive(Clone, Copy, Debug, PartialEq, Eq)]
pub struct ProgramFeatureSummary {
    pub interpreter: Option<(u16, FileRange)>,
    pub tls: Option<(u16, TargetRange)>,
    pub executable_stack: Option<u16>,
}

impl ProgramFeatureSummary {
    pub open spec fn nothing() -> Self {
        ProgramFeatureSummary { interpreter: None, tls: None, executable_stack: None }
    }

    pub fn interpreter(&self) -> (r: Option<FileRange>)
        ensures
            r == (match self.interpreter {
                Some((_, range)) => Some(range),
                None => None,
            }),
    {
        match self.interpreter {
            Some((_, range)) => Some(range),
            None => None,
        }
    }

    pub fn tls(&self) -> (r: Option<TargetRange>)
        ensures
            r == (match self.tls {
                Some((_, range)) => Some(range),
                None => None,
            }),
    {
        match self.tls {
            Some((_, range)) => Some(range),
            None => None,
        }
    }

    pub fn has_executable_stack(&self) -> (r: bool)
        ensures
            r == (self.executable_stack is Some),
    {
        self.executable_stack.is_some()
    }
}

impl Default for ProgramFeatureSummary {
    fn default() -> (r: Self)
        ensures
            r == Self::nothing(),
    {
        ProgramFeatureSummary { interpreter: None, tls: None, executable_stack: None }
    }
}

/// Optional features that the dynamic table of an artifact asks for.
#[derive(Clone, Copy, Debug, PartialEq, Eq)]
pub struct DynamicFeatureSummary {
    pub extended_tag: Option<(u64, u64)>,
    pub flags: Option<u64>,
    pub flags_1: Option<u64>,
}

impl DynamicFeatureSummary {
    pub open spec fn nothing() -> Self {
        DynamicFeatureSummary { extended_tag: None, flags: None, flags_1: None }
    }

    /// The summary after an extended tag: the first one stays.
    pub open spec fn observed(self, tag: u64, value: u64) -> Self {
        if self.extended_tag is None {
            DynamicFeatureSummary { extended_tag: Some((tag, value)), ..self }
        } else {
            self
        }
    }

    pub fn first_extended_tag(&self) -> (r: Option<(u64, u64)>)
        ensures
            r == self.extended_tag,
    {
        self.extended_tag
    }

    pub fn flags(&self) -> (r: Option<u64>)
        ensures
            r == self.flags,
    {
        self.flags
    }

    pub fn flags_1(&self) -> (r: Option<u64>)
        ensures
            r == self.flags_1,
    {
        self.flags_1
    }

    pub fn observe_extended(&mut self, tag: u64, value: u64)
        ensures
            *final(self) == old(self).observed(tag, value),
    {
        if self.extended_tag.is_none() {
            self.extended_tag = Some((tag, value));
        }
    }
}

impl Default for DynamicFeatureSummary {
    fn default() -> (r: Self)
        ensures
            r == Self::nothing(),
    {
        DynamicFeatureSummary { extended_tag: None, flags: None, flags_1: None }
    }
}

/// Decides which optional features an artifact may ask for. A verdict depends on
/// the policy and the features alone.
pub trait ArtifactFeaturePolicy {
    spec fn program_verdict(&self, features: ProgramFeatureSummary) -> LoadResult<()>;

    spec fn dynamic_verdict(&self, features: DynamicFeatureSummary) -> LoadResult<()>;

    fn validate_program_features(&self, features: &ProgramFeatureSummary) -> (r: LoadResult<()>)
        ensures
            r == self.program_verdict(*features),
    ;

    fn validate_dynamic_features(&self, features: &DynamicFeatureSummary) -> (r: LoadResult<()>)
        ensures
            r == self.dynamic_verdict(*features),
    ;
}

/// The closed-world policy: no interpreter, no thread-local storage, no
/// executable stack, no dynamic features beyond relocation and binding.
#[derive(Clone, Copy, Debug, PartialEq, Eq, Structural)]
pub struct Phase0ArtifactPolicy;

/// A dynamic tag that the policy does not support.
pub open spec fn unsupported_tag(tag: u64, value: u64) -> LoadError {
    failure(
        LoadStage::Metadata,
        LoadErrorKind::UnsupportedByProfile,
        ErrorContext::DynamicTag { tag, value },
    )
}

/// A program header that the policy does not support.
pub open spec fn unsupported_header(index: u16, field: ProgramHeaderField, value: u64) -> LoadError {
    failure(
        LoadStage::Plan,
        LoadErrorKind::UnsupportedByProfile,
        ErrorContext::ProgramHeader { index, field, value },
    )
}

/// Whether `value` has a bit that is not in `allowed`.
pub open spec fn exceeds(value: u64, allowed: u64) -> bool {
    value & !allowed != 0
}

impl ArtifactFeaturePolicy for Phase0ArtifactPolicy {
    open spec fn program_verdict(&self, features: ProgramFeatureSummary) -> LoadResult<()> {
        match (features.interpreter, features.tls, features.executable_stack) {
            (Some((index, range)), _, _) => Err(
                unsupported_header(
                    index,
                    ProgramHeaderField::UnsupportedInterpreter,
                    range.offset,
                ),
            ),
            (None, Some((index, range)), _) => Err(
                unsupported_header(index, ProgramHeaderField::UnsupportedTls, range.start.0),
            ),
            (None, None, Some(index)) => Err(
                unsupported_header(index, ProgramHeaderField::ExecutableStack, 1),
            ),
            (None, None, None) => Ok(()),
        }
    }

    open spec fn dynamic_verdict(&self, features: DynamicFeatureSummary) -> LoadResult<()> {
        match features.extended_tag {
            Some((tag, value)) => Err(unsupported_tag(tag, value)),
            None => if features.flags is Some && exceeds(features.flags->0, DF_BIND_NOW) {
                Err(unsupported_tag(DT_FLAGS, features.flags->0))
            } else if features.flags_1 is Some && exceeds(
                features.flags_1->0,
                DF_1_NOW | DF_1_PIE,
            ) {
                Err(unsupported_tag(DT_FLAGS_1, features.flags_1->0))
            } else {
                Ok(())
            },
        }
    }

    fn validate_program_features(&self, features: &ProgramFeatureSummary) -> (r: LoadResult<()>) {
        if let Some((index, range)) = features.interpreter {
            return Err(
                unsupported_program_header(
                    index,
                    ProgramHeaderField::UnsupportedInterpreter,
                    range.offset(),
                ),
            );
        }
        if let Some((index, range)) = features.tls {
            return Err(
                unsupported_program_header(
                    index,
                    ProgramHeaderField::UnsupportedTls,
                    range.start().get(),
                ),
            );
        }
        if let Some(index) = features.executable_stack {
            return Err(unsupported_program_header(index, ProgramHeaderField::ExecutableStack, 1));
        }
        Ok(())
    }

    fn validate_dynamic_features(&self, features: &DynamicFeatureSummary) -> (r: LoadResult<()>) {
        if let Some((tag, value)) = features.extended_tag {
            return Err(unsupported_dynamic(tag, value));
        }
        if let Some(value) = features.flags {
            if value & !DF_BIND_NOW != 0 {
                return Err(unsupported_dynamic(DT_FLAGS, value));
            }
        }
        if let Some(value) = features.flags_1 {
            if value & !(DF_1_NOW | DF_1_PIE) != 0 {
                return Err(unsupported_dynamic(DT_FLAGS_1, value));
            }
        }
        Ok(())
    }
}

fn unsupported_dynamic(tag: u64, value: u64) -> (r: LoadError)
    ensures
        r == unsupported_tag(tag, value),
{
    fail_at(
        LoadStage::Metadata,
        LoadErrorKind::UnsupportedByProfile,
        ErrorContext::DynamicTag { tag, value },
    )
}

fn unsupported_program_header(index: u16, field: ProgramHeaderField, value: u64) -> (r: LoadError)
    ensures
        r == unsupported_header(index, field, value),
{
    fail_at(
        LoadStage::Plan,
        LoadErrorKind::UnsupportedByProfile,
        ErrorContext::ProgramHeader { index, field, value },
    )
}

/// The closed-world policy takes an artifact exactly if it asks for no interpreter, no
/// thread-local storage and no executable stack.
pub proof fn the_closed_world_takes_plain_programs(
    policy: Phase0ArtifactPolicy,
    features: ProgramFeatureSummary,
)
    ensures
        policy.program_verdict(features) is Ok <==> features.interpreter is None && features.tls
            is None && features.executable_stack is None,
{
}

/// The closed-world policy takes dynamic entries exactly if none has an extended tag and no
/// flag is set but those for binding at once and for a program that is loaded anywhere.
pub proof fn the_closed_world_takes_plain_entries(
    policy: Phase0ArtifactPolicy,
    features: DynamicFeatureSummary,
)
    ensures
        policy.dynamic_verdict(features) is Ok <==> features.extended_tag is None && (
        features.flags matches Some(flags) ==> flags == 0 || flags == 8) && (
        features.flags_1 matches Some(flags) ==> flags == 0 || flags == 1 || flags == 0x800_0000
            || flags == 0x800_0001),
{
    let flags = features.flags->0;
    let flags_1 = features.flags_1->0;
    assert(flags & !8u64 != 0 <==> !(flags == 0 || flags == 8)) by (bit_vector);
    assert(flags_1 & !(1u64 | 0x800_0000u64) != 0 <==> !(flags_1 == 0 || flags_1 == 1 || flags_1
        == 0x800_0000 || flags_1 == 0x800_0001)) by (bit_vector);
}

} // verus!
