//! Quotas of one staged artifact load.

use crate::error::{
    fail_at, failure, ErrorContext, LimitKind, LoadError, LoadErrorKind, LoadResult, LoadStage,
};
use vstd::prelude::*;

verus! {

/// The quotas an artifact request carries.
#[derive(Clone, Copy, Debug, PartialEq, Eq, Structural)]
pub struct LoadLimits {
    pub max_file_len: u64,
    pub max_program_headers: u16,
    pub max_load_segments: u16,
    pub max_image_span: u64,
    pub max_segment_alignment: u64,
    pub max_layout_bytes: u64,
    pub max_dynamic_entries: u32,
    pub max_relocations: u32,
    pub max_runtime_metadata_bytes: u64,
    pub max_relocation_operation_bytes: u64,
}

/// The failure of a quota that `stage` enforces.
pub open spec fn over_limit(
    stage: LoadStage,
    resource: LimitKind,
    actual: u64,
    maximum: u64,
) -> LoadError {
    failure(
        stage,
        LoadErrorKind::ResourceLimit,
        ErrorContext::Limit { resource, actual, maximum },
    )
}

/// A quota that `stage` enforces allows everything up to and including its
/// maximum.
pub open spec fn within_at(
    stage: LoadStage,
    resource: LimitKind,
    actual: u64,
    maximum: u64,
) -> LoadResult<()> {
    if actual <= maximum {
        Ok(())
    } else {
        Err(over_limit(stage, resource, actual, maximum))
    }
}

impl LoadLimits {
    pub open spec fn new_spec(max_file_len: u64, max_program_headers: u16) -> Self {
        LoadLimits {
            max_file_len,
            max_program_headers,
            max_load_segments: 32,
            max_image_span: 0x400_0000,
            max_segment_alignment: 0x4000_0000,
            max_layout_bytes: 0x10_0000,
            max_dynamic_entries: 1024,
            max_relocations: 0x10_0000,
            max_runtime_metadata_bytes: 0x400_0000,
            max_relocation_operation_bytes: 0x400_0000,
        }
    }

    pub fn new(max_file_len: u64, max_program_headers: u16) -> (r: Self)
        ensures
            r == Self::new_spec(max_file_len, max_program_headers),
    {
        LoadLimits {
            max_file_len,
            max_program_headers,
            max_load_segments: 32,
            max_image_span: 64 * 1024 * 1024,
            max_segment_alignment: 1024 * 1024 * 1024,
            max_layout_bytes: 1024 * 1024,
            max_dynamic_entries: 1024,
            max_relocations: 1024 * 1024,
            max_runtime_metadata_bytes: 64 * 1024 * 1024,
            max_relocation_operation_bytes: 64 * 1024 * 1024,
        }
    }

    /// Conservative baseline for microcontroller boards.
    pub fn phase0_mcu() -> (r: Self)
        ensures
            r == (LoadLimits {
                max_file_len: 0x80_0000,
                max_program_headers: 64,
                max_load_segments: 16,
                max_image_span: 0x40_0000,
                max_segment_alignment: 0x1_0000,
                max_layout_bytes: 0x4000,
                max_dynamic_entries: 512,
                max_relocations: 0x4000,
                max_runtime_metadata_bytes: 0x8_0000,
                max_relocation_operation_bytes: 0x8_0000,
            }),
    {
        LoadLimits::new(8 * 1024 * 1024, 64).with_image_limits(
            16,
            4 * 1024 * 1024,
        ).with_layout_limits(64 * 1024, 16 * 1024).with_runtime_limits(
            512,
            16 * 1024,
        ).with_runtime_memory_limits(512 * 1024, 512 * 1024)
    }

    pub fn with_image_limits(self, max_load_segments: u16, max_image_span: u64) -> (r: Self)
        ensures
            r == (LoadLimits { max_load_segments, max_image_span, ..self }),
    {
        LoadLimits { max_load_segments, max_image_span, ..self }
    }

    pub fn with_layout_limits(self, max_segment_alignment: u64, max_layout_bytes: u64) -> (r: Self)
        ensures
            r == (LoadLimits { max_segment_alignment, max_layout_bytes, ..self }),
    {
        LoadLimits { max_segment_alignment, max_layout_bytes, ..self }
    }

    pub fn with_runtime_limits(self, max_dynamic_entries: u32, max_relocations: u32) -> (r: Self)
        ensures
            r == (LoadLimits { max_dynamic_entries, max_relocations, ..self }),
    {
        LoadLimits { max_dynamic_entries, max_relocations, ..self }
    }

    pub fn with_runtime_memory_limits(
        self,
        max_runtime_metadata_bytes: u64,
        max_relocation_operation_bytes: u64,
    ) -> (r: Self)
        ensures
            r == (LoadLimits {
                max_runtime_metadata_bytes,
                max_relocation_operation_bytes,
                ..self
            }),
    {
        LoadLimits { max_runtime_metadata_bytes, max_relocation_operation_bytes, ..self }
    }

    pub fn check_file_len(&self, actual: u64) -> (r: LoadResult<()>)
        ensures
            r == within_at(LoadStage::Validate, LimitKind::FileLength, actual, self.max_file_len),
    {
        check_limit(LoadStage::Validate, LimitKind::FileLength, actual, self.max_file_len)
    }

    pub fn check_program_header_count(&self, actual: u16) -> (r: LoadResult<()>)
        ensures
            r == within_at(
                LoadStage::Validate,
                LimitKind::ProgramHeaderCount,
                actual as u64,
                self.max_program_headers as u64,
            ),
    {
        check_limit(
            LoadStage::Validate,
            LimitKind::ProgramHeaderCount,
            actual as u64,
            self.max_program_headers as u64,
        )
    }

    pub fn check_load_segment_count(&self, actual: usize) -> (r: LoadResult<()>)
        ensures
            r == within_at(
                LoadStage::Plan,
                LimitKind::LoadSegmentCount,
                actual as u64,
                self.max_load_segments as u64,
            ),
    {
        check_limit(
            LoadStage::Plan,
            LimitKind::LoadSegmentCount,
            actual as u64,
            self.max_load_segments as u64,
        )
    }

    pub fn check_image_span(&self, actual: u64) -> (r: LoadResult<()>)
        ensures
            r == within_at(LoadStage::Plan, LimitKind::ImageSpan, actual, self.max_image_span),
    {
        check_limit(LoadStage::Plan, LimitKind::ImageSpan, actual, self.max_image_span)
    }

    pub fn check_segment_alignment(&self, actual: u64) -> (r: LoadResult<()>)
        ensures
            r == within_at(
                LoadStage::Plan,
                LimitKind::SegmentAlignment,
                actual,
                self.max_segment_alignment,
            ),
    {
        check_limit(
            LoadStage::Plan,
            LimitKind::SegmentAlignment,
            actual,
            self.max_segment_alignment,
        )
    }

    pub fn check_layout_bytes(&self, actual: u64) -> (r: LoadResult<()>)
        ensures
            r == within_at(LoadStage::Plan, LimitKind::LayoutBytes, actual, self.max_layout_bytes),
    {
        check_limit(LoadStage::Plan, LimitKind::LayoutBytes, actual, self.max_layout_bytes)
    }

    pub fn check_dynamic_entry_count(&self, actual: u64) -> (r: LoadResult<()>)
        ensures
            r == within_at(
                LoadStage::Metadata,
                LimitKind::DynamicEntryCount,
                actual,
                self.max_dynamic_entries as u64,
            ),
    {
        check_limit(
            LoadStage::Metadata,
            LimitKind::DynamicEntryCount,
            actual,
            self.max_dynamic_entries as u64,
        )
    }

    pub fn check_relocation_count(&self, actual: u64) -> (r: LoadResult<()>)
        ensures
            r == within_at(
                LoadStage::Metadata,
                LimitKind::RelocationCount,
                actual,
                self.max_relocations as u64,
            ),
    {
        check_limit(
            LoadStage::Metadata,
            LimitKind::RelocationCount,
            actual,
            self.max_relocations as u64,
        )
    }

    pub fn check_runtime_metadata_bytes(&self, actual: u64) -> (r: LoadResult<()>)
        ensures
            r == within_at(
                LoadStage::Metadata,
                LimitKind::RuntimeMetadataBytes,
                actual,
                self.max_runtime_metadata_bytes,
            ),
    {
        check_limit(
            LoadStage::Metadata,
            LimitKind::RuntimeMetadataBytes,
            actual,
            self.max_runtime_metadata_bytes,
        )
    }

    pub fn check_relocation_operation_bytes(&self, actual: u64) -> (r: LoadResult<()>)
        ensures
            r == within_at(
                LoadStage::Relocate,
                LimitKind::RelocationOperationBytes,
                actual,
                self.max_relocation_operation_bytes,
            ),
    {
        check_limit(
            LoadStage::Relocate,
            LimitKind::RelocationOperationBytes,
            actual,
            self.max_relocation_operation_bytes,
        )
    }
}

impl Default for LoadLimits {
    fn default() -> (r: Self)
        ensures
            r == Self::new_spec(0x400_0000, 128),
    {
        LoadLimits::new(64 * 1024 * 1024, 128)
    }
}

fn check_limit(stage: LoadStage, resource: LimitKind, actual: u64, maximum: u64) -> (r: LoadResult<()>)
    ensures
        r == within_at(stage, resource, actual, maximum),
{
    if actual <= maximum {
        return Ok(());
    }
    Err(
        fail_at(
            stage,
            LoadErrorKind::ResourceLimit,
            ErrorContext::Limit { resource, actual, maximum },
        ),
    )
}

/// A quota allows exactly what does not exceed its maximum.
pub proof fn quotas_allow_their_maximum(
    stage: LoadStage,
    resource: LimitKind,
    actual: u64,
    maximum: u64,
)
    ensures
        within_at(stage, resource, actual, maximum) is Ok <==> actual <= maximum,
        within_at(stage, resource, actual, maximum) matches Err(error) ==> error.stage == Some(
            stage,
        ) && error.kind is ResourceLimit,
{
}

} // verus!
