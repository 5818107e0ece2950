//! The runtime metadata of a mapped artifact.

use crate::error::{claim, claim_at, LoadError, LoadResult, LoadStage};
use crate::image::features::{ArtifactFeaturePolicy, DynamicFeatureSummary};
use crate::image::loaded::{given_up, regions_within, MappedState, MappedView, StagedImage};
use crate::image::plan::{StageFailure, StageResult};
use crate::image::records::{RelocationRecord, RelocationTableKind, TagRules};
use crate::image::tables::{
    both_tables, decode_dynamic_tags, decode_relocation_table, dynamic_tags_spec,
    relocation_table_spec, TableLimits,
};
use crate::limits::LoadLimits;
use crate::memory::{ready, ImageLoadTransaction, ImageMemory};
use vstd::prelude::*;

verus! {

/// The relocations and the dynamic features of an image.
pub struct RuntimeImageMetadata {
    pub relocations: Vec<RelocationRecord>,
    pub features: DynamicFeatureSummary,
}

impl RuntimeImageMetadata {
    #[inline]
    pub fn relocations(&self) -> (r: &[RelocationRecord])
        ensures
            r@ == self.relocations@,
    {
        self.relocations.as_slice()
    }

    #[inline]
    pub fn features(&self) -> (r: &DynamicFeatureSummary)
        ensures
            *r == self.features,
    {
        &self.features
    }
}

/// A mapped artifact and its runtime metadata.
pub struct RuntimeState {
    pub mapped: MappedState,
    pub metadata: RuntimeImageMetadata,
}

pub type RuntimeImage<M> = StagedImage<M, RuntimeState>;

impl RuntimeState {
    #[inline]
    pub fn mapped(&self) -> (r: &MappedState)
        ensures
            *r == self.mapped,
    {
        &self.mapped
    }

    #[inline]
    pub fn metadata(&self) -> (r: &RuntimeImageMetadata)
        ensures
            *r == self.metadata,
    {
        &self.metadata
    }

    pub fn into_parts(self) -> (r: (MappedState, RuntimeImageMetadata))
        ensures
            r == (self.mapped, self.metadata),
    {
        (self.mapped, self.metadata)
    }
}

/// The quotas of an artifact's relocation tables.
pub open spec fn artifact_tables(limits: LoadLimits) -> TableLimits {
    TableLimits {
        max_relocations: limits.max_relocations as u64,
        max_record_bytes: Some(limits.max_runtime_metadata_bytes),
    }
}

/// The dynamic features and the relocations of a mapped artifact, as far as the
/// policy allows them.
pub open spec fn artifact_metadata<P: ArtifactFeaturePolicy>(
    policy: P,
    mapped: MappedView,
    content: Seq<u8>,
) -> LoadResult<(DynamicFeatureSummary, Seq<RelocationRecord>)> {
    let profile = mapped.request.profile;
    match mapped.dynamic {
        None => Ok((DynamicFeatureSummary::nothing(), Seq::empty())),
        Some(dynamic) => match claim(
            dynamic_tags_spec(
                TagRules::Summarize,
                content,
                mapped.regions,
                dynamic,
                profile.class,
                profile.endian,
                mapped.request.limits.max_dynamic_entries as u64,
            ),
            LoadStage::Metadata,
        ) {
            Err(error) => Err(error),
            Ok(tags) => match policy.dynamic_verdict(tags.features) {
                Err(error) => Err(error),
                Ok(_) => match claim(
                    both_tables(
                        TagRules::Summarize,
                        content,
                        mapped.regions,
                        tags,
                        profile.class,
                        profile.endian,
                        artifact_tables(mapped.request.limits),
                    ),
                    LoadStage::Metadata,
                ) {
                    Err(error) => Err(error),
                    Ok(records) => Ok((tags.features, records)),
                },
            },
        },
    }
}

impl MappedState {
    /// Reads the runtime metadata of a mapped artifact.
    pub fn decode_runtime<M: ImageMemory, P: ArtifactFeaturePolicy>(
        self,
        transaction: &ImageLoadTransaction<M>,
        policy: &P,
    ) -> (r: LoadResult<RuntimeState>)
        ensures
            r matches Ok(runtime) ==> {
                &&& runtime.mapped == self
                &&& artifact_metadata(*policy, self@, transaction.memory.content()) == Ok::<
                    (DynamicFeatureSummary, Seq<RelocationRecord>),
                    LoadError,
                >((runtime.metadata.features, runtime.metadata.relocations@))
            },
            self@.dynamic is None ==> r is Ok,
            ready(transaction.memory) && regions_within(
                self@.regions,
                transaction.memory.content().len(),
            ) ==> match artifact_metadata(*policy, self@, transaction.memory.content()) {
                Ok(_) => r is Ok,
                Err(error) => r == Err::<RuntimeState, LoadError>(error),
            },
    {
        let mut relocations: Vec<RelocationRecord> = Vec::new();
        let mut features = DynamicFeatureSummary::default();
        if let Some(dynamic) = self.dynamic() {
            let class = self.request.profile().class();
            let endian = self.request.profile().endian();
            let limits = self.request.limits();
            let tables = TableLimits {
                max_relocations: limits.max_relocations as u64,
                max_record_bytes: Some(limits.max_runtime_metadata_bytes),
            };
            let tags = claim_at(
                decode_dynamic_tags(
                    TagRules::Summarize,
                    transaction.memory(),
                    &self.regions,
                    &dynamic,
                    class,
                    endian,
                    limits.max_dynamic_entries as u64,
                ),
                LoadStage::Metadata,
            )?;
            policy.validate_dynamic_features(&tags.features)?;
            features = tags.features;
            claim_at(
                decode_relocation_table(
                    TagRules::Summarize,
                    transaction.memory(),
                    &self.regions,
                    &tags.rel,
                    RelocationTableKind::Rel,
                    class,
                    endian,
                    &tables,
                    &mut relocations,
                ),
                LoadStage::Metadata,
            )?;
            let ghost rel = relocations@;
            assert(rel =~= relocation_table_spec(
                TagRules::Summarize,
                transaction.memory.content(),
                self@.regions,
                tags.rel,
                RelocationTableKind::Rel,
                class,
                endian,
                tables,
                0,
            )->Ok_0);
            claim_at(
                decode_relocation_table(
                    TagRules::Summarize,
                    transaction.memory(),
                    &self.regions,
                    &tags.rela,
                    RelocationTableKind::Rela,
                    class,
                    endian,
                    &tables,
                    &mut relocations,
                ),
                LoadStage::Metadata,
            )?;
        }
        Ok(RuntimeState { mapped: self, metadata: RuntimeImageMetadata { relocations, features } })
    }
}

impl<M: ImageMemory> StagedImage<M, MappedState> {
    /// Reads the runtime metadata. On failure the image is given up.
    pub fn decode_runtime<P: ArtifactFeaturePolicy>(self, policy: &P) -> (r: StageResult<
        RuntimeImage<M>,
        M,
    >)
        requires
            self.transaction.active(),
        ensures
            match r {
                Err(failed) => given_up(failed.memory),
                Ok(image) => {
                    &&& image.transaction == self.transaction
                    &&& image.state.mapped == self.state
                    &&& artifact_metadata(
                        *policy,
                        self.state@,
                        self.transaction.memory.content(),
                    ) == Ok::<(DynamicFeatureSummary, Seq<RelocationRecord>), LoadError>(
                        (image.state.metadata.features, image.state.metadata.relocations@),
                    )
                },
            },
            ready(self.transaction.memory) && regions_within(
                self.state@.regions,
                self.transaction.memory.content().len(),
            ) ==> match artifact_metadata(
                *policy,
                self.state@,
                self.transaction.memory.content(),
            ) {
                Ok(_) => r is Ok,
                Err(error) => r matches Err(failed) && failed.error == error,
            },
    {
        let (transaction, mapped) = self.into_parts();
        match mapped.decode_runtime(&transaction, policy) {
            Ok(runtime) => Ok(StagedImage::new(transaction, runtime)),
            Err(error) => Err(StageFailure { error, memory: transaction.finish() }),
        }
    }
}

} // verus!
