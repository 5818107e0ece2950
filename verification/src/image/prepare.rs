//! From an admitted artifact to a sealed image, all stages in a row.

use crate::address::{TargetAddr, TargetRange};
use crate::cache::{all_visible, cache_refused, CodeCache};
use crate::error::{claim, LoadError, LoadResult, LoadStage};
use crate::image::complete::{
    planned_artifacts_can_be_mapped, planned_artifacts_fit, protected_granules_lie_in_memory,
};
use crate::image::features::{DynamicFeatureSummary, Phase0ArtifactPolicy};
use crate::image::layout::{
    allocation_for, artifact_plan, is_parse_of, laid_out_headers_have_their_part,
    layouts_keep_the_entry, load_bias_spec, plan_spec, LayoutView,
};
use crate::image::loaded::{
    given_up, image_fits, lemma_image_within, lemma_region_byte, loaded_content,
    loading_fills_every_region, mapped_spec, mapping_adds_the_load_bias, region_byte, region_fits,
    regions_apart,
    regions_within, unreserved, MappedView,
};
use crate::image::metadata::artifact_metadata;
use crate::image::parser::{
    artifact_headers, headers_in, parse_spec, table_readable, unparsed, ImageLoader, ParsedView,
};
use crate::image::plan::{StageFailure, StageResult};
use crate::image::protection::{
    protection_spec, ImageProtectionMemory, ProtectionCapabilities,
};
use crate::image::records::RelocationRecord;
use crate::image::seal::{
    in_place, in_region, region_in_place, regions_in_order, seal_spec, SealRange,
};
use crate::image::sealed::{executable_spec, relocation_target, PreparedImage};
use crate::memory::{AllocationLease, ImageAllocation, ImageMemory};
use crate::reader::ElfReader;
use crate::relocation::apply::{
    addend_spec, lemma_operations_keep_length, lemma_plan_within, lemma_relocated_record,
    operations_done, place_spec, relocated_at,
    relocation_adds_the_load_bias, relocation_plan, relocation_touches_only_its_words,
};
use crate::relocation::{ArchRelocator, RelocationOperation};
use crate::request::AdmittedArtifact;
use vstd::prelude::*;

verus! {

/// The steps of a successful preparation: what the program headers say, the
/// layout, the allocation and its bytes before, the mapped state, the relocations
/// and the relocated words.
pub struct PrepareSteps {
    pub parsed: ParsedView,
    pub layout: LayoutView,
    pub allocation: ImageAllocation,
    pub before: Seq<u8>,
    pub mapped: MappedView,
    pub features: DynamicFeatureSummary,
    pub records: Seq<RelocationRecord>,
    pub words: Seq<RelocationOperation>,
}

/// The bytes of a mapped artifact before it is relocated.
pub open spec fn copied<R: ElfReader>(admitted: AdmittedArtifact<R>, steps: PrepareSteps) -> Seq<u8> {
    loaded_content(steps.before, steps.mapped, admitted.reader.bytes())
}

/// Whether these steps lead from an admitted artifact to an image with these
/// bytes.
pub open spec fn prepared_by<R: ElfReader, A: ArchRelocator>(
    admitted: AdmittedArtifact<R>,
    relocator: A,
    steps: PrepareSteps,
    content: Seq<u8>,
) -> bool {
    let bias = load_bias_spec(steps.layout, steps.allocation.base, admitted.request.expected);
    let target = relocation_target(steps.mapped);
    &&& is_parse_of(steps.parsed, admitted)
    &&& plan_spec(
        steps.parsed,
        admitted.request.profile,
        admitted.request.limits,
        Phase0ArtifactPolicy,
    ) == Ok::<LayoutView, LoadError>(steps.layout)
    &&& bias is Ok
    &&& steps.before.len() == steps.allocation.len
    &&& mapped_spec(
        admitted.request,
        steps.parsed.dynamic,
        steps.layout,
        steps.allocation,
        bias->Ok_0,
    ) == Ok::<MappedView, LoadError>(steps.mapped)
    &&& artifact_metadata(Phase0ArtifactPolicy, steps.mapped, copied(admitted, steps)) == Ok::<
        (DynamicFeatureSummary, Seq<RelocationRecord>),
        LoadError,
    >((steps.features, steps.records))
    &&& relocation_plan(
        steps.records,
        relocator,
        target,
        steps.mapped.regions,
        copied(admitted, steps),
    ) == Ok::<Seq<RelocationOperation>, LoadError>(steps.words)
    &&& content == operations_done(
        copied(admitted, steps),
        steps.words,
        steps.words.len() as int,
        target.word(),
    )
}

/// Whether an allocation has the addresses and the room of a laid out artifact, and
/// gives it a load bias.
pub open spec fn suits<R: ElfReader>(
    admitted: AdmittedArtifact<R>,
    layout: LayoutView,
    allocation: ImageAllocation,
) -> bool {
    &&& allocation.base.0 + allocation.len <= u64::MAX
    &&& layout.image_span <= allocation.len
    &&& load_bias_spec(layout, allocation.base, admitted.request.expected) is Ok
}

/// Why a laid out artifact cannot be prepared in an allocation that held these
/// bytes, in memory that protects its parts as `capabilities` says: the failure of
/// its metadata, else of its relocations, else of the protection of its parts.
pub open spec fn failure_in<R: ElfReader, A: ArchRelocator>(
    admitted: AdmittedArtifact<R>,
    relocator: A,
    capabilities: ProtectionCapabilities,
    parsed: ParsedView,
    layout: LayoutView,
    allocation: ImageAllocation,
    before: Seq<u8>,
) -> Option<LoadError> {
    let bias = load_bias_spec(layout, allocation.base, admitted.request.expected)->Ok_0;
    let mapped = mapped_spec(admitted.request, parsed.dynamic, layout, allocation, bias)->Ok_0;
    let content = loaded_content(before, mapped, admitted.reader.bytes());
    match artifact_metadata(Phase0ArtifactPolicy, mapped, content) {
        Err(error) => Some(error),
        Ok((features, records)) => match claim(
            relocation_plan(
                records,
                relocator,
                relocation_target(mapped),
                mapped.regions,
                content,
            ),
            LoadStage::Relocate,
        ) {
            Err(error) => Some(error),
            Ok(_) => match protection_spec(allocation, seal_spec(mapped)->Ok_0, capabilities) {
                Err(error) => Some(error),
                Ok(_) => None,
            },
        },
    }
}

/// The code of a laid out artifact in an allocation.
pub open spec fn executable_in<R: ElfReader>(
    admitted: AdmittedArtifact<R>,
    parsed: ParsedView,
    layout: LayoutView,
    allocation: ImageAllocation,
) -> Seq<TargetRange> {
    let bias = load_bias_spec(layout, allocation.base, admitted.request.expected)->Ok_0;
    let mapped = mapped_spec(admitted.request, parsed.dynamic, layout, allocation, bias)->Ok_0;
    let parts = seal_spec(mapped)->Ok_0;
    executable_spec(parts, parts.len() as int)
}

/// Whether the failure to prepare a laid out artifact is explained: the memory that it
/// asked for was refused or gives it no load bias, or it is the failure of the artifact
/// in that memory, or nothing is wrong with it there and the cache refused its code.
/// In memory that may fail, it may also be a failure of that memory.
pub open spec fn explained<
    R: ElfReader,
    M: ImageProtectionMemory,
    C: CodeCache,
    A: ArchRelocator,
>(
    admitted: AdmittedArtifact<R>,
    memory: M,
    cache: C,
    relocator: A,
    parsed: ParsedView,
    layout: LayoutView,
    error: LoadError,
) -> bool {
    ||| unreserved(layout, admitted.request.expected, memory, error)
    ||| exists|holding: M, lease: AllocationLease|
        #[trigger] memory.allocates(
            holding,
            allocation_for(layout, admitted.request.expected),
            Ok(lease),
        ) && match failure_in(
            admitted,
            relocator,
            memory.capabilities(),
            parsed,
            layout,
            lease.allocation,
            holding.content(),
        ) {
            Some(fault) => error == fault || !memory.reliable(),
            None => cache_refused(
                cache,
                executable_in(admitted, parsed, layout, lease.allocation),
                error,
            ) || !memory.reliable(),
        }
}

/// What the program headers of an admitted artifact say, where they can be read.
pub open spec fn parsed_artifact<R: ElfReader>(admitted: AdmittedArtifact<R>) -> LoadResult<ParsedView> {
    let header = admitted.header;
    parse_spec(
        header,
        headers_in(
            admitted.reader.bytes(),
            header.program_header_offset as int,
            header.program_header_entry_size as int,
            header.program_header_count as int,
            header.class,
            header.endian,
        ),
        admitted.file_len,
    )
}

/// Takes an admitted artifact through every stage: it is laid out, given memory,
/// copied, relocated, made visible to instruction fetch and sealed. On failure the
/// memory holds nothing new.
pub fn prepare_image<R: ElfReader, M: ImageProtectionMemory, C: CodeCache, A: ArchRelocator>(
    admitted: AdmittedArtifact<R>,
    memory: M,
    cache: &mut C,
    relocator: &A,
) -> (r: StageResult<PreparedImage<M>, M>)
    ensures
        match r {
            Err(failed) => given_up(failed.memory) || failed.memory.current() == memory.current(),
            Ok(image) => {
                &&& image.transaction.active()
                &&& image.transaction.memory.current() == Some(image.state.mapped@.allocation)
                &&& seal_spec(image.state.mapped@) == Ok::<Seq<SealRange>, LoadError>(
                    image.state.seal_plan.ranges@,
                )
                &&& all_visible(
                    *final(cache),
                    executable_spec(
                        image.state.seal_plan.ranges@,
                        image.state.seal_plan.ranges@.len() as int,
                    ),
                )
                &&& exists|steps: PrepareSteps| #[trigger]
                    prepared_by(
                        admitted,
                        *relocator,
                        steps,
                        image.transaction.memory.content(),
                    ) && steps.mapped == image.state.mapped@
            },
        },
        admitted.reader.bytes().len() <= u64::MAX && !table_readable(
            admitted.header,
            admitted.header.class,
            admitted.reader.bytes().len(),
        ) ==> (r matches Err(failed) && failed.memory == memory && (failed.error.stage == Some(
            LoadStage::Parse,
        ) || failed.error.stage == Some(LoadStage::Validate)) && (admitted.reader.reliable()
            ==> unparsed(admitted, Err::<PreparedImage<M>, LoadError>(failed.error)))),
        admitted.reader.reliable() && admitted.reader.bytes().len() == admitted.file_len
            && table_readable(
            admitted.header,
            admitted.header.class,
            admitted.reader.bytes().len(),
        ) ==> match artifact_plan(admitted, Phase0ArtifactPolicy) {
            Err(error) => r matches Err(failed) && failed.error == error && failed.memory == memory,
            Ok(layout) => r matches Err(failed) ==> explained(
                admitted,
                memory,
                *old(cache),
                *relocator,
                parsed_artifact(admitted)->Ok_0,
                layout,
                failed.error,
            ),
        },
{
    let planned = match ImageLoader::new().plan(admitted) {
        Ok(planned) => planned,
        Err(error) => return Err(StageFailure { error, memory }),
    };
    let ghost parsed = planned.parsed@;
    let ghost layout = planned.layout@;
    let reserved = planned.reserve(memory)?;
    let ghost allocation = reserved.state.allocation;
    let ghost bias = reserved.state.load_bias;
    let ghost holding = reserved.transaction.memory;
    let ghost before = holding.content();
    assert(memory.allocates(
        holding,
        allocation_for(layout, admitted.request.expected),
        Ok(reserved.transaction.pending->0),
    ));
    let ghost view = mapped_spec(
        admitted.request,
        parsed.dynamic,
        layout,
        allocation,
        bias,
    )->Ok_0;
    let ghost fate = failure_in(
        admitted,
        *relocator,
        memory.capabilities(),
        parsed,
        layout,
        allocation,
        before,
    );
    proof {
        lemma_prepares(admitted, parsed, layout, allocation, bias);
    }
    let mapped = reserved.copy_and_zero()?;
    let ghost content = mapped.transaction.memory.content();
    let runtime = match mapped.decode_runtime(&Phase0ArtifactPolicy) {
        Ok(runtime) => runtime,
        Err(failed) => {
            assert(memory.reliable() ==> fate == Some(failed.error));
            return Err(failed);
        },
    };
    let ghost features = runtime.state.metadata.features;
    let ghost records = runtime.state.metadata.relocations@;
    let relocated = match runtime.relocate(relocator) {
        Ok(relocated) => relocated,
        Err(failed) => {
            assert(memory.reliable() ==> fate == Some(failed.error));
            return Err(failed);
        },
    };
    let ghost words = relocation_plan(
        records,
        *relocator,
        relocation_target(view),
        view.regions,
        content,
    )->Ok_0;
    proof {
        memory.capabilities_are_kept(&relocated.transaction.memory);
        if protection_spec(allocation, seal_spec(view)->Ok_0, memory.capabilities()) is Ok {
            protected_granules_lie_in_memory(
                view,
                memory.capabilities(),
                protection_spec(allocation, seal_spec(view)->Ok_0, memory.capabilities())->Ok_0,
            );
        }
        let steps = PrepareSteps {
            parsed,
            layout,
            allocation,
            before,
            mapped: view,
            features,
            records,
            words,
        };
        assert(copied(admitted, steps) == content);
        assert(prepared_by(
            admitted,
            *relocator,
            steps,
            relocated.transaction.memory.content(),
        ));
    }
    match relocated.seal(cache) {
        Ok(image) => Ok(image),
        Err(failed) => {
            assert(memory.reliable() ==> fate == Some(failed.error) || (fate is None
                && cache_refused(
                *old(cache),
                executable_in(admitted, parsed, layout, allocation),
                failed.error,
            )));
            Err(failed)
        },
    }
}

/// A laid out artifact in a suitable allocation can be mapped and sealed, and fits
/// its memory and its file.
proof fn lemma_prepares<R: ElfReader>(
    admitted: AdmittedArtifact<R>,
    parsed: ParsedView,
    layout: LayoutView,
    allocation: ImageAllocation,
    bias: TargetAddr,
)
    requires
        is_parse_of(parsed, admitted),
        plan_spec(
            parsed,
            admitted.request.profile,
            admitted.request.limits,
            Phase0ArtifactPolicy,
        ) == Ok::<LayoutView, LoadError>(layout),
        suits(admitted, layout, allocation),
        load_bias_spec(layout, allocation.base, admitted.request.expected) == Ok::<
            TargetAddr,
            LoadError,
        >(bias),
    ensures
        mapped_spec(admitted.request, parsed.dynamic, layout, allocation, bias) is Ok,
        ({
            let view = mapped_spec(
                admitted.request,
                parsed.dynamic,
                layout,
                allocation,
                bias,
            )->Ok_0;
            &&& view.allocation == allocation
            &&& in_place(view)
            &&& seal_spec(view) is Ok
            &&& image_fits(view, allocation.len as nat, admitted.file_len as nat)
            &&& regions_within(view.regions, allocation.len as nat)
        }),
{
    planned_artifacts_can_be_mapped(parsed, admitted.request, layout, allocation, bias);
    let view = mapped_spec(admitted.request, parsed.dynamic, layout, allocation, bias)->Ok_0;
    let header = admitted.header;
    planned_artifacts_fit(
        header,
        headers_in(
            admitted.reader.bytes(),
            header.program_header_offset as int,
            header.program_header_entry_size as int,
            header.program_header_count as int,
            header.class,
            header.endian,
        ),
        admitted.file_len,
        parsed,
        admitted.request,
        layout,
        allocation,
        bias,
        view,
    );
    lemma_image_within(view, allocation.len as nat, admitted.file_len as nat);
}

/// A prepared image holds its file: every byte of a region that no relocated word
/// covers is the byte of the file, or zero where the file has none.
pub proof fn prepared_images_hold_their_file<R: ElfReader, A: ArchRelocator>(
    admitted: AdmittedArtifact<R>,
    relocator: A,
    steps: PrepareSteps,
    content: Seq<u8>,
    i: int,
    offset: int,
)
    requires
        prepared_by(admitted, relocator, steps, content),
        suits(admitted, steps.layout, steps.allocation),
        admitted.reader.bytes().len() == admitted.file_len,
        0 <= i < steps.mapped.regions.len(),
        in_region(steps.mapped.regions[i], offset),
        !relocated_at(steps.words, relocation_target(steps.mapped).word(), offset),
    ensures
        content[offset] == region_byte(steps.mapped.regions[i], admitted.reader.bytes(), offset),
{
    let bytes = admitted.reader.bytes();
    let mapped = steps.mapped;
    let bias = load_bias_spec(steps.layout, steps.allocation.base, admitted.request.expected)->Ok_0;
    lemma_prepares(admitted, steps.parsed, steps.layout, steps.allocation, bias);
    assert forall|a: int, b: int| 0 <= a < b < mapped.regions.len() implies regions_apart(
        #[trigger] mapped.regions[a],
        #[trigger] mapped.regions[b],
    ) by {
        assert(regions_in_order(mapped.regions[a], mapped.regions[b]));
    }
    assert forall|a: int| 0 <= a < mapped.regions.len() implies (
    #[trigger] mapped.regions[a]).allocation_offset + mapped.regions[a].vaddr_range.len
        <= mapped.image_span by {
        assert(region_in_place(mapped, mapped.regions[a]));
    }
    loading_fills_every_region(steps.before, mapped, bytes);
    let before = copied(admitted, steps);
    let word = relocation_target(mapped).word();
    lemma_plan_within(
        steps.records,
        relocator,
        relocation_target(mapped),
        mapped.regions,
        before,
        steps.words,
    );
    assert(region_fits(mapped.regions[i], before.len(), bytes.len()));
    lemma_region_byte(before, mapped.regions[i], bytes, offset);
    relocation_touches_only_its_words(before, steps.words, word, offset);
}

/// A prepared image is relocated: the word at the place of every relocation is the
/// load bias plus the addend of the relocation.
pub proof fn prepared_images_are_relocated<R: ElfReader, A: ArchRelocator>(
    admitted: AdmittedArtifact<R>,
    relocator: A,
    steps: PrepareSteps,
    content: Seq<u8>,
    i: int,
)
    requires
        prepared_by(admitted, relocator, steps, content),
        suits(admitted, steps.layout, steps.allocation),
        admitted.reader.bytes().len() == admitted.file_len,
        0 <= i < steps.records.len(),
    ensures
        ({
            let word = relocation_target(steps.mapped).word();
            let place = place_spec(steps.records[i], word, steps.mapped.regions);
            let addend = addend_spec(
                steps.records[i],
                relocator,
                word,
                steps.mapped.regions,
                copied(admitted, steps),
            );
            &&& place is Ok
            &&& addend is Ok
            &&& word.held(content, place->Ok_0) == steps.mapped.load_bias.0 + addend->Ok_0
        }),
{
    let mapped = steps.mapped;
    let bias = load_bias_spec(steps.layout, steps.allocation.base, admitted.request.expected)->Ok_0;
    lemma_prepares(admitted, steps.parsed, steps.layout, steps.allocation, bias);
    assert forall|a: int, b: int| 0 <= a < b < mapped.regions.len() implies regions_apart(
        #[trigger] mapped.regions[a],
        #[trigger] mapped.regions[b],
    ) by {
        assert(regions_in_order(mapped.regions[a], mapped.regions[b]));
    }
    assert forall|a: int| 0 <= a < mapped.regions.len() implies (
    #[trigger] mapped.regions[a]).allocation_offset + mapped.regions[a].vaddr_range.len
        <= mapped.image_span by {
        assert(region_in_place(mapped, mapped.regions[a]));
    }
    loading_fills_every_region(steps.before, mapped, admitted.reader.bytes());
    let before = copied(admitted, steps);
    lemma_plan_within(
        steps.records,
        relocator,
        relocation_target(mapped),
        mapped.regions,
        before,
        steps.words,
    );
    relocation_adds_the_load_bias(
        steps.records,
        relocator,
        relocation_target(mapped),
        mapped.regions,
        before,
        steps.words,
        i,
    );
}

proof fn lemma_prepared_len<R: ElfReader, A: ArchRelocator>(
    admitted: AdmittedArtifact<R>,
    relocator: A,
    steps: PrepareSteps,
    content: Seq<u8>,
)
    requires
        prepared_by(admitted, relocator, steps, content),
        suits(admitted, steps.layout, steps.allocation),
        admitted.reader.bytes().len() == admitted.file_len,
    ensures
        copied(admitted, steps).len() == steps.allocation.len,
        content.len() == steps.allocation.len,
{
    let mapped = steps.mapped;
    let bias = load_bias_spec(steps.layout, steps.allocation.base, admitted.request.expected)->Ok_0;
    lemma_prepares(admitted, steps.parsed, steps.layout, steps.allocation, bias);
    assert forall|a: int, b: int| 0 <= a < b < mapped.regions.len() implies regions_apart(
        #[trigger] mapped.regions[a],
        #[trigger] mapped.regions[b],
    ) by {
        assert(regions_in_order(mapped.regions[a], mapped.regions[b]));
    }
    assert forall|a: int| 0 <= a < mapped.regions.len() implies (
    #[trigger] mapped.regions[a]).allocation_offset + mapped.regions[a].vaddr_range.len
        <= mapped.image_span by {
        assert(region_in_place(mapped, mapped.regions[a]));
    }
    loading_fills_every_region(steps.before, mapped, admitted.reader.bytes());
    let before = copied(admitted, steps);
    let target = relocation_target(mapped);
    lemma_plan_within(
        steps.records,
        relocator,
        target,
        mapped.regions,
        before,
        steps.words,
    );
    lemma_operations_keep_length(before, steps.words, steps.words.len() as int, target.word());
}

/// The entry of a prepared image is the load bias plus the entry of its file, with the
/// mode bit if that has it, and its canonical entry the same without the mode bit where
/// the mode is Thumb. The load bias is the distance from the addresses of the file to
/// those of the memory, and none where the file has fixed addresses.
pub proof fn prepared_images_are_entered_at_their_entry<R: ElfReader, A: ArchRelocator>(
    admitted: AdmittedArtifact<R>,
    relocator: A,
    steps: PrepareSteps,
    content: Seq<u8>,
)
    requires
        prepared_by(admitted, relocator, steps, content),
    ensures
        steps.mapped.entry.0 == steps.mapped.load_bias.0 + admitted.header.entry,
        steps.mapped.canonical_entry.0 == if admitted.request.profile.entry_mode is Thumb
            && admitted.header.entry % 2 == 1 {
            steps.mapped.entry.0 - 1
        } else {
            steps.mapped.entry.0 as int
        },
        admitted.request.expected is Exec ==> steps.mapped.load_bias.0 == 0,
        steps.mapped.load_bias.0 + steps.layout.aligned_min_vaddr.0 == steps.allocation.base.0,
        steps.mapped.allocation == steps.allocation,
{
    let bias = load_bias_spec(steps.layout, steps.allocation.base, admitted.request.expected)->Ok_0;
    layouts_keep_the_entry(
        steps.parsed,
        admitted.request.profile,
        admitted.request.limits,
        steps.layout,
    );
    mapping_adds_the_load_bias(
        admitted.request,
        steps.parsed.dynamic,
        steps.layout,
        steps.allocation,
        bias,
        steps.mapped,
    );
}

proof fn lemma_header_region<R: ElfReader, A: ArchRelocator>(
    admitted: AdmittedArtifact<R>,
    relocator: A,
    steps: PrepareSteps,
    content: Seq<u8>,
    h: int,
) -> (k: int)
    requires
        prepared_by(admitted, relocator, steps, content),
        0 <= h < admitted.header.program_header_count,
        artifact_headers(admitted)[h].program_type == 1,
        artifact_headers(admitted)[h].memory_size > 0,
    ensures
        0 <= k < steps.mapped.regions.len(),
        ({
            let header = artifact_headers(admitted)[h];
            let region = steps.mapped.regions[k];
            &&& region.vaddr_range.start.0 == header.vaddr
            &&& region.vaddr_range.len == header.memory_size
            &&& region.file_range.offset == header.file_offset
            &&& region.file_range.len == header.file_size
            &&& header.file_size <= header.memory_size
            &&& region.allocation_offset + steps.allocation.base.0 == steps.mapped.load_bias.0
                + header.vaddr
        }),
{
    let bias = load_bias_spec(steps.layout, steps.allocation.base, admitted.request.expected)->Ok_0;
    let k = laid_out_headers_have_their_part(
        admitted.header,
        artifact_headers(admitted),
        admitted.file_len,
        steps.parsed,
        admitted.request.profile,
        admitted.request.limits,
        steps.layout,
        h,
    );
    prepared_images_are_entered_at_their_entry(admitted, relocator, steps, content);
    mapping_adds_the_load_bias(
        admitted.request,
        steps.parsed.dynamic,
        steps.layout,
        steps.allocation,
        bias,
        steps.mapped,
    );
    assert(steps.mapped.regions[k].vaddr_range == steps.layout.segments[k].vaddr_range);
    k
}

/// A prepared image holds the segments of its file. Byte `j` of a loadable program header
/// (one of type 1) stands at the load bias plus its address. It is the byte of the file
/// at the offset that the header gives, or zero behind the bytes that the file has,
/// unless a relocated word covers it.
pub proof fn prepared_images_hold_their_segments<R: ElfReader, A: ArchRelocator>(
    admitted: AdmittedArtifact<R>,
    relocator: A,
    steps: PrepareSteps,
    content: Seq<u8>,
    h: int,
    j: int,
)
    requires
        prepared_by(admitted, relocator, steps, content),
        suits(admitted, steps.layout, steps.allocation),
        admitted.reader.bytes().len() == admitted.file_len,
        0 <= h < admitted.header.program_header_count,
        artifact_headers(admitted)[h].program_type == 1,
        0 <= j < artifact_headers(admitted)[h].memory_size,
    ensures
        ({
            let header = artifact_headers(admitted)[h];
            let bytes = admitted.reader.bytes();
            let at = steps.mapped.load_bias.0 + header.vaddr + j - steps.allocation.base.0;
            let width = if admitted.request.profile.class is Elf32 {
                4int
            } else {
                8int
            };
            &&& 0 <= at < content.len()
            &&& header.file_size <= header.memory_size
            &&& {
                ||| content[at] == if j < header.file_size {
                    bytes[header.file_offset + j]
                } else {
                    0
                }
                ||| exists|i: int|
                    0 <= i < steps.records.len() && (#[trigger] steps.records[i]).offset.0
                        <= header.vaddr + j < steps.records[i].offset.0 + width
            }
        }),
{
    let header = artifact_headers(admitted)[h];
    let mapped = steps.mapped;
    let k = lemma_header_region(admitted, relocator, steps, content, h);
    let region = mapped.regions[k];
    let at = mapped.load_bias.0 + header.vaddr + j - steps.allocation.base.0;
    assert(at == region.allocation_offset + j);
    let bias = load_bias_spec(steps.layout, steps.allocation.base, admitted.request.expected)->Ok_0;
    lemma_prepares(admitted, steps.parsed, steps.layout, steps.allocation, bias);
    assert(region_in_place(mapped, region));
    assert(in_region(region, at));
    lemma_prepared_len(admitted, relocator, steps, content);
    if !relocated_at(steps.words, relocation_target(mapped).word(), at) {
        prepared_images_hold_their_file(admitted, relocator, steps, content, k, at);
    } else {
        let (i, g) = lemma_relocated_record(
            steps.records,
            relocator,
            relocation_target(mapped),
            mapped.regions,
            copied(admitted, steps),
            steps.words,
            at,
        );
        assert(region_in_place(mapped, mapped.regions[g]));
        assert(steps.records[i].offset.0 <= header.vaddr + j);
    }
}

} // verus!
