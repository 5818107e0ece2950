//! Bringing one image of a link into memory.
//!
//! The image goes through the stages of single images: its header is read, its
//! program headers are inspected, its place is planned and allocated, and its
//! segments are copied. What it says about its symbols and dependencies is then
//! decoded from memory.

use crate::dynamic_linker::artifact::ArtifactRole;
use crate::dynamic_linker::metadata::{ImageLayout, RuntimeImageMetadata, RuntimeImageState};
use crate::elf::{ElfHeaderInfo, LoadSegmentInfo, ProgramHeaderFields};
use crate::error::{
    claim, claim_at, fail_at, failure, ErrorContext, LimitKind, LoadError, LoadErrorKind,
    LoadResult, LoadStage,
};
use crate::identity::{within, LoadLimits, LoadPolicy, LoadProfile, LoadRequest};
use crate::image::admission::{admission_fault, admit_image, inspect_spec, Inspection};
use crate::image::complete::planned_images_fit;
use crate::image::inspect::{image_plan, plans_keep_their_segments};
use crate::image::loaded::{
    loaded_content, mapping_adds_the_load_bias, MappedState, MappedView,
};
use crate::image::map::{artifact_request_spec, plan_layout_spec, plan_mapped};
use crate::image::parser::{headers_in, table_readable};
use crate::image::plan::{
    bias_spec, plans_get_the_memory_that_they_ask_for, request_spec, unallocated, PlannedView,
};
use crate::load::{admitted_header, elf_contents, read_header};
use crate::memory::{AllocationLease, ImageAllocation, ImageBytes, ImageMemory};
use crate::reader::ElfReader;
use vstd::prelude::*;

verus! {

/// How an image is loaded for a link.
#[derive(Clone, Copy, Debug, PartialEq, Eq, Structural)]
pub struct RuntimeTerms {
    pub profile: LoadProfile,
    pub role: ArtifactRole,
    pub policy: LoadPolicy,
    pub limits: LoadLimits,
}

/// Decodes what an image in memory says about its symbols, its dependencies and its
/// functions.
pub trait RuntimeDecoder: Sized {
    /// Whether decoding an image with these bytes can leave the decoder as `after`
    /// with this outcome.
    spec fn decodes(
        &self,
        after: Self,
        mapped: MappedView,
        content: ImageBytes,
        terms: RuntimeTerms,
        outcome: LoadResult<RuntimeImageMetadata>,
    ) -> bool;

    fn decode<M: ImageMemory>(&mut self, memory: &M, mapped: &MappedState, terms: &RuntimeTerms) -> (r:
        LoadResult<RuntimeImageMetadata>)
        ensures
            old(self).decodes(*final(self), mapped@, memory.content(), *terms, r),
    ;
}

/// The request of a load under these terms.
pub open spec fn runtime_request(terms: RuntimeTerms) -> LoadRequest {
    LoadRequest { profile: terms.profile, limits: terms.limits }
}

/// The program headers of a file with this header.
pub open spec fn runtime_headers(bytes: Seq<u8>, header: ElfHeaderInfo, terms: RuntimeTerms) -> Seq<
    ProgramHeaderFields,
> {
    headers_in(
        bytes,
        header.program_header_offset as int,
        header.program_header_entry_size as int,
        header.program_header_count as int,
        terms.profile.class,
        terms.profile.endian,
    )
}

/// The header of a file, or why the file is not admitted.
pub open spec fn runtime_header(bytes: Seq<u8>, terms: RuntimeTerms) -> LoadResult<ElfHeaderInfo> {
    let length = claim(
        within(LimitKind::FileLength, bytes.len() as u64, terms.limits.max_file_len),
        LoadStage::Admit,
    );
    if length is Err {
        Err(length->Err_0)
    } else if bytes.len() > usize::MAX {
        Err(failure(LoadStage::Admit, LoadErrorKind::OutOfMemory, ErrorContext::Nothing))
    } else {
        match admitted_header(elf_contents(bytes), terms.profile) {
            Err(error) => Err(error),
            Ok(header) => match admission_fault(
                header,
                runtime_request(terms),
                bytes.len() as u64,
            ) {
                Err(error) => Err(error),
                Ok(_) => Ok(header),
            },
        }
    }
}

/// What the program headers of a file say, or why they are refused.
pub open spec fn runtime_inspection(bytes: Seq<u8>, terms: RuntimeTerms) -> LoadResult<Inspection> {
    match runtime_header(bytes, terms) {
        Err(error) => Err(error),
        Ok(header) => inspect_spec(
            runtime_request(terms),
            header.machine,
            runtime_headers(bytes, header, terms),
            bytes.len() as u64,
            terms.policy,
        ),
    }
}

/// The plan of a file, or why there is none.
pub open spec fn runtime_plan(bytes: Seq<u8>, terms: RuntimeTerms) -> LoadResult<PlannedView> {
    match runtime_inspection(bytes, terms) {
        Err(error) => Err(error),
        Ok(found) => match image_plan(
            runtime_request(terms),
            runtime_header(bytes, terms)->Ok_0,
            found,
        ) {
            Err(error) => Err(error),
            Ok(plan) => match request_spec(plan, terms.profile.elf_type) {
                Err(error) => Err(error),
                Ok(_) => Ok(plan),
            },
        },
    }
}

/// Whether the program headers of an admitted file lie in the file.
pub open spec fn runtime_readable(bytes: Seq<u8>, terms: RuntimeTerms) -> bool {
    runtime_header(bytes, terms) matches Ok(header) ==> table_readable(
        header,
        terms.profile.class,
        bytes.len(),
    )
}

/// The state of a planned image that is mapped and decoded.
pub open spec fn is_runtime(
    plan: PlannedView,
    mapped: MappedView,
    metadata: RuntimeImageMetadata,
    runtime: RuntimeImageState,
) -> bool {
    &&& runtime.layout.allocation == mapped.allocation
    &&& runtime.regions@ == mapped.regions
    &&& runtime.load_segments@ == plan.found.load_segments
    &&& runtime.metadata == metadata
    &&& runtime.load_bias == mapped.load_bias
    &&& runtime.runtime_entry == mapped.entry
    &&& runtime.canonical_runtime_entry == mapped.canonical_entry
    &&& runtime.relro == plan.found.relro
    &&& runtime.stack == plan.found.stack
}

/// The place of a planned file in an allocation.
pub open spec fn runtime_mapped(
    plan: PlannedView,
    terms: RuntimeTerms,
    allocation: ImageAllocation,
) -> LoadResult<MappedView> {
    match bias_spec(
        plan,
        request_spec(plan, terms.profile.elf_type)->Ok_0,
        terms.profile.class,
        allocation,
    ) {
        Err(error) => Err(error),
        Ok(bias) => plan_mapped(plan, runtime_request(terms), allocation, bias),
    }
}

/// Whether the image of a file with these bytes was loaded into an allocation that
/// held `before`, and decoded as `runtime`.
pub open spec fn runtime_loaded<M: ImageMemory, D: RuntimeDecoder>(
    bytes: Seq<u8>,
    terms: RuntimeTerms,
    before: Seq<u8>,
    memory: M,
    decoder: D,
    after: D,
    lease: AllocationLease,
    runtime: RuntimeImageState,
) -> bool {
    let plan = runtime_plan(bytes, terms);
    let mapped = runtime_mapped(plan->Ok_0, terms, lease.allocation);
    &&& plan is Ok
    &&& mapped is Ok
    &&& memory.current() == Some(lease.allocation)
    &&& memory.content() == loaded_content(before, mapped->Ok_0, bytes)
    &&& decoder.decodes(after, mapped->Ok_0, memory.content(), terms, Ok(runtime.metadata))
    &&& is_runtime(plan->Ok_0, mapped->Ok_0, runtime.metadata, runtime)
}

/// Whether the failure to load a planned file is explained: the memory that it asked
/// for was refused or cannot be used, or the file has no place in it, or it is what the
/// decoder answered for the file there. In memory that may fail, it may also be a
/// failure of the memory that was given.
pub open spec fn runtime_failed<M: ImageMemory, D: RuntimeDecoder>(
    bytes: Seq<u8>,
    plan: PlannedView,
    terms: RuntimeTerms,
    memory: M,
    decoder: D,
    after: D,
    error: LoadError,
) -> bool {
    match request_spec(plan, terms.profile.elf_type) {
        Err(fault) => error == fault,
        Ok(asked) => {
            ||| unallocated(plan, asked, terms.profile.class, memory, error)
            ||| exists|holding: M, lease: AllocationLease|
                #[trigger] memory.allocates(holding, asked, Ok(lease)) && (!memory.reliable()
                    || runtime_mapped(plan, terms, lease.allocation) == Err::<
                    MappedView,
                    LoadError,
                >(error) || undecodable(
                    bytes,
                    plan,
                    terms,
                    lease.allocation,
                    holding.content(),
                    decoder,
                    after,
                    error,
                ))
        },
    }
}

/// Whether a decoder refuses a planned file with this failure, in an allocation that
/// held these bytes.
pub open spec fn undecodable<D: RuntimeDecoder>(
    bytes: Seq<u8>,
    plan: PlannedView,
    terms: RuntimeTerms,
    allocation: ImageAllocation,
    before: Seq<u8>,
    decoder: D,
    after: D,
    error: LoadError,
) -> bool {
    runtime_mapped(plan, terms, allocation) matches Ok(mapped) && decoder.decodes(
        after,
        mapped,
        loaded_content(before, mapped, bytes),
        terms,
        Err(error),
    )
}

/// What a load can come to: an image in memory and its state, or a failure that
/// leaves no image behind. A file that has no plan fails for that reason, and neither
/// memory nor decoder are asked.
pub open spec fn runtime_outcome<R: ElfReader, M: ImageMemory, D: RuntimeDecoder>(
    reader: R,
    terms: RuntimeTerms,
    memory: M,
    memory_after: M,
    decoder: D,
    decoder_after: D,
    outcome: LoadResult<(AllocationLease, RuntimeImageState)>,
) -> bool {
    match outcome {
        Ok((lease, runtime)) => exists|holding: M|
            #[trigger] memory.allocates(
                holding,
                request_spec(
                    runtime_plan(reader.bytes(), terms)->Ok_0,
                    terms.profile.elf_type,
                )->Ok_0,
                Ok(lease),
            ) && runtime_loaded(
                reader.bytes(),
                terms,
                holding.content(),
                memory_after,
                decoder,
                decoder_after,
                lease,
                runtime,
            ),
        Err(error) => {
            &&& memory_after.current() is None || memory_after.current() == memory.current()
            &&& reader.reliable() && reader.bytes().len() <= u64::MAX && runtime_readable(
                reader.bytes(),
                terms,
            ) ==> match runtime_plan(reader.bytes(), terms) {
                Err(fault) => error == fault && memory_after == memory && decoder_after == decoder,
                Ok(plan) => runtime_failed(
                    reader.bytes(),
                    plan,
                    terms,
                    memory,
                    decoder,
                    decoder_after,
                    error,
                ),
            }
        },
    }
}

fn copy_segments(segments: &Vec<LoadSegmentInfo>) -> (r: Vec<LoadSegmentInfo>)
    ensures
        r@ == segments@,
{
    let mut out: Vec<LoadSegmentInfo> = Vec::new();
    let mut index: usize = 0;
    while index < segments.len()
        invariant
            index <= segments@.len(),
            out@ == segments@.subrange(0, index as int),
        decreases segments@.len() - index,
    {
        out.push(segments[index]);
        assert(segments@.subrange(0, index + 1) =~= segments@.subrange(0, index as int).push(
            segments@[index as int],
        ));
        index = index + 1;
    }
    assert(segments@.subrange(0, index as int) =~= segments@);
    out
}

/// Reads the header of a file, if the file is not too long.
fn admit_header<R: ElfReader>(reader: &R, terms: &RuntimeTerms) -> (r: LoadResult<ElfHeaderInfo>)
    ensures
        r matches Ok(header) ==> reader.bytes().len() <= usize::MAX && claim(
            within(
                LimitKind::FileLength,
                reader.bytes().len() as u64,
                terms.limits.max_file_len,
            ),
            LoadStage::Admit,
        ) is Ok && admitted_header(
            elf_contents(reader.bytes()),
            terms.profile,
        ) == Ok::<ElfHeaderInfo, LoadError>(header),
        r matches Err(error) ==> reader.reliable() && reader.bytes().len() <= u64::MAX
            ==> runtime_header(reader.bytes(), *terms) == Err::<ElfHeaderInfo, LoadError>(error),
{
    let file_len: u64 = claim_at(reader.len(), LoadStage::Admit)?;
    claim_at(terms.limits.check_file_len(file_len), LoadStage::Admit)?;
    if file_len > usize::MAX as u64 {
        return Err(fail_at(LoadStage::Admit, LoadErrorKind::OutOfMemory, ErrorContext::Nothing));
    }
    let bytes = claim_at(reader.read_exact_at(0, file_len as usize), LoadStage::Admit)?;
    assert(bytes@ =~= reader.bytes());
    read_header(bytes.as_slice(), &terms.profile)
}

/// Brings one image into memory and decodes it. A failed load leaves no allocation
/// behind.
pub fn load_runtime<R: ElfReader, M: ImageMemory, D: RuntimeDecoder>(
    reader: R,
    terms: &RuntimeTerms,
    memory: M,
    decoder: &mut D,
) -> (r: (LoadResult<(AllocationLease, RuntimeImageState)>, M))
    ensures
        runtime_outcome(reader, *terms, memory, r.1, *old(decoder), *final(decoder), r.0),
{
    let ghost bytes = reader.bytes();
    let ghost reads = reader.reliable();
    let request = LoadRequest::new(terms.profile, terms.limits);
    let header = match admit_header(&reader, terms) {
        Ok(header) => header,
        Err(error) => return (Err(error), memory),
    };
    let admitted = match admit_image(reader, header, request) {
        Ok(admitted) => admitted,
        Err(error) => return (Err(error), memory),
    };
    assert(runtime_header(bytes, *terms) == Ok::<ElfHeaderInfo, LoadError>(header));
    assert(admitted.headers() == runtime_headers(bytes, header, *terms));
    let inspected = match admitted.inspect_with_policy(&terms.policy) {
        Ok(inspected) => inspected,
        Err(error) => return (Err(error), memory),
    };
    let ghost found = inspected.found();
    assert(runtime_inspection(bytes, *terms) == Ok::<Inspection, LoadError>(found));
    let planned = match inspected.plan() {
        Ok(planned) => planned,
        Err(error) => return (Err(error), memory),
    };
    let ghost plan = planned@;
    let segments = copy_segments(&planned.load_segments);
    let relro = planned.relro;
    let stack = planned.stack;
    let ghost asked = request_spec(plan, terms.profile.elf_type)->Ok_0;
    let allocated = match planned.allocate(memory) {
        Ok(allocated) => allocated,
        Err(failed) => return (Err(failed.error), failed.memory),
    };
    assert(memory.allocates(
        allocated.transaction.memory,
        asked,
        Ok(allocated.transaction.pending->0),
    ));
    assert(runtime_plan(bytes, *terms) == Ok::<PlannedView, LoadError>(plan));
    let ghost allocation = allocated.transaction.pending->0.allocation;
    let ghost holding = allocated.transaction.memory;
    let ghost before = holding.content();
    let ghost bias = allocated.load_bias;
    assert(runtime_mapped(plan, *terms, allocation) == plan_mapped(
        plan,
        runtime_request(*terms),
        allocation,
        bias,
    ));
    proof {
        if let Ok(view) = plan_mapped(plan, request, allocation, bias) {
            planned_images_fit(
                request,
                header,
                runtime_headers(bytes, header, *terms),
                bytes.len() as u64,
                terms.policy,
                found,
                plan,
                request_spec(plan, terms.profile.elf_type)->Ok_0,
                allocation,
                bias,
                view,
            );
        }
    }
    let image = match allocated.map() {
        Ok(image) => image,
        Err(failed) => return (Err(failed.error), failed.memory),
    };
    let mut transaction = image.transaction;
    let mapped = image.mapped;
    let metadata = match decoder.decode(transaction.memory(), &mapped, terms) {
        Ok(metadata) => metadata,
        Err(error) => {
            assert(undecodable(
                bytes,
                plan,
                *terms,
                allocation,
                before,
                *old(decoder),
                *decoder,
                error,
            ));
            return (Err(error), transaction.finish());
        },
    };
    let lease = transaction.take_lease();
    let ghost view = mapped@;
    let runtime = RuntimeImageState::new(
        ImageLayout::new(mapped.allocation),
        mapped.regions,
        segments,
        metadata,
        mapped.load_bias,
        mapped.entry,
        mapped.canonical_entry,
        relro,
        stack,
    );
    let memory = transaction.finish();
    assert(runtime_loaded(
        bytes,
        *terms,
        before,
        memory,
        *old(decoder),
        *decoder,
        lease,
        runtime,
    ));
    (Ok((lease, runtime)), memory)
}

/// A loaded image is entered at the entry of its file plus the load bias, with the mode bit if
/// the file has it. Its canonical entry is the same without the mode bit that an entry of an
/// Arm image may have. The load bias is the distance from the addresses of the plan to those
/// of the memory.
pub proof fn loaded_images_are_entered_at_their_entry<M: ImageMemory, D: RuntimeDecoder>(
    bytes: Seq<u8>,
    terms: RuntimeTerms,
    before: Seq<u8>,
    memory: M,
    decoder: D,
    after: D,
    lease: AllocationLease,
    runtime: RuntimeImageState,
)
    requires
        runtime_loaded(bytes, terms, before, memory, decoder, after, lease, runtime),
    ensures
        ({
            let header = runtime_header(bytes, terms)->Ok_0;
            let plan = runtime_plan(bytes, terms)->Ok_0;
            &&& runtime.runtime_entry.0 == runtime.load_bias.0 + header.entry
            &&& runtime.canonical_runtime_entry.0 == if header.machine is Arm && header.entry % 2
                == 1 {
                runtime.runtime_entry.0 - 1
            } else {
                runtime.runtime_entry.0 as int
            }
            &&& runtime.layout.allocation == lease.allocation
            &&& runtime.load_bias.0 + plan.aligned_min_vaddr.0 == lease.allocation.base.0
            &&& lease.allocation.len == plan.image_span
            &&& lease.allocation.base.0 % plan.max_align == 0
        }),
{
    let request = runtime_request(terms);
    let header = runtime_header(bytes, terms)->Ok_0;
    let found = runtime_inspection(bytes, terms)->Ok_0;
    let plan = runtime_plan(bytes, terms)->Ok_0;
    let asked = request_spec(plan, terms.profile.elf_type)->Ok_0;
    let bias = bias_spec(plan, asked, terms.profile.class, lease.allocation)->Ok_0;
    let mapped = runtime_mapped(plan, terms, lease.allocation)->Ok_0;
    plans_keep_their_segments(request, header, found, plan);
    plans_get_the_memory_that_they_ask_for(
        plan,
        terms.profile.elf_type,
        terms.profile.class,
        asked,
        lease.allocation,
        bias,
    );
    mapping_adds_the_load_bias(
        artifact_request_spec(request),
        plan.found.dynamic,
        plan_layout_spec(plan),
        lease.allocation,
        bias,
        mapped,
    );
}

} // verus!
