//! Program header inspection of an admitted artifact.

use crate::address::{claim_range, range_at, FileRange, TargetAddr, TargetRange};
use crate::bytes::first_short;
use crate::elf::{
    permissions_from_flags, permissions_follow_flags, permissions_of, program_header_of,
    program_header_size,
    program_header_words, DynamicSegmentInfo, ElfHeaderInfo, LoadSegmentInfo, ProgramHeaderFields, PF_X, PT_DYNAMIC,
    PT_GNU_RELRO, PT_GNU_STACK, PT_INTERP, PT_LOAD, PT_TLS,
};
use crate::error::{
    claim_at, fail_at, failure, ErrorContext, LoadError, LoadErrorKind, LoadResult, LoadStage,
    ProgramHeaderField,
};
use crate::identity::{ElfClass, ElfData};
use crate::image::features::ProgramFeatureSummary;
use crate::reader::ElfReader;
use crate::request::AdmittedArtifact;
use vstd::prelude::*;

verus! {

#[derive(Clone, Copy, Debug, PartialEq, Eq, Structural)]
pub enum StackPolicy {
    NotDeclared,
    NonExecutable,
}

/// What the program headers of an accepted artifact say.
pub struct ParsedImage {
    pub header: ElfHeaderInfo,
    pub load_segments: Vec<LoadSegmentInfo>,
    pub dynamic: Option<DynamicSegmentInfo>,
    pub relro: Option<TargetRange>,
    pub stack_policy: StackPolicy,
    pub features: ProgramFeatureSummary,
}

/// The contents of a parsed image.
#[verifier::ext_equal]
pub struct ParsedView {
    pub header: ElfHeaderInfo,
    pub load_segments: Seq<LoadSegmentInfo>,
    pub dynamic: Option<DynamicSegmentInfo>,
    pub relro: Option<TargetRange>,
    pub stack_policy: StackPolicy,
    pub features: ProgramFeatureSummary,
}

impl View for ParsedImage {
    type V = ParsedView;

    open spec fn view(&self) -> ParsedView {
        ParsedView {
            header: self.header,
            load_segments: self.load_segments@,
            dynamic: self.dynamic,
            relro: self.relro,
            stack_policy: self.stack_policy,
            features: self.features,
        }
    }
}

impl ParsedImage {
    #[inline]
    pub fn header(&self) -> (r: &ElfHeaderInfo)
        ensures
            *r == self@.header,
    {
        &self.header
    }

    #[inline]
    pub fn load_segments(&self) -> (r: &[LoadSegmentInfo])
        ensures
            r@ == self@.load_segments,
    {
        self.load_segments.as_slice()
    }

    #[inline]
    pub fn dynamic(&self) -> (r: Option<DynamicSegmentInfo>)
        ensures
            r == self@.dynamic,
    {
        self.dynamic
    }

    #[inline]
    pub fn relro(&self) -> (r: Option<TargetRange>)
        ensures
            r == self@.relro,
    {
        self.relro
    }

    #[inline]
    pub fn stack_policy(&self) -> (r: StackPolicy)
        ensures
            r == self@.stack_policy,
    {
        self.stack_policy
    }

    #[inline]
    pub fn program_features(&self) -> (r: &ProgramFeatureSummary)
        ensures
            *r == self@.features,
    {
        &self.features
    }
}

/// A malformed program header.
pub open spec fn malformed(index: int, field: ProgramHeaderField, value: u64) -> LoadError {
    failure(
        LoadStage::Parse,
        LoadErrorKind::BadElf,
        ErrorContext::ProgramHeader { index: index as u16, field, value },
    )
}

/// A program header that asks for an unsupported feature.
pub open spec fn unsupported(index: int, field: ProgramHeaderField, value: u64) -> LoadError {
    failure(
        LoadStage::Validate,
        LoadErrorKind::UnsupportedByProfile,
        ErrorContext::ProgramHeader { index: index as u16, field, value },
    )
}

/// Whether one of the first `k` headers has type `program_type`.
pub open spec fn has_type(headers: Seq<ProgramHeaderFields>, k: int, program_type: u32) -> bool {
    exists|i: int| 0 <= i < k && (#[trigger] headers[i]).program_type == program_type
}

/// The range of virtual addresses of a header.
pub open spec fn vaddr_range_of(header: ProgramHeaderFields) -> TargetRange {
    TargetRange { start: TargetAddr(header.vaddr), len: header.memory_size }
}

/// The range of file bytes of a header.
pub open spec fn file_range_of(header: ProgramHeaderFields) -> FileRange {
    FileRange { offset: header.file_offset, len: header.file_size }
}

/// What is wrong with the file and address ranges of a header.
pub open spec fn range_fault(
    header: ProgramHeaderFields,
    file_len: u64,
    stage: LoadStage,
) -> LoadResult<()> {
    match range_at(file_range_of(header).validate_spec(file_len), stage) {
        Err(error) => Err(error),
        Ok(_) => vaddr_fault(header, stage),
    }
}

/// What is wrong with the address range of a header.
pub open spec fn vaddr_fault(header: ProgramHeaderFields, stage: LoadStage) -> LoadResult<()> {
    match range_at(vaddr_range_of(header).end_spec(), stage) {
        Err(error) => Err(error),
        Ok(_) => Ok(()),
    }
}

/// What is wrong with header `i`, given the headers before it.
pub open spec fn header_fault(
    headers: Seq<ProgramHeaderFields>,
    i: int,
    file_len: u64,
) -> LoadResult<()> {
    let header = headers[i];
    let program_type = header.program_type;
    if program_type == PT_LOAD {
        range_fault(header, file_len, LoadStage::Parse)
    } else if program_type == PT_DYNAMIC {
        if has_type(headers, i, PT_DYNAMIC) {
            Err(malformed(i, ProgramHeaderField::DuplicateDynamic, program_type as u64))
        } else {
            range_fault(header, file_len, LoadStage::Parse)
        }
    } else if program_type == PT_GNU_RELRO {
        if has_type(headers, i, PT_GNU_RELRO) {
            Err(malformed(i, ProgramHeaderField::DuplicateRelro, program_type as u64))
        } else {
            vaddr_fault(header, LoadStage::Parse)
        }
    } else if program_type == PT_GNU_STACK {
        if has_type(headers, i, PT_GNU_STACK) {
            Err(malformed(i, ProgramHeaderField::DuplicateStack, program_type as u64))
        } else if header.flags & PF_X != 0 {
            Err(unsupported(i, ProgramHeaderField::ExecutableStack, header.flags as u64))
        } else {
            Ok(())
        }
    } else if program_type == PT_INTERP {
        Err(unsupported(i, ProgramHeaderField::UnsupportedInterpreter, program_type as u64))
    } else if program_type == PT_TLS {
        Err(unsupported(i, ProgramHeaderField::UnsupportedTls, program_type as u64))
    } else {
        Ok(())
    }
}

/// What is wrong with the first faulty one of the first `k` headers.
pub open spec fn first_fault(
    headers: Seq<ProgramHeaderFields>,
    k: int,
    file_len: u64,
) -> LoadResult<()>
    decreases k,
{
    if k <= 0 {
        Ok(())
    } else {
        match first_fault(headers, k - 1, file_len) {
            Err(error) => Err(error),
            Ok(_) => header_fault(headers, k - 1, file_len),
        }
    }
}

/// The segment that a loadable header describes.
pub open spec fn segment_of(index: int, header: ProgramHeaderFields) -> LoadSegmentInfo {
    LoadSegmentInfo {
        index: index as u16,
        file_range: file_range_of(header),
        vaddr: TargetAddr(header.vaddr),
        memory_size: header.memory_size,
        align: header.align,
        permissions: permissions_of(header.flags),
    }
}

/// The loadable segments of the first `k` headers, in header order.
pub open spec fn segments_of(headers: Seq<ProgramHeaderFields>, k: int) -> Seq<LoadSegmentInfo>
    decreases k,
{
    if k <= 0 {
        Seq::empty()
    } else if headers[k - 1].program_type == PT_LOAD {
        segments_of(headers, k - 1).push(segment_of(k - 1, headers[k - 1]))
    } else {
        segments_of(headers, k - 1)
    }
}

/// The dynamic segment of the first `k` headers.
pub open spec fn dynamic_of(headers: Seq<ProgramHeaderFields>, k: int) -> Option<DynamicSegmentInfo>
    decreases k,
{
    if k <= 0 {
        None
    } else if headers[k - 1].program_type == PT_DYNAMIC {
        Some(
            DynamicSegmentInfo {
                index: (k - 1) as u16,
                file_range: file_range_of(headers[k - 1]),
                vaddr: TargetAddr(headers[k - 1].vaddr),
                memory_size: headers[k - 1].memory_size,
            },
        )
    } else {
        dynamic_of(headers, k - 1)
    }
}

/// The read-only-after-relocation range of the first `k` headers.
pub open spec fn relro_of(headers: Seq<ProgramHeaderFields>, k: int) -> Option<TargetRange>
    decreases k,
{
    if k <= 0 {
        None
    } else if headers[k - 1].program_type == PT_GNU_RELRO {
        Some(vaddr_range_of(headers[k - 1]))
    } else {
        relro_of(headers, k - 1)
    }
}

/// What an artifact with these program headers parses to.
pub open spec fn parse_spec(
    header: ElfHeaderInfo,
    headers: Seq<ProgramHeaderFields>,
    file_len: u64,
) -> LoadResult<ParsedView> {
    let n = headers.len() as int;
    match first_fault(headers, n, file_len) {
        Err(error) => Err(error),
        Ok(_) => Ok(
            ParsedView {
                header,
                load_segments: segments_of(headers, n),
                dynamic: dynamic_of(headers, n),
                relro: relro_of(headers, n),
                stack_policy: if has_type(headers, n, PT_GNU_STACK) {
                    StackPolicy::NonExecutable
                } else {
                    StackPolicy::NotDeclared
                },
                features: ProgramFeatureSummary::nothing(),
            },
        ),
    }
}

/// What has been read of a program header table so far.
struct HeaderScan {
    load_segments: Vec<LoadSegmentInfo>,
    dynamic: Option<DynamicSegmentInfo>,
    relro: Option<TargetRange>,
    stack_policy: StackPolicy,
}

impl HeaderScan {
    spec fn covers(self, headers: Seq<ProgramHeaderFields>, k: int) -> bool {
        &&& self.load_segments@ == segments_of(headers, k)
        &&& self.dynamic == dynamic_of(headers, k)
        &&& self.dynamic is Some <==> has_type(headers, k, PT_DYNAMIC)
        &&& self.relro == relro_of(headers, k)
        &&& self.relro is Some <==> has_type(headers, k, PT_GNU_RELRO)
        &&& self.stack_policy == (if has_type(headers, k, PT_GNU_STACK) {
            StackPolicy::NonExecutable
        } else {
            StackPolicy::NotDeclared
        })
    }

    fn new() -> (r: Self)
        ensures
            forall|headers: Seq<ProgramHeaderFields>| #[trigger] r.covers(headers, 0),
    {
        HeaderScan {
            load_segments: Vec::new(),
            dynamic: None,
            relro: None,
            stack_policy: StackPolicy::NotDeclared,
        }
    }

    /// Takes in header number `index`.
    fn accept(
        &mut self,
        index: u16,
        ph: ProgramHeaderFields,
        file_len: u64,
        Ghost(headers): Ghost<Seq<ProgramHeaderFields>>,
    ) -> (r: LoadResult<()>)
        requires
            index < headers.len(),
            headers[index as int] == ph,
            old(self).covers(headers, index as int),
        ensures
            r == header_fault(headers, index as int, file_len),
            r is Ok ==> final(self).covers(headers, index + 1),
    {
        let file_range = FileRange::new(ph.file_offset, ph.file_size);
        let vaddr_range = TargetRange::new(TargetAddr::new(ph.vaddr), ph.memory_size);
        proof {
            assert forall|t: u32| #[trigger] has_type(headers, index + 1, t) <==> has_type(
                headers,
                index as int,
                t,
            ) || ph.program_type == t by {
                if has_type(headers, index as int, t) {
                    let i = choose|i: int|
                        0 <= i < index && (#[trigger] headers[i]).program_type == t;
                    assert(headers[i].program_type == t);
                }
                if ph.program_type == t {
                    assert(headers[index as int].program_type == t);
                }
            }
        }
        if ph.program_type == PT_LOAD {
            claim_range(file_range.validate(file_len), LoadStage::Parse)?;
            claim_range(vaddr_range.end(), LoadStage::Parse)?;
            self.load_segments.push(
                LoadSegmentInfo::new(
                    index,
                    file_range,
                    TargetAddr::new(ph.vaddr),
                    ph.memory_size,
                    ph.align,
                    permissions_from_flags(ph.flags),
                ),
            );
        } else if ph.program_type == PT_DYNAMIC {
            if self.dynamic.is_some() {
                return Err(
                    program_header_error(
                        index,
                        ProgramHeaderField::DuplicateDynamic,
                        ph.program_type as u64,
                    ),
                );
            }
            claim_range(file_range.validate(file_len), LoadStage::Parse)?;
            claim_range(vaddr_range.end(), LoadStage::Parse)?;
            self.dynamic = Some(
                DynamicSegmentInfo::new(
                    index,
                    file_range,
                    TargetAddr::new(ph.vaddr),
                    ph.memory_size,
                ),
            );
        } else if ph.program_type == PT_GNU_RELRO {
            if self.relro.is_some() {
                return Err(
                    program_header_error(
                        index,
                        ProgramHeaderField::DuplicateRelro,
                        ph.program_type as u64,
                    ),
                );
            }
            claim_range(vaddr_range.end(), LoadStage::Parse)?;
            self.relro = Some(vaddr_range);
        } else if ph.program_type == PT_GNU_STACK {
            if self.stack_policy != StackPolicy::NotDeclared {
                return Err(
                    program_header_error(
                        index,
                        ProgramHeaderField::DuplicateStack,
                        ph.program_type as u64,
                    ),
                );
            }
            if ph.flags & PF_X != 0 {
                return Err(
                    unsupported_program_header(
                        index,
                        ProgramHeaderField::ExecutableStack,
                        ph.flags as u64,
                    ),
                );
            }
            self.stack_policy = StackPolicy::NonExecutable;
        } else if ph.program_type == PT_INTERP {
            return Err(
                unsupported_program_header(
                    index,
                    ProgramHeaderField::UnsupportedInterpreter,
                    ph.program_type as u64,
                ),
            );
        } else if ph.program_type == PT_TLS {
            return Err(
                unsupported_program_header(
                    index,
                    ProgramHeaderField::UnsupportedTls,
                    ph.program_type as u64,
                ),
            );
        }
        Ok(())
    }

    fn finish(
        self,
        header: ElfHeaderInfo,
        Ghost(headers): Ghost<Seq<ProgramHeaderFields>>,
        Ghost(file_len): Ghost<u64>,
    ) -> (r: ParsedImage)
        requires
            self.covers(headers, headers.len() as int),
            first_fault(headers, headers.len() as int, file_len) is Ok,
        ensures
            parse_spec(header, headers, file_len) == Ok::<ParsedView, LoadError>(r@),
    {
        ParsedImage {
            header,
            load_segments: self.load_segments,
            dynamic: self.dynamic,
            relro: self.relro,
            stack_policy: self.stack_policy,
            features: ProgramFeatureSummary::default(),
        }
    }
}

/// A fault of some header stays the first one when more headers follow.
proof fn lemma_first_fault(headers: Seq<ProgramHeaderFields>, k: int, to: int, file_len: u64)
    requires
        0 <= k <= to,
        first_fault(headers, k, file_len) is Err,
    ensures
        first_fault(headers, to, file_len) == first_fault(headers, k, file_len),
    decreases to - k,
{
    if k < to {
        lemma_first_fault(headers, k, to - 1, file_len);
    }
}

/// The program headers that a file holds at `offset`.
pub open spec fn headers_in(
    bytes: Seq<u8>,
    offset: int,
    entry_size: int,
    count: int,
    class: ElfClass,
    endian: ElfData,
) -> Seq<ProgramHeaderFields> {
    Seq::new(
        count as nat,
        |i: int|
            program_header_of(
                bytes.subrange(offset + i * entry_size, offset + (i + 1) * entry_size),
                class,
                endian,
            ),
    )
}

/// Whether all program headers lie in a file of this size, and are large enough.
pub open spec fn table_readable(header: ElfHeaderInfo, class: ElfClass, file_len: nat) -> bool {
    &&& file_len <= u64::MAX
    &&& header.program_header_count > 0 ==> {
        &&& header.program_header_entry_size >= program_header_size(class)
        &&& header.program_header_offset + header.program_header_count
            * header.program_header_entry_size <= file_len
    }
}

/// Whether program header number `i` lies in a file of this size, and is large enough.
pub open spec fn entry_readable(header: ElfHeaderInfo, class: ElfClass, file_len: nat, i: int) -> bool {
    &&& header.program_header_entry_size >= program_header_size(class)
    &&& header.program_header_offset + i * header.program_header_entry_size
        + header.program_header_entry_size <= file_len
}

/// The first program header from `from` on that cannot be read.
pub open spec fn first_unreadable(
    header: ElfHeaderInfo,
    class: ElfClass,
    file_len: nat,
    from: int,
) -> Option<int>
    decreases header.program_header_count - from,
{
    if from >= header.program_header_count {
        None
    } else if !entry_readable(header, class, file_len, from) {
        Some(from)
    } else {
        first_unreadable(header, class, file_len, from + 1)
    }
}

/// Why program header number `i` of a file of this size cannot be read: its offset
/// does not exist, or it is too small. Where it lies beyond the file the reader says
/// why.
pub open spec fn unreadable_fault(
    header: ElfHeaderInfo,
    class: ElfClass,
    file_len: nat,
    i: int,
    stage: LoadStage,
) -> Option<LoadError> {
    let size = header.program_header_entry_size;
    let offset = header.program_header_offset + i * size;
    if offset > u64::MAX {
        Some(
            failure(
                stage,
                LoadErrorKind::BadElf,
                ErrorContext::ProgramHeader {
                    index: i as u16,
                    field: ProgramHeaderField::FileRange,
                    value: 0,
                },
            ),
        )
    } else if offset + size <= file_len {
        match first_short(program_header_words(class), size as nat) {
            Some(error) => Some(error.claimed_by(stage)),
            None => None,
        }
    } else {
        None
    }
}

/// Whether a scan fails as it must where program header number `k` is the first that
/// cannot be read: a fault of the headers before it decides, then why it cannot be
/// read.
pub open spec fn fails_unread<T>(
    r: LoadResult<T>,
    before: LoadResult<()>,
    fault: Option<LoadError>,
    stage: LoadStage,
) -> bool {
    match (before, fault) {
        (Err(error), _) => r == Err::<T, LoadError>(error),
        (Ok(_), Some(error)) => r == Err::<T, LoadError>(error),
        (Ok(_), None) => r matches Err(error) && error.stage == Some(stage),
    }
}

pub proof fn lemma_unreadable(header: ElfHeaderInfo, class: ElfClass, file_len: nat, from: int)
    requires
        0 <= from,
    ensures
        match first_unreadable(header, class, file_len, from) {
            Some(k) => from <= k < header.program_header_count && !entry_readable(
                header,
                class,
                file_len,
                k,
            ),
            None => forall|i: int|
                from <= i < header.program_header_count ==> #[trigger] entry_readable(
                    header,
                    class,
                    file_len,
                    i,
                ),
        },
    decreases header.program_header_count - from,
{
    if from < header.program_header_count {
        lemma_unreadable(header, class, file_len, from + 1);
    }
}

/// A table can be read exactly if each of its headers can.
pub proof fn readable_tables_have_readable_headers(
    header: ElfHeaderInfo,
    class: ElfClass,
    file_len: nat,
)
    requires
        file_len <= u64::MAX,
    ensures
        table_readable(header, class, file_len) <==> first_unreadable(header, class, file_len, 0)
            is None,
{
    let count = header.program_header_count as int;
    let size = header.program_header_entry_size as int;
    lemma_unreadable(header, class, file_len, 0);
    if count > 0 {
        assert((count - 1) * size + size == count * size) by (nonlinear_arith);
        if first_unreadable(header, class, file_len, 0) is None {
            assert(entry_readable(header, class, file_len, count - 1));
        } else {
            let k = first_unreadable(header, class, file_len, 0)->0;
            assert(k * size + size <= count * size) by (nonlinear_arith)
                requires
                    k + 1 <= count,
                    0 <= size,
            ;
        }
    }
}

/// Reads and decodes program header number `index`.
pub fn read_program_header<R: ElfReader>(
    reader: &R,
    header: &ElfHeaderInfo,
    index: u16,
    class: ElfClass,
    endian: ElfData,
    stage: LoadStage,
) -> (r: LoadResult<ProgramHeaderFields>)
    ensures
        r matches Ok(fields) ==> {
            let start = header.program_header_offset + index * header.program_header_entry_size;
            let end = start + header.program_header_entry_size;
            &&& end <= reader.bytes().len()
            &&& header.program_header_entry_size >= program_header_size(class)
            &&& fields == program_header_of(
                reader.bytes().subrange(start, end),
                class,
                endian,
            )
        },
        header.program_header_offset + index * header.program_header_entry_size > u64::MAX ==> r
            == Err::<ProgramHeaderFields, LoadError>(
            failure(
                stage,
                LoadErrorKind::BadElf,
                ErrorContext::ProgramHeader {
                    index,
                    field: ProgramHeaderField::FileRange,
                    value: 0,
                },
            ),
        ),
        reader.reliable() && reader.bytes().len() <= u64::MAX ==> if entry_readable(
            *header,
            class,
            reader.bytes().len(),
            index as int,
        ) {
            r is Ok
        } else {
            fails_unread(
                r,
                Ok(()),
                unreadable_fault(*header, class, reader.bytes().len(), index as int, stage),
                stage,
            )
        },
        r matches Err(error) ==> error.stage == Some(stage),
{
    let entry_size: u16 = header.program_header_entry_size();
    assert(index * entry_size <= 0xffff * 0xffff) by (nonlinear_arith)
        requires
            index <= 0xffff,
            entry_size <= 0xffff,
    ;
    let distance: u64 = index as u64 * entry_size as u64;
    let offset: u64 = match header.program_header_offset().checked_add(distance) {
        Some(offset) => offset,
        None => return Err(
            fail_at(
                stage,
                LoadErrorKind::BadElf,
                ErrorContext::ProgramHeader {
                    index,
                    field: ProgramHeaderField::FileRange,
                    value: 0,
                },
            ),
        ),
    };
    let raw = claim_at(reader.read_exact_at(offset, entry_size as usize), stage)?;
    claim_at(ProgramHeaderFields::decode(raw.as_slice(), class, endian), stage)
}

/// The program headers of an artifact, as far as its file holds them.
pub open spec fn artifact_headers<R: ElfReader>(artifact: AdmittedArtifact<R>) -> Seq<
    ProgramHeaderFields,
> {
    headers_in(
        artifact.reader.bytes(),
        artifact.header.program_header_offset as int,
        artifact.header.program_header_entry_size as int,
        artifact.header.program_header_count as int,
        artifact.header.class,
        artifact.header.endian,
    )
}

/// Whether parsing an artifact fails as it must where one of its program headers
/// cannot be read.
pub open spec fn unparsed<R: ElfReader, T>(artifact: AdmittedArtifact<R>, r: LoadResult<T>) -> bool {
    let len = artifact.reader.bytes().len();
    first_unreadable(artifact.header, artifact.header.class, len, 0) matches Some(k)
        ==> fails_unread(
        r,
        first_fault(artifact_headers(artifact), k, artifact.file_len),
        unreadable_fault(artifact.header, artifact.header.class, len, k, LoadStage::Parse),
        LoadStage::Parse,
    )
}

/// Drives the single-image stages of an artifact load.
#[derive(Clone, Copy, Debug, PartialEq, Eq, Structural)]
pub struct ImageLoader;

impl ImageLoader {
    pub fn new() -> (r: Self) {
        ImageLoader
    }

    /// Reads, decodes and checks the program headers of an admitted artifact, one
    /// after the other.
    pub fn inspect<R: ElfReader>(&self, artifact: &AdmittedArtifact<R>) -> (r: LoadResult<
        ParsedImage,
    >)
        ensures
            r matches Ok(parsed) ==> {
                let header = artifact.header;
                let headers = headers_in(
                    artifact.reader.bytes(),
                    header.program_header_offset as int,
                    header.program_header_entry_size as int,
                    header.program_header_count as int,
                    header.class,
                    header.endian,
                );
                parse_spec(header, headers, artifact.file_len) == Ok::<ParsedView, LoadError>(
                    parsed@,
                )
            },
            artifact.reader.reliable() && table_readable(
                artifact.header,
                artifact.header.class,
                artifact.reader.bytes().len(),
            ) ==> match parse_spec(
                artifact.header,
                headers_in(
                    artifact.reader.bytes(),
                    artifact.header.program_header_offset as int,
                    artifact.header.program_header_entry_size as int,
                    artifact.header.program_header_count as int,
                    artifact.header.class,
                    artifact.header.endian,
                ),
                artifact.file_len,
            ) {
                Ok(_) => r is Ok,
                Err(error) => r == Err::<ParsedImage, LoadError>(error),
            },
            artifact.reader.bytes().len() <= u64::MAX && !table_readable(
                artifact.header,
                artifact.header.class,
                artifact.reader.bytes().len(),
            ) ==> r is Err,
            artifact.reader.reliable() && artifact.reader.bytes().len() <= u64::MAX ==> unparsed(
                *artifact,
                r,
            ),
            r matches Err(error) ==> error.stage == Some(LoadStage::Parse) || error.stage == Some(
                LoadStage::Validate,
            ),
    {
        let header: ElfHeaderInfo = artifact.header;
        let count: u16 = header.program_header_count();
        let ghost headers = headers_in(
            artifact.reader.bytes(),
            header.program_header_offset as int,
            header.program_header_entry_size as int,
            header.program_header_count as int,
            header.class,
            header.endian,
        );
        let ghost len = artifact.reader.bytes().len();
        let mut scan = HeaderScan::new();
        let mut index: u16 = 0;
        proof {
            assert(scan.covers(headers, 0));
            if len <= u64::MAX {
                readable_tables_have_readable_headers(header, header.class, len);
            }
        }
        while index < count
            invariant
                index <= count,
                count == header.program_header_count,
                header == artifact.header,
                len == artifact.reader.bytes().len(),
                len <= u64::MAX ==> (table_readable(header, header.class, len)
                    <==> first_unreadable(header, header.class, len, 0) is None),
                first_unreadable(header, header.class, len, 0) == first_unreadable(
                    header,
                    header.class,
                    len,
                    index as int,
                ),
                headers == headers_in(
                    artifact.reader.bytes(),
                    header.program_header_offset as int,
                    header.program_header_entry_size as int,
                    header.program_header_count as int,
                    header.class,
                    header.endian,
                ),
                scan.covers(headers, index as int),
                first_fault(headers, index as int, artifact.file_len) is Ok,
                index > 0 ==> header.program_header_entry_size >= program_header_size(header.class)
                    && header.program_header_offset + index * header.program_header_entry_size
                    <= artifact.reader.bytes().len(),
            decreases count - index,
        {
            let ph = match read_program_header(
                &artifact.reader,
                &header,
                index,
                header.class(),
                header.endian(),
                LoadStage::Parse,
            ) {
                Ok(ph) => ph,
                Err(error) => return Err(error),
            };
            proof {
                let size = header.program_header_entry_size as int;
                assert((index + 1) * size == index * size + size) by (nonlinear_arith);
                assert(entry_readable(header, header.class, len, index as int));
                lemma_unreadable(header, header.class, len, index as int);
            }
            match scan.accept(index, ph, artifact.file_len, Ghost(headers)) {
                Ok(_) => {},
                Err(error) => {
                    proof {
                        assert(header_fault(headers, index as int, artifact.file_len) == Err::<
                            (),
                            LoadError,
                        >(error));
                        lemma_first_fault(headers, index + 1, count as int, artifact.file_len);
                        if let Some(k) = first_unreadable(header, header.class, len, 0) {
                            lemma_first_fault(headers, index + 1, k, artifact.file_len);
                        }
                    }
                    return Err(error);
                },
            }
            index = index + 1;
        }
        Ok(scan.finish(header, Ghost(headers), Ghost(artifact.file_len)))
    }
}

fn program_header_error(index: u16, field: ProgramHeaderField, value: u64) -> (r: LoadError)
    ensures
        r == malformed(index as int, field, value),
{
    fail_at(
        LoadStage::Parse,
        LoadErrorKind::BadElf,
        ErrorContext::ProgramHeader { index, field, value },
    )
}

fn unsupported_program_header(index: u16, field: ProgramHeaderField, value: u64) -> (r: LoadError)
    ensures
        r == unsupported(index as int, field, value),
{
    fail_at(
        LoadStage::Validate,
        LoadErrorKind::UnsupportedByProfile,
        ErrorContext::ProgramHeader { index, field, value },
    )
}

pub proof fn lemma_segments_of(headers: Seq<ProgramHeaderFields>, k: int)
    requires
        0 <= k <= headers.len() <= 0x1_0000,
    ensures
        forall|h: int|
            0 <= h < k && (#[trigger] headers[h]).program_type == PT_LOAD ==> segments_of(
                headers,
                k,
            ).contains(segment_of(h, headers[h])),
        forall|s: int|
            0 <= s < segments_of(headers, k).len() ==> {
                let h = (#[trigger] segments_of(headers, k)[s]).index as int;
                h < k && headers[h].program_type == PT_LOAD && segments_of(headers, k)[s]
                    == segment_of(h, headers[h])
            },
        forall|s: int, t: int|
            0 <= s < t < segments_of(headers, k).len() ==> (#[trigger] segments_of(
                headers,
                k,
            )[s]).index < (#[trigger] segments_of(headers, k)[t]).index,
    decreases k,
{
    if k > 0 {
        lemma_segments_of(headers, k - 1);
        let before = segments_of(headers, k - 1);
        let all = segments_of(headers, k);
        if headers[k - 1].program_type == PT_LOAD {
            assert(all[before.len() as int] == segment_of(k - 1, headers[k - 1]));
            assert forall|h: int|
                0 <= h < k && (#[trigger] headers[h]).program_type == PT_LOAD implies all.contains(
                segment_of(h, headers[h]),
            ) by {
                if h < k - 1 {
                    let i = choose|i: int|
                        0 <= i < before.len() && before[i] == segment_of(h, headers[h]);
                    assert(all[i] == segment_of(h, headers[h]));
                }
            }
        }
    }
}

proof fn lemma_no_fault(headers: Seq<ProgramHeaderFields>, k: int, file_len: u64, h: int)
    requires
        0 <= h < k,
        first_fault(headers, k, file_len) is Ok,
    ensures
        header_fault(headers, h, file_len) is Ok,
    decreases k,
{
    if h < k - 1 {
        lemma_no_fault(headers, k - 1, file_len, h);
    }
}

/// The segments of a parsed image are its loadable program headers (those of type 1), in
/// their order and with their addresses, sizes, places in the file, alignments and
/// permissions. Each lies in the file and among the addresses.
pub proof fn parsed_segments_are_loadable_headers(
    header: ElfHeaderInfo,
    headers: Seq<ProgramHeaderFields>,
    file_len: u64,
    parsed: ParsedView,
)
    requires
        headers.len() <= 0x1_0000,
        parse_spec(header, headers, file_len) == Ok::<ParsedView, LoadError>(parsed),
    ensures
        parsed.header == header,
        forall|h: int|
            0 <= h < headers.len() && (#[trigger] headers[h]).program_type == 1 ==> {
                &&& headers[h].file_offset + headers[h].file_size <= file_len
                &&& headers[h].vaddr + headers[h].memory_size <= u64::MAX
                &&& exists|s: int|
                    0 <= s < parsed.load_segments.len() && (
                    #[trigger] parsed.load_segments[s]).index == h
            },
        forall|s: int|
            0 <= s < parsed.load_segments.len() ==> {
                let segment = #[trigger] parsed.load_segments[s];
                let from = headers[segment.index as int];
                &&& segment.index < headers.len()
                &&& from.program_type == 1
                &&& segment.vaddr.0 == from.vaddr
                &&& segment.memory_size == from.memory_size
                &&& segment.file_range.offset == from.file_offset
                &&& segment.file_range.len == from.file_size
                &&& segment.align == from.align
                &&& segment.permissions.readable() <==> from.flags & 4 != 0
                &&& segment.permissions.writable() <==> from.flags & 2 != 0
                &&& segment.permissions.executable() <==> from.flags & 1 != 0
            },
        forall|s: int, t: int|
            0 <= s < t < parsed.load_segments.len() ==> (#[trigger] parsed.load_segments[s]).index
                < (#[trigger] parsed.load_segments[t]).index,
{
    let n = headers.len() as int;
    lemma_segments_of(headers, n);
    assert forall|h: int|
        0 <= h < n && (#[trigger] headers[h]).program_type == 1 implies headers[h].file_offset
        + headers[h].file_size <= file_len && headers[h].vaddr + headers[h].memory_size
        <= u64::MAX && exists|s: int|
        0 <= s < parsed.load_segments.len() && (#[trigger] parsed.load_segments[s]).index == h by {
        lemma_no_fault(headers, n, file_len, h);
        let s = choose|s: int|
            0 <= s < parsed.load_segments.len() && parsed.load_segments[s] == segment_of(
                h,
                headers[h],
            );
        assert(parsed.load_segments[s].index == h);
    }
    assert forall|s: int| 0 <= s < parsed.load_segments.len() implies {
        let segment = #[trigger] parsed.load_segments[s];
        let from = headers[segment.index as int];
        &&& segment.permissions.readable() <==> from.flags & 4 != 0
        &&& segment.permissions.writable() <==> from.flags & 2 != 0
        &&& segment.permissions.executable() <==> from.flags & 1 != 0
    } by {
        permissions_follow_flags(headers[parsed.load_segments[s].index as int].flags);
    }
}

proof fn lemma_special_of(headers: Seq<ProgramHeaderFields>, k: int)
    requires
        0 <= k <= headers.len(),
    ensures
        match dynamic_of(headers, k) {
            Some(dynamic) => exists|h: int|
                0 <= h < k && (#[trigger] headers[h]).program_type == PT_DYNAMIC && dynamic.vaddr.0
                    == headers[h].vaddr && dynamic.memory_size == headers[h].memory_size
                    && dynamic.file_range.offset == headers[h].file_offset
                    && dynamic.file_range.len == headers[h].file_size,
            None => forall|h: int|
                0 <= h < k ==> (#[trigger] headers[h]).program_type != PT_DYNAMIC,
        },
        match relro_of(headers, k) {
            Some(relro) => exists|h: int|
                0 <= h < k && (#[trigger] headers[h]).program_type == PT_GNU_RELRO && relro.start.0
                    == headers[h].vaddr && relro.len == headers[h].memory_size,
            None => forall|h: int|
                0 <= h < k ==> (#[trigger] headers[h]).program_type != PT_GNU_RELRO,
        },
    decreases k,
{
    if k > 0 {
        lemma_special_of(headers, k - 1);
    }
}

/// A parsed image has the dynamic segment and the read-only-after-relocation range of
/// its only program header of that type, if any. It asks for no interpreter, no
/// thread-local storage and no stack that can be executed.
pub proof fn parsed_images_have_one_of_each(
    header: ElfHeaderInfo,
    headers: Seq<ProgramHeaderFields>,
    file_len: u64,
    parsed: ParsedView,
)
    requires
        parse_spec(header, headers, file_len) == Ok::<ParsedView, LoadError>(parsed),
    ensures
        match parsed.dynamic {
            Some(dynamic) => exists|h: int|
                0 <= h < headers.len() && (#[trigger] headers[h]).program_type == 2
                    && dynamic.vaddr.0 == headers[h].vaddr && dynamic.memory_size
                    == headers[h].memory_size && dynamic.file_range.offset == headers[h].file_offset
                    && dynamic.file_range.len == headers[h].file_size,
            None => forall|h: int|
                0 <= h < headers.len() ==> (#[trigger] headers[h]).program_type != 2,
        },
        match parsed.relro {
            Some(relro) => exists|h: int|
                0 <= h < headers.len() && (#[trigger] headers[h]).program_type == 0x6474_e552
                    && relro.start.0 == headers[h].vaddr && relro.len == headers[h].memory_size,
            None => forall|h: int|
                0 <= h < headers.len() ==> (#[trigger] headers[h]).program_type != 0x6474_e552,
        },
        forall|g: int, h: int|
            0 <= g < h < headers.len() && (#[trigger] headers[g]).program_type == (
            #[trigger] headers[h]).program_type ==> headers[g].program_type != 2
                && headers[g].program_type != 0x6474_e551 && headers[g].program_type
                != 0x6474_e552,
        forall|h: int|
            0 <= h < headers.len() ==> (#[trigger] headers[h]).program_type != 3
                && headers[h].program_type != 7 && (headers[h].program_type == 0x6474_e551
                ==> headers[h].flags & 1 == 0),
{
    let n = headers.len() as int;
    lemma_special_of(headers, n);
    assert forall|h: int| 0 <= h < n implies (#[trigger] headers[h]).program_type != 3
        && headers[h].program_type != 7 && (headers[h].program_type == 0x6474_e551
        ==> headers[h].flags & 1 == 0) by {
        lemma_no_fault(headers, n, file_len, h);
    }
    assert forall|g: int, h: int|
        0 <= g < h < n && (#[trigger] headers[g]).program_type == (
        #[trigger] headers[h]).program_type implies headers[g].program_type != 2
        && headers[g].program_type != 0x6474_e551 && headers[g].program_type != 0x6474_e552 by {
        lemma_no_fault(headers, n, file_len, h);
        assert(has_type(headers, h, headers[g].program_type));
    }
}

/// A program header is accepted by its type. A loadable one, and a dynamic one, have their
/// bytes in the file and end within the address space; so does a range that is read only in
/// the end. The stack must not be executable. There are a dynamic one, such a range and a
/// stack only once. An interpreter and thread-local storage are refused, and what else there
/// is is passed over.
pub proof fn headers_are_accepted_by_their_type(
    headers: Seq<ProgramHeaderFields>,
    i: int,
    file_len: u64,
)
    requires
        0 <= i < headers.len(),
    ensures
        ({
            let header = headers[i];
            let first = forall|j: int|
                0 <= j < i ==> (#[trigger] headers[j]).program_type != header.program_type;
            let in_file = header.file_offset + header.file_size <= file_len;
            let in_memory = header.vaddr + header.memory_size <= u64::MAX;
            header_fault(headers, i, file_len) is Ok <==> if header.program_type == 1 {
                in_file && in_memory
            } else if header.program_type == 2 {
                first && in_file && in_memory
            } else if header.program_type == 0x6474_e552 {
                first && in_memory
            } else if header.program_type == 0x6474_e551 {
                first && header.flags % 2 == 0
            } else {
                header.program_type != 3 && header.program_type != 7
            }
        }),
{
    let flags = headers[i].flags;
    assert(flags & 1 != 0 <==> flags % 2 == 1) by (bit_vector);
}

/// An image parses exactly if every one of its program headers is accepted.
pub proof fn images_parse_if_their_headers_do(
    header: ElfHeaderInfo,
    headers: Seq<ProgramHeaderFields>,
    file_len: u64,
)
    ensures
        parse_spec(header, headers, file_len) is Ok <==> forall|i: int|
            0 <= i < headers.len() ==> header_fault(headers, i, file_len) is Ok,
{
    lemma_faults(headers, headers.len() as int, file_len);
}

proof fn lemma_faults(headers: Seq<ProgramHeaderFields>, k: int, file_len: u64)
    requires
        0 <= k <= headers.len(),
    ensures
        first_fault(headers, k, file_len) is Ok <==> forall|i: int|
            0 <= i < k ==> header_fault(headers, i, file_len) is Ok,
    decreases k,
{
    if k > 0 {
        lemma_faults(headers, k - 1, file_len);
        if first_fault(headers, k, file_len) is Ok {
            assert forall|i: int| 0 <= i < k implies header_fault(headers, i, file_len) is Ok by {}
        } else if first_fault(headers, k - 1, file_len) is Ok {
            assert(header_fault(headers, k - 1, file_len) is Err);
        } else {
            let i = choose|i: int| 0 <= i < k - 1 && header_fault(headers, i, file_len) is Err;
            assert(header_fault(headers, i, file_len) is Err);
        }
    }
}

} // verus!
