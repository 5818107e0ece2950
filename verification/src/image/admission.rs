//! Inspection of the program headers of an admitted image.

use crate::address::{claim_range, range_at, FileRange, TargetAddr, TargetRange};
use crate::elf::{
    permissions_follow_flags, permissions_from_flags, program_header_size, DynamicSegmentInfo,
    ElfHeaderInfo, LoadSegmentInfo,
    ProgramHeaderFields, PF_X, PT_ARM_EXIDX, PT_DYNAMIC, PT_GNU_EH_FRAME, PT_GNU_RELRO,
    PT_GNU_STACK, PT_INTERP, PT_LOAD, PT_PHDR, PT_RISCV_ATTRIBUTES, PT_TLS,
};
use crate::error::{
    claim, claim_at, fail_at, failure, ErrorContext, LimitKind, LoadError, LoadErrorKind, LoadResult,
    LoadStage, ProgramHeaderField,
};
use crate::identity::{within, ElfMachine, LoadPolicy, LoadRequest};
use crate::image::inspect::{InspectedImage, StackKind};
use crate::image::parser::{
    dynamic_of, entry_readable, fails_unread, file_range_of, first_unreadable, has_type, headers_in,
    lemma_segments_of, lemma_unreadable, range_fault, read_program_header,
    readable_tables_have_readable_headers,
    relro_of, segment_of, segments_of, table_readable, unreadable_fault, vaddr_fault,
    vaddr_range_of,
};
use crate::limits::over_limit;
use crate::reader::ElfReader;
use vstd::prelude::*;

verus! {

/// An image whose header was accepted.
pub struct AdmittedImage<R> {
    pub reader: R,
    pub header: ElfHeaderInfo,
    pub request: LoadRequest,
    pub file_len: u64,
}

/// What keeps a file of this size with this header from being accepted.
pub open spec fn admission_fault(header: ElfHeaderInfo, request: LoadRequest, file_len: u64) -> LoadResult<
    (),
> {
    match claim(
        within(LimitKind::FileLength, file_len, request.limits.max_file_len),
        LoadStage::Admit,
    ) {
        Err(error) => Err(error),
        Ok(_) => claim(
            within(
                LimitKind::ProgramHeaderCount,
                header.program_header_count as u64,
                request.limits.max_program_headers as u64,
            ),
            LoadStage::Admit,
        ),
    }
}

/// Accepts an image with a decoded header, if its file and its program header
/// table are small enough.
pub fn admit_image<R: ElfReader>(reader: R, header: ElfHeaderInfo, request: LoadRequest) -> (r:
    LoadResult<AdmittedImage<R>>)
    ensures
        r matches Ok(image) ==> {
            &&& image.reader == reader
            &&& image.header == header
            &&& image.request == request
            &&& image.file_len == reader.bytes().len()
            &&& image.file_len <= request.limits.max_file_len
            &&& header.program_header_count <= request.limits.max_program_headers
        },
        r matches Err(error) ==> error.stage is Some,
        reader.reliable() ==> match admission_fault(header, request, reader.bytes().len() as u64) {
            Ok(_) => r is Ok,
            Err(error) => r == Err::<AdmittedImage<R>, LoadError>(error),
        },
{
    let file_len: u64 = claim_at(reader.len(), LoadStage::Admit)?;
    claim_at(request.limits().check_file_len(file_len), LoadStage::Admit)?;
    claim_at(
        request.limits().check_program_header_count(header.program_header_count()),
        LoadStage::Admit,
    )?;
    Ok(AdmittedImage { reader, header, request, file_len })
}

/// What the program headers of an image say.
#[verifier::ext_equal]
pub struct Inspection {
    pub load_segments: Seq<LoadSegmentInfo>,
    pub dynamic: Option<DynamicSegmentInfo>,
    pub relro: Option<TargetRange>,
    pub stack: StackKind,
    pub interpreter: Option<FileRange>,
    pub tls: Option<TargetRange>,
}

/// A program header that inspection rejects.
pub open spec fn refused(
    kind: LoadErrorKind,
    index: int,
    field: ProgramHeaderField,
    value: u64,
) -> LoadError {
    failure(
        LoadStage::Inspect,
        kind,
        ErrorContext::ProgramHeader { index: index as u16, field, value },
    )
}

/// What is wrong with the file range of a header.
pub open spec fn file_fault(header: ProgramHeaderFields, file_len: u64) -> LoadResult<()> {
    range_at(file_range_of(header).validate_spec(file_len), LoadStage::Inspect)
}

/// What is wrong with a header that fills memory from the file.
pub open spec fn filled_fault(header: ProgramHeaderFields, i: int, file_len: u64) -> LoadResult<()> {
    if header.file_size > header.memory_size {
        Err(
            refused(
                LoadErrorKind::BadElf,
                i,
                ProgramHeaderField::FileRange,
                header.file_size,
            ),
        )
    } else {
        range_fault(header, file_len, LoadStage::Inspect)
    }
}

/// Whether a header type is known to need no work.
pub open spec fn passed_over(program_type: u32, machine: ElfMachine) -> bool {
    ||| program_type == PT_PHDR
    ||| program_type == PT_GNU_EH_FRAME
    ||| program_type == PT_ARM_EXIDX && machine == ElfMachine::Arm
    ||| program_type == PT_RISCV_ATTRIBUTES && machine == ElfMachine::Riscv
}

/// The field that a second header of this type is reported under.
pub open spec fn duplicate_field(program_type: u32) -> ProgramHeaderField {
    if program_type == PT_DYNAMIC {
        ProgramHeaderField::DuplicateDynamic
    } else if program_type == PT_GNU_RELRO {
        ProgramHeaderField::DuplicateRelro
    } else if program_type == PT_GNU_STACK {
        ProgramHeaderField::DuplicateStack
    } else if program_type == PT_INTERP {
        ProgramHeaderField::DuplicateInterpreter
    } else {
        ProgramHeaderField::DuplicateTls
    }
}

/// Whether an image may have at most one header of this type.
pub open spec fn at_most_once(program_type: u32) -> bool {
    ||| program_type == PT_DYNAMIC
    ||| program_type == PT_GNU_RELRO
    ||| program_type == PT_GNU_STACK
    ||| program_type == PT_INTERP
    ||| program_type == PT_TLS
}

/// What is wrong with header `i`, given the headers before it.
pub open spec fn inspect_fault(
    headers: Seq<ProgramHeaderFields>,
    i: int,
    file_len: u64,
    machine: ElfMachine,
    policy: LoadPolicy,
) -> LoadResult<()> {
    let header = headers[i];
    let program_type = header.program_type;
    if at_most_once(program_type) && has_type(headers, i, program_type) {
        Err(
            refused(
                LoadErrorKind::BadElf,
                i,
                duplicate_field(program_type),
                program_type as u64,
            ),
        )
    } else if program_type == PT_LOAD || program_type == PT_TLS {
        filled_fault(header, i, file_len)
    } else if program_type == PT_DYNAMIC {
        range_fault(header, file_len, LoadStage::Inspect)
    } else if program_type == PT_GNU_RELRO {
        vaddr_fault(header, LoadStage::Inspect)
    } else if program_type == PT_INTERP {
        file_fault(header, file_len)
    } else if program_type == PT_GNU_STACK || passed_over(program_type, machine)
        || policy.allow_unknown_program_headers {
        Ok(())
    } else {
        Err(
            refused(
                LoadErrorKind::UnsupportedByProfile,
                i,
                ProgramHeaderField::UnknownField,
                program_type as u64,
            ),
        )
    }
}

/// What is wrong with the first faulty one of the first `k` headers.
pub open spec fn first_inspect_fault(
    headers: Seq<ProgramHeaderFields>,
    k: int,
    file_len: u64,
    machine: ElfMachine,
    policy: LoadPolicy,
) -> LoadResult<()>
    decreases k,
{
    if k <= 0 {
        Ok(())
    } else {
        match first_inspect_fault(headers, k - 1, file_len, machine, policy) {
            Err(error) => Err(error),
            Ok(_) => inspect_fault(headers, k - 1, file_len, machine, policy),
        }
    }
}

/// The stack that the first `k` headers declare.
pub open spec fn stack_of(headers: Seq<ProgramHeaderFields>, k: int) -> StackKind
    decreases k,
{
    if k <= 0 {
        StackKind::NotDeclared
    } else if headers[k - 1].program_type == PT_GNU_STACK {
        if headers[k - 1].flags & PF_X != 0 {
            StackKind::Executable
        } else {
            StackKind::NonExecutable
        }
    } else {
        stack_of(headers, k - 1)
    }
}

/// The interpreter path of the first `k` headers.
pub open spec fn interpreter_of(headers: Seq<ProgramHeaderFields>, k: int) -> Option<FileRange>
    decreases k,
{
    if k <= 0 {
        None
    } else if headers[k - 1].program_type == PT_INTERP {
        Some(file_range_of(headers[k - 1]))
    } else {
        interpreter_of(headers, k - 1)
    }
}

/// The thread-local storage of the first `k` headers.
pub open spec fn tls_of(headers: Seq<ProgramHeaderFields>, k: int) -> Option<TargetRange>
    decreases k,
{
    if k <= 0 {
        None
    } else if headers[k - 1].program_type == PT_TLS {
        Some(vaddr_range_of(headers[k - 1]))
    } else {
        tls_of(headers, k - 1)
    }
}

/// What the first `k` headers say.
pub open spec fn inspection_of(headers: Seq<ProgramHeaderFields>, k: int) -> Inspection {
    Inspection {
        load_segments: segments_of(headers, k),
        dynamic: dynamic_of(headers, k),
        relro: relro_of(headers, k),
        stack: stack_of(headers, k),
        interpreter: interpreter_of(headers, k),
        tls: tls_of(headers, k),
    }
}

/// Which feature of an inspected image the policy refuses.
pub open spec fn feature_fault(found: Inspection, policy: LoadPolicy) -> LoadResult<()> {
    if !policy.allow_executable_stack && found.stack == StackKind::Executable {
        Err(
            refused(
                LoadErrorKind::UnsupportedByProfile,
                0,
                ProgramHeaderField::ExecutableStack,
                0,
            ),
        )
    } else if !policy.allow_interpreter && found.interpreter is Some {
        Err(
            refused(
                LoadErrorKind::UnsupportedByProfile,
                0,
                ProgramHeaderField::UnsupportedInterpreter,
                0,
            ),
        )
    } else if !policy.allow_tls && found.tls is Some {
        Err(
            refused(
                LoadErrorKind::UnsupportedByProfile,
                0,
                ProgramHeaderField::UnsupportedTls,
                0,
            ),
        )
    } else {
        Ok(())
    }
}

/// What inspecting an image with these program headers gives.
pub open spec fn inspect_spec(
    request: LoadRequest,
    machine: ElfMachine,
    headers: Seq<ProgramHeaderFields>,
    file_len: u64,
    policy: LoadPolicy,
) -> LoadResult<Inspection> {
    let n = headers.len() as int;
    let found = inspection_of(headers, n);
    if headers.len() > request.limits.max_load_segments {
        Err(
            over_limit(
                LoadStage::Inspect,
                LimitKind::LoadSegmentCount,
                headers.len() as u64,
                request.limits.max_load_segments as u64,
            ),
        )
    } else if first_inspect_fault(headers, n, file_len, machine, policy) is Err {
        Err(first_inspect_fault(headers, n, file_len, machine, policy)->Err_0)
    } else if feature_fault(found, policy) is Err {
        Err(feature_fault(found, policy)->Err_0)
    } else {
        Ok(found)
    }
}

/// What has been read of a program header table so far.
struct InspectionScan {
    load_segments: Vec<LoadSegmentInfo>,
    dynamic: Option<DynamicSegmentInfo>,
    relro: Option<TargetRange>,
    stack: StackKind,
    interpreter: Option<FileRange>,
    tls: Option<TargetRange>,
}

impl InspectionScan {
    spec fn found(self) -> Inspection {
        Inspection {
            load_segments: self.load_segments@,
            dynamic: self.dynamic,
            relro: self.relro,
            stack: self.stack,
            interpreter: self.interpreter,
            tls: self.tls,
        }
    }

    /// Whether the scan has seen the first `k` headers.
    spec fn covers(self, headers: Seq<ProgramHeaderFields>, k: int) -> bool {
        &&& self.found() == inspection_of(headers, k)
        &&& self.dynamic is Some <==> has_type(headers, k, PT_DYNAMIC)
        &&& self.relro is Some <==> has_type(headers, k, PT_GNU_RELRO)
        &&& self.stack != StackKind::NotDeclared <==> has_type(headers, k, PT_GNU_STACK)
        &&& self.interpreter is Some <==> has_type(headers, k, PT_INTERP)
        &&& self.tls is Some <==> has_type(headers, k, PT_TLS)
    }

    fn new() -> (r: Self)
        ensures
            forall|headers: Seq<ProgramHeaderFields>| #[trigger] r.covers(headers, 0),
    {
        let scan = InspectionScan {
            load_segments: Vec::new(),
            dynamic: None,
            relro: None,
            stack: StackKind::NotDeclared,
            interpreter: None,
            tls: None,
        };
        assert forall|headers: Seq<ProgramHeaderFields>| #[trigger] scan.covers(headers, 0) by {
            assert(scan.found() =~= inspection_of(headers, 0));
        }
        scan
    }

    /// Takes in header number `index`.
    fn accept(
        &mut self,
        index: u16,
        ph: ProgramHeaderFields,
        file_len: u64,
        machine: ElfMachine,
        policy: &LoadPolicy,
        Ghost(headers): Ghost<Seq<ProgramHeaderFields>>,
    ) -> (r: LoadResult<()>)
        requires
            index < headers.len(),
            headers[index as int] == ph,
            old(self).covers(headers, index as int),
        ensures
            r == inspect_fault(headers, index as int, file_len, machine, *policy),
            r is Ok ==> final(self).covers(headers, index + 1),
    {
        let file_range = FileRange::new(ph.file_offset, ph.file_size);
        let target_range = TargetRange::new(TargetAddr::new(ph.vaddr), ph.memory_size);
        proof {
            assert forall|t: u32| #[trigger] has_type(headers, index + 1, t) <==> has_type(
                headers,
                index as int,
                t,
            ) || ph.program_type == t by {
                if has_type(headers, index as int, t) {
                    let i = choose|i: int|
                        0 <= i < index && (#[trigger] headers[i]).program_type == t;
                    assert(headers[i].program_type == t);
                }
                if ph.program_type == t {
                    assert(headers[index as int].program_type == t);
                }
            }
        }
        if ph.program_type == PT_LOAD {
            check_filled(index, &ph, file_len)?;
            self.load_segments.push(
                LoadSegmentInfo::new(
                    index,
                    file_range,
                    TargetAddr::new(ph.vaddr),
                    ph.memory_size,
                    ph.align,
                    permissions_from_flags(ph.flags),
                ),
            );
        } else if ph.program_type == PT_DYNAMIC {
            if self.dynamic.is_some() {
                return Err(duplicate(index, ProgramHeaderField::DuplicateDynamic, &ph));
            }
            claim_range(file_range.validate(file_len), LoadStage::Inspect)?;
            claim_range(target_range.end(), LoadStage::Inspect)?;
            self.dynamic = Some(
                DynamicSegmentInfo::new(
                    index,
                    file_range,
                    TargetAddr::new(ph.vaddr),
                    ph.memory_size,
                ),
            );
        } else if ph.program_type == PT_GNU_RELRO {
            if self.relro.is_some() {
                return Err(duplicate(index, ProgramHeaderField::DuplicateRelro, &ph));
            }
            claim_range(target_range.end(), LoadStage::Inspect)?;
            self.relro = Some(target_range);
        } else if ph.program_type == PT_GNU_STACK {
            if self.stack != StackKind::NotDeclared {
                return Err(duplicate(index, ProgramHeaderField::DuplicateStack, &ph));
            }
            if ph.flags & PF_X != 0 {
                self.stack = StackKind::Executable;
            } else {
                self.stack = StackKind::NonExecutable;
            }
        } else if ph.program_type == PT_INTERP {
            if self.interpreter.is_some() {
                return Err(duplicate(index, ProgramHeaderField::DuplicateInterpreter, &ph));
            }
            claim_range(file_range.validate(file_len), LoadStage::Inspect)?;
            self.interpreter = Some(file_range);
        } else if ph.program_type == PT_TLS {
            if self.tls.is_some() {
                return Err(duplicate(index, ProgramHeaderField::DuplicateTls, &ph));
            }
            check_filled(index, &ph, file_len)?;
            self.tls = Some(target_range);
        } else if ph.program_type == PT_PHDR || ph.program_type == PT_GNU_EH_FRAME || (
        ph.program_type == PT_ARM_EXIDX && machine == ElfMachine::Arm) || (ph.program_type
            == PT_RISCV_ATTRIBUTES && machine == ElfMachine::Riscv) {
        } else if !policy.allows_unknown_program_headers() {
            return Err(
                inspection_error(
                    LoadErrorKind::UnsupportedByProfile,
                    index,
                    ProgramHeaderField::UnknownField,
                    ph.program_type as u64,
                ),
            );
        }
        assert(self.found() =~= inspection_of(headers, index + 1));
        Ok(())
    }

    fn check_features(&self, policy: &LoadPolicy) -> (r: LoadResult<()>)
        ensures
            r == feature_fault(self.found(), *policy),
    {
        if !policy.allows_executable_stack() && self.stack == StackKind::Executable {
            return Err(
                inspection_error(
                    LoadErrorKind::UnsupportedByProfile,
                    0,
                    ProgramHeaderField::ExecutableStack,
                    0,
                ),
            );
        }
        if !policy.allows_interpreter() && self.interpreter.is_some() {
            return Err(
                inspection_error(
                    LoadErrorKind::UnsupportedByProfile,
                    0,
                    ProgramHeaderField::UnsupportedInterpreter,
                    0,
                ),
            );
        }
        if !policy.allows_tls() && self.tls.is_some() {
            return Err(
                inspection_error(
                    LoadErrorKind::UnsupportedByProfile,
                    0,
                    ProgramHeaderField::UnsupportedTls,
                    0,
                ),
            );
        }
        Ok(())
    }
}

fn check_filled(index: u16, ph: &ProgramHeaderFields, file_len: u64) -> (r: LoadResult<()>)
    ensures
        r == filled_fault(*ph, index as int, file_len),
{
    if ph.file_size > ph.memory_size {
        return Err(
            inspection_error(
                LoadErrorKind::BadElf,
                index,
                ProgramHeaderField::FileRange,
                ph.file_size,
            ),
        );
    }
    claim_range(
        FileRange::new(ph.file_offset, ph.file_size).validate(file_len),
        LoadStage::Inspect,
    )?;
    claim_range(
        TargetRange::new(TargetAddr::new(ph.vaddr), ph.memory_size).end(),
        LoadStage::Inspect,
    )?;
    Ok(())
}

fn inspection_error(kind: LoadErrorKind, index: u16, field: ProgramHeaderField, value: u64) -> (r:
    LoadError)
    ensures
        r == refused(kind, index as int, field, value),
{
    fail_at(LoadStage::Inspect, kind, ErrorContext::ProgramHeader { index, field, value })
}

fn duplicate(index: u16, field: ProgramHeaderField, ph: &ProgramHeaderFields) -> (r: LoadError)
    ensures
        r == refused(LoadErrorKind::BadElf, index as int, field, ph.program_type as u64),
{
    inspection_error(LoadErrorKind::BadElf, index, field, ph.program_type as u64)
}

proof fn lemma_first_inspect_fault(
    headers: Seq<ProgramHeaderFields>,
    k: int,
    to: int,
    file_len: u64,
    machine: ElfMachine,
    policy: LoadPolicy,
)
    requires
        0 <= k <= to,
        first_inspect_fault(headers, k, file_len, machine, policy) is Err,
    ensures
        first_inspect_fault(headers, to, file_len, machine, policy) == first_inspect_fault(
            headers,
            k,
            file_len,
            machine,
            policy,
        ),
    decreases to - k,
{
    if k < to {
        lemma_first_inspect_fault(headers, k, to - 1, file_len, machine, policy);
    }
}

impl<R: ElfReader> AdmittedImage<R> {
    #[inline]
    pub fn new(reader: R, header: ElfHeaderInfo, request: LoadRequest, file_len: u64) -> (r: Self)
        ensures
            r == (AdmittedImage { reader, header, request, file_len }),
    {
        AdmittedImage { reader, header, request, file_len }
    }

    /// The program headers in the bytes of the image.
    pub open spec fn headers(self) -> Seq<ProgramHeaderFields> {
        headers_in(
            self.reader.bytes(),
            self.header.program_header_offset as int,
            self.header.program_header_entry_size as int,
            self.header.program_header_count as int,
            self.request.profile.class,
            self.request.profile.endian,
        )
    }

    /// Whether inspecting the image fails as it must where one of its program headers
    /// cannot be read, and there are not too many.
    pub open spec fn uninspected<T>(self, policy: LoadPolicy, r: LoadResult<T>) -> bool {
        let len = self.reader.bytes().len();
        let class = self.request.profile.class;
        self.header.program_header_count <= self.request.limits.max_load_segments ==> (
        first_unreadable(self.header, class, len, 0) matches Some(k) ==> fails_unread(
            r,
            first_inspect_fault(self.headers(), k, self.file_len, self.header.machine, policy),
            unreadable_fault(self.header, class, len, k, LoadStage::Inspect),
            LoadStage::Inspect,
        ))
    }

    /// Reads, decodes and checks the program headers, one after the other, under
    /// a policy.
    pub fn inspect_with_policy(self, policy: &LoadPolicy) -> (r: LoadResult<InspectedImage<R>>)
        ensures
            r matches Ok(image) ==> {
                &&& inspect_spec(
                    self.request,
                    self.header.machine,
                    self.headers(),
                    self.file_len,
                    *policy,
                ) == Ok::<Inspection, LoadError>(image.found())
                &&& image.reader == self.reader
                &&& image.request == self.request
                &&& image.header == self.header
                &&& self.reader.bytes().len() <= u64::MAX ==> table_readable(
                    self.header,
                    self.request.profile.class,
                    self.reader.bytes().len(),
                )
            },
            r matches Err(error) ==> error.stage == Some(LoadStage::Inspect),
            self.reader.reliable() && self.reader.bytes().len() <= u64::MAX ==> self.uninspected(
                *policy,
                r,
            ),
            self.header.program_header_count > self.request.limits.max_load_segments ==> r == Err::<
                InspectedImage<R>,
                LoadError,
            >(
                over_limit(
                    LoadStage::Inspect,
                    LimitKind::LoadSegmentCount,
                    self.header.program_header_count as u64,
                    self.request.limits.max_load_segments as u64,
                ),
            ),
            self.reader.reliable() && table_readable(
                self.header,
                self.request.profile.class,
                self.reader.bytes().len(),
            ) ==> match inspect_spec(
                self.request,
                self.header.machine,
                self.headers(),
                self.file_len,
                *policy,
            ) {
                Ok(_) => r is Ok,
                Err(error) => r == Err::<InspectedImage<R>, LoadError>(error),
            },
    {
        let count: u16 = self.header.program_header_count();
        claim_at(
            self.request.limits().check_load_segment_count(count as usize),
            LoadStage::Inspect,
        )?;
        let ghost headers = self.headers();
        let ghost len = self.reader.bytes().len();
        let ghost class = self.request.profile.class;
        let mut scan = InspectionScan::new();
        let mut index: u16 = 0;
        proof {
            assert(scan.covers(headers, 0));
            if len <= u64::MAX {
                readable_tables_have_readable_headers(self.header, class, len);
            }
        }
        while index < count
            invariant
                index <= count,
                len == self.reader.bytes().len(),
                class == self.request.profile.class,
                len <= u64::MAX ==> (table_readable(self.header, class, len) <==> first_unreadable(
                    self.header,
                    class,
                    len,
                    0,
                ) is None),
                first_unreadable(self.header, class, len, 0) == first_unreadable(
                    self.header,
                    class,
                    len,
                    index as int,
                ),
                count == self.header.program_header_count,
                count <= self.request.limits.max_load_segments,
                headers == self.headers(),
                scan.covers(headers, index as int),
                first_inspect_fault(
                    headers,
                    index as int,
                    self.file_len,
                    self.header.machine,
                    *policy,
                ) is Ok,
                index > 0 ==> self.header.program_header_entry_size >= program_header_size(
                    self.request.profile.class,
                ) && self.header.program_header_offset + index
                    * self.header.program_header_entry_size <= self.reader.bytes().len(),
            decreases count - index,
        {
            let ph = match read_program_header(
                &self.reader,
                &self.header,
                index,
                self.request.profile().class(),
                self.request.profile().endian(),
                LoadStage::Inspect,
            ) {
                Ok(ph) => ph,
                Err(error) => return Err(error),
            };
            proof {
                let size = self.header.program_header_entry_size as int;
                assert((index + 1) * size == index * size + size) by (nonlinear_arith);
                assert(entry_readable(self.header, class, len, index as int));
                lemma_unreadable(self.header, class, len, index as int);
            }
            match scan.accept(
                index,
                ph,
                self.file_len,
                self.header.machine(),
                policy,
                Ghost(headers),
            ) {
                Ok(_) => {},
                Err(error) => {
                    proof {
                        lemma_first_inspect_fault(
                            headers,
                            index + 1,
                            count as int,
                            self.file_len,
                            self.header.machine,
                            *policy,
                        );
                        if let Some(k) = first_unreadable(self.header, class, len, 0) {
                            lemma_first_inspect_fault(
                                headers,
                                index + 1,
                                k,
                                self.file_len,
                                self.header.machine,
                                *policy,
                            );
                        }
                    }
                    return Err(error);
                },
            }
            index = index + 1;
        }
        scan.check_features(policy)?;
        Ok(
            InspectedImage::new(
                self.reader,
                self.request,
                self.header,
                scan.load_segments,
                scan.dynamic,
                scan.relro,
                scan.stack,
                scan.interpreter,
                scan.tls,
            ),
        )
    }

    /// Reads, decodes and checks the program headers, one after the other. Nothing
    /// optional is allowed.
    pub fn inspect(self) -> (r: LoadResult<InspectedImage<R>>)
        ensures
            r matches Ok(image) ==> {
                &&& inspect_spec(
                    self.request,
                    self.header.machine,
                    self.headers(),
                    self.file_len,
                    LoadPolicy::phase0_spec(),
                ) == Ok::<Inspection, LoadError>(image.found())
                &&& image.reader == self.reader
                &&& image.request == self.request
                &&& image.header == self.header
                &&& self.reader.bytes().len() <= u64::MAX ==> table_readable(
                    self.header,
                    self.request.profile.class,
                    self.reader.bytes().len(),
                )
            },
            r matches Err(error) ==> error.stage == Some(LoadStage::Inspect),
            self.reader.reliable() && self.reader.bytes().len() <= u64::MAX ==> self.uninspected(
                LoadPolicy::phase0_spec(),
                r,
            ),
            self.header.program_header_count > self.request.limits.max_load_segments ==> r == Err::<
                InspectedImage<R>,
                LoadError,
            >(
                over_limit(
                    LoadStage::Inspect,
                    LimitKind::LoadSegmentCount,
                    self.header.program_header_count as u64,
                    self.request.limits.max_load_segments as u64,
                ),
            ),
            self.reader.reliable() && table_readable(
                self.header,
                self.request.profile.class,
                self.reader.bytes().len(),
            ) ==> match inspect_spec(
                self.request,
                self.header.machine,
                self.headers(),
                self.file_len,
                LoadPolicy::phase0_spec(),
            ) {
                Ok(_) => r is Ok,
                Err(error) => r == Err::<InspectedImage<R>, LoadError>(error),
            },
    {
        let policy = LoadPolicy::phase0();
        self.inspect_with_policy(&policy)
    }
}

proof fn lemma_no_inspect_fault(
    headers: Seq<ProgramHeaderFields>,
    k: int,
    file_len: u64,
    machine: ElfMachine,
    policy: LoadPolicy,
    h: int,
)
    requires
        0 <= h < k,
        first_inspect_fault(headers, k, file_len, machine, policy) is Ok,
    ensures
        inspect_fault(headers, h, file_len, machine, policy) is Ok,
    decreases k,
{
    if h < k - 1 {
        lemma_no_inspect_fault(headers, k - 1, file_len, machine, policy, h);
    }
}

/// The segments of an inspected image are its loadable program headers (those of type 1)
/// with their addresses, sizes, places in the file, alignments and permissions. Each lies
/// in the file and among the addresses, and has no more bytes in the file than in memory.
pub proof fn inspected_segments_are_loadable_headers(
    request: LoadRequest,
    machine: ElfMachine,
    headers: Seq<ProgramHeaderFields>,
    file_len: u64,
    policy: LoadPolicy,
    found: Inspection,
)
    requires
        headers.len() <= 0x1_0000,
        inspect_spec(request, machine, headers, file_len, policy) == Ok::<Inspection, LoadError>(
            found,
        ),
    ensures
        headers.len() <= request.limits.max_load_segments,
        forall|h: int|
            0 <= h < headers.len() && (#[trigger] headers[h]).program_type == 1 ==> {
                &&& headers[h].file_size <= headers[h].memory_size
                &&& headers[h].file_offset + headers[h].file_size <= file_len
                &&& headers[h].vaddr + headers[h].memory_size <= u64::MAX
                &&& exists|s: int|
                    0 <= s < found.load_segments.len() && (#[trigger] found.load_segments[s]).index
                        == h
            },
        forall|s: int|
            0 <= s < found.load_segments.len() ==> {
                let segment = #[trigger] found.load_segments[s];
                let from = headers[segment.index as int];
                &&& segment.index < headers.len()
                &&& from.program_type == 1
                &&& segment.vaddr.0 == from.vaddr
                &&& segment.memory_size == from.memory_size
                &&& segment.file_range.offset == from.file_offset
                &&& segment.file_range.len == from.file_size
                &&& segment.align == from.align
                &&& segment.permissions.readable() <==> from.flags & 4 != 0
                &&& segment.permissions.writable() <==> from.flags & 2 != 0
                &&& segment.permissions.executable() <==> from.flags & 1 != 0
            },
{
    let n = headers.len() as int;
    lemma_segments_of(headers, n);
    assert forall|h: int| 0 <= h < n && (#[trigger] headers[h]).program_type == 1 implies
        headers[h].file_size <= headers[h].memory_size && headers[h].file_offset
        + headers[h].file_size <= file_len && headers[h].vaddr + headers[h].memory_size
        <= u64::MAX && exists|s: int|
        0 <= s < found.load_segments.len() && (#[trigger] found.load_segments[s]).index == h by {
        lemma_no_inspect_fault(headers, n, file_len, machine, policy, h);
        let s = choose|s: int|
            0 <= s < found.load_segments.len() && found.load_segments[s] == segment_of(
                h,
                headers[h],
            );
        assert(found.load_segments[s].index == h);
    }
    assert forall|s: int| 0 <= s < found.load_segments.len() implies {
        let segment = #[trigger] found.load_segments[s];
        let from = headers[segment.index as int];
        &&& segment.permissions.readable() <==> from.flags & 4 != 0
        &&& segment.permissions.writable() <==> from.flags & 2 != 0
        &&& segment.permissions.executable() <==> from.flags & 1 != 0
    } by {
        permissions_follow_flags(headers[found.load_segments[s].index as int].flags);
    }
}

/// An inspected image has at most one dynamic segment, one range that is read-only after
/// relocation, one stack, one interpreter and one thread-local segment. It has a stack
/// that can be executed, an interpreter or a thread-local segment only where the policy
/// allows that.
pub proof fn inspected_images_have_one_of_each(
    request: LoadRequest,
    machine: ElfMachine,
    headers: Seq<ProgramHeaderFields>,
    file_len: u64,
    policy: LoadPolicy,
    found: Inspection,
)
    requires
        inspect_spec(request, machine, headers, file_len, policy) == Ok::<Inspection, LoadError>(
            found,
        ),
    ensures
        forall|g: int, h: int|
            0 <= g < h < headers.len() && (#[trigger] headers[g]).program_type == (
            #[trigger] headers[h]).program_type ==> headers[g].program_type != 2
                && headers[g].program_type != 3 && headers[g].program_type != 7
                && headers[g].program_type != 0x6474_e551 && headers[g].program_type
                != 0x6474_e552,
        forall|h: int|
            0 <= h < headers.len() ==> {
                &&& (#[trigger] headers[h]).program_type == 3 ==> policy.allow_interpreter
                &&& headers[h].program_type == 7 ==> policy.allow_tls
                &&& headers[h].program_type == 0x6474_e551 && headers[h].flags & 1 != 0
                    ==> policy.allow_executable_stack
            },
{
    let n = headers.len() as int;
    assert forall|g: int, h: int|
        0 <= g < h < n && (#[trigger] headers[g]).program_type == (
        #[trigger] headers[h]).program_type implies headers[g].program_type != 2
        && headers[g].program_type != 3 && headers[g].program_type != 7 && headers[g].program_type
        != 0x6474_e551 && headers[g].program_type != 0x6474_e552 by {
        lemma_no_inspect_fault(headers, n, file_len, machine, policy, h);
        assert(has_type(headers, h, headers[g].program_type));
    }
    assert forall|h: int| 0 <= h < n implies {
        &&& (#[trigger] headers[h]).program_type == 3 ==> policy.allow_interpreter
        &&& headers[h].program_type == 7 ==> policy.allow_tls
        &&& headers[h].program_type == 0x6474_e551 && headers[h].flags & 1 != 0
            ==> policy.allow_executable_stack
    } by {
        lemma_declared(headers, n, file_len, machine, policy, h);
    }
}

proof fn lemma_declared(
    headers: Seq<ProgramHeaderFields>,
    k: int,
    file_len: u64,
    machine: ElfMachine,
    policy: LoadPolicy,
    h: int,
)
    requires
        0 <= h < k <= headers.len(),
        first_inspect_fault(headers, k, file_len, machine, policy) is Ok,
    ensures
        headers[h].program_type == 3 ==> interpreter_of(headers, k) is Some,
        headers[h].program_type == 7 ==> tls_of(headers, k) is Some,
        headers[h].program_type == 0x6474_e551 && headers[h].flags & 1 != 0 ==> stack_of(
            headers,
            k,
        ) is Executable,
    decreases k,
{
    if h < k - 1 {
        lemma_declared(headers, k - 1, file_len, machine, policy, h);
        assert(has_type(headers, k - 1, headers[h].program_type));
    }
}

/// What is admitted is no longer, and has no more program headers, than the request
/// allows.
pub proof fn admitted_images_keep_their_limits(
    header: ElfHeaderInfo,
    request: LoadRequest,
    file_len: u64,
)
    ensures
        admission_fault(header, request, file_len) is Ok <==> file_len
            <= request.limits.max_file_len && header.program_header_count
            <= request.limits.max_program_headers,
{
}

/// A program header is accepted by its type. A loadable one and thread-local storage have no
/// more bytes in the file than in memory. Both, and a dynamic one, have their bytes in the
/// file and end within the address space. So does a range that is read only in the end; an
/// interpreter has its bytes in the file. But for a loadable one each of these, and the
/// stack, is there only once. Others are passed over where they need no work, and else where
/// the policy allows unknown ones.
pub proof fn headers_are_inspected_by_their_type(
    headers: Seq<ProgramHeaderFields>,
    i: int,
    file_len: u64,
    machine: ElfMachine,
    policy: LoadPolicy,
)
    requires
        0 <= i < headers.len(),
    ensures
        ({
            let header = headers[i];
            let first = forall|j: int|
                0 <= j < i ==> (#[trigger] headers[j]).program_type != header.program_type;
            let in_file = header.file_offset + header.file_size <= file_len;
            let in_memory = header.vaddr + header.memory_size <= u64::MAX;
            let filled = header.file_size <= header.memory_size;
            inspect_fault(headers, i, file_len, machine, policy) is Ok <==> if header.program_type
                == 1 {
                filled && in_file && in_memory
            } else if header.program_type == 7 {
                first && filled && in_file && in_memory
            } else if header.program_type == 2 {
                first && in_file && in_memory
            } else if header.program_type == 0x6474_e552 {
                first && in_memory
            } else if header.program_type == 3 {
                first && in_file
            } else if header.program_type == 0x6474_e551 {
                first
            } else {
                header.program_type == 6 || header.program_type == 0x6474_e550 || (
                header.program_type == 0x7000_0001 && machine is Arm) || (header.program_type
                    == 0x7000_0003 && machine is Riscv) || policy.allow_unknown_program_headers
            }
        }),
{
}

/// The policy refuses an image exactly if it has an executable stack, an interpreter or
/// thread-local storage that the policy does not allow.
pub proof fn features_are_refused_by_the_policy(found: Inspection, policy: LoadPolicy)
    ensures
        feature_fault(found, policy) is Err <==> (found.stack is Executable
            && !policy.allow_executable_stack) || (found.interpreter is Some
            && !policy.allow_interpreter) || (found.tls is Some && !policy.allow_tls),
{
}

/// A file is admitted exactly if neither it nor its table of program headers is too large.
pub proof fn files_are_admitted_by_their_size(
    header: ElfHeaderInfo,
    request: LoadRequest,
    file_len: u64,
)
    ensures
        admission_fault(header, request, file_len) is Ok <==> file_len
            <= request.limits.max_file_len && header.program_header_count
            <= request.limits.max_program_headers,
{
}

} // verus!
