//! Target addresses, target ranges and file ranges with checked arithmetic.

use crate::arith::{is_power_of_two, lemma_ceil_to, lemma_floor_to};
use crate::error::{ErrorContext, LoadError, LoadErrorKind, LoadResult, LoadStage};
use vstd::prelude::*;

verus! {

pub type RangeResult<T> = core::result::Result<T, RangeError>;

/// An address or range failure before a pipeline stage has claimed it.
///
/// Checked arithmetic is shared by admission, mapping, relocation, cache
/// maintenance and sealing. Keeping its failures free of a stage lets the
/// caller report the stage that consumed the untrusted value.
#[derive(Debug, PartialEq, Eq)]
pub struct RangeError {
    pub kind: LoadErrorKind,
    pub context: ErrorContext,
}

impl RangeError {
    /// The load error that `stage` makes of this failure.
    pub open spec fn at_spec(self, stage: LoadStage) -> LoadError {
        LoadError { stage: Some(stage), kind: self.kind, context: self.context }
    }

    /// The load error that no stage has claimed yet.
    pub open spec fn unstaged_spec(self) -> LoadError {
        LoadError { stage: None, kind: self.kind, context: self.context }
    }

    pub fn new(kind: LoadErrorKind, context: ErrorContext) -> (r: Self)
        ensures
            r.kind == kind,
            r.context == context,
    {
        RangeError { kind, context }
    }

    pub fn at(self, stage: LoadStage) -> (r: LoadError)
        ensures
            r == self.at_spec(stage),
    {
        LoadError { stage: Some(stage), kind: self.kind, context: self.context }
    }

    /// This failure as a load error without a stage.
    pub fn unstaged(self) -> (r: LoadError)
        ensures
            r == self.unstaged_spec(),
    {
        LoadError { stage: None, kind: self.kind, context: self.context }
    }

    pub fn kind(&self) -> (r: LoadErrorKind)
        ensures
            r == self.kind,
    {
        self.kind
    }

    pub fn context(&self) -> (r: &ErrorContext)
        ensures
            *r == self.context,
    {
        &self.context
    }
}

/// `result` with its failure reported by `stage`.
pub open spec fn range_at<T>(result: RangeResult<T>, stage: LoadStage) -> LoadResult<T> {
    match result {
        Ok(value) => Ok(value),
        Err(error) => Err(error.at_spec(stage)),
    }
}

/// Reports the failure of `result` on behalf of `stage`.
#[inline]
pub fn claim_range<T>(result: RangeResult<T>, stage: LoadStage) -> (r: LoadResult<T>)
    ensures
        r == range_at(result, stage),
{
    match result {
        Ok(value) => Ok(value),
        Err(error) => Err(error.at(stage)),
    }
}

/// An address of the machine an image is loaded for.
#[derive(Clone, Copy, Debug, PartialEq, Eq, Structural, PartialOrd, Ord)]
pub struct TargetAddr(pub u64);

/// The failure of an address computation that leaves the address space.
pub open spec fn range_overflow(start: TargetAddr, len: u64) -> RangeError {
    RangeError {
        kind: LoadErrorKind::IntegerOverflow,
        context: ErrorContext::TargetRange { start, len, align: 0 },
    }
}

/// The failure of an alignment that is no power of two.
pub open spec fn bad_alignment(align: u64) -> RangeError {
    RangeError {
        kind: LoadErrorKind::InvalidAlignment,
        context: ErrorContext::TargetRange { start: TargetAddr(0), len: align, align: 0 },
    }
}

impl TargetAddr {
    pub open spec fn add_spec(self, value: u64) -> RangeResult<TargetAddr> {
        if self.0 + value <= u64::MAX {
            Ok(TargetAddr((self.0 + value) as u64))
        } else {
            Err(range_overflow(self, value))
        }
    }

    pub open spec fn sub_spec(self, other: TargetAddr) -> RangeResult<u64> {
        if self.0 >= other.0 {
            Ok((self.0 - other.0) as u64)
        } else {
            Err(range_overflow(other, self.0))
        }
    }

    pub open spec fn align_down_spec(self, align: u64) -> RangeResult<TargetAddr> {
        if crate::arith::power_of_two(align as int) {
            Ok(TargetAddr(crate::arith::floor_to(self.0 as int, align as int) as u64))
        } else {
            Err(bad_alignment(align))
        }
    }

    pub open spec fn align_up_spec(self, align: u64) -> RangeResult<TargetAddr> {
        if !crate::arith::power_of_two(align as int) {
            Err(bad_alignment(align))
        } else if self.0 + align - 1 > u64::MAX {
            Err(range_overflow(self, (align - 1) as u64))
        } else {
            Ok(TargetAddr(crate::arith::ceil_to(self.0 as int, align as int) as u64))
        }
    }

    #[inline]
    pub fn new(value: u64) -> (r: Self)
        ensures
            r.0 == value,
    {
        TargetAddr(value)
    }

    #[inline]
    pub fn get(self) -> (r: u64)
        ensures
            r == self.0,
    {
        self.0
    }

    pub fn checked_add(self, value: u64) -> (r: RangeResult<Self>)
        ensures
            r == self.add_spec(value),
    {
        match self.0.checked_add(value) {
            Some(sum) => Ok(TargetAddr(sum)),
            None => Err(
                RangeError::new(
                    LoadErrorKind::IntegerOverflow,
                    ErrorContext::TargetRange { start: self, len: value, align: 0 },
                ),
            ),
        }
    }

    pub fn checked_sub(self, other: Self) -> (r: RangeResult<u64>)
        ensures
            r == self.sub_spec(other),
    {
        match self.0.checked_sub(other.0) {
            Some(difference) => Ok(difference),
            None => Err(
                RangeError::new(
                    LoadErrorKind::IntegerOverflow,
                    ErrorContext::TargetRange { start: other, len: self.0, align: 0 },
                ),
            ),
        }
    }

    pub fn align_down(self, align: u64) -> (r: RangeResult<Self>)
        ensures
            r == self.align_down_spec(align),
    {
        validate_alignment(align)?;
        proof {
            lemma_floor_to(self.0 as int, align as int);
        }
        Ok(TargetAddr(self.0 - self.0 % align))
    }

    pub fn align_up(self, align: u64) -> (r: RangeResult<Self>)
        ensures
            r == self.align_up_spec(align),
    {
        validate_alignment(align)?;
        let raised = self.checked_add(align - 1)?;
        proof {
            lemma_floor_to(raised.0 as int, align as int);
            lemma_ceil_to(self.0 as int, align as int);
        }
        Ok(TargetAddr(raised.0 - raised.0 % align))
    }
}

fn validate_alignment(align: u64) -> (r: RangeResult<()>)
    ensures
        r == (if crate::arith::power_of_two(align as int) {
            Ok::<(), RangeError>(())
        } else {
            Err::<(), RangeError>(bad_alignment(align))
        }),
{
    if is_power_of_two(align) {
        Ok(())
    } else {
        Err(alignment_error(0, align))
    }
}

fn alignment_error(value: u64, align: u64) -> (r: RangeError)
    ensures
        r.kind == LoadErrorKind::InvalidAlignment,
        r.context == (ErrorContext::TargetRange { start: TargetAddr(value), len: align, align: 0 }),
{
    RangeError::new(
        LoadErrorKind::InvalidAlignment,
        ErrorContext::TargetRange { start: TargetAddr::new(value), len: align, align: 0 },
    )
}

/// A range of target addresses.
#[derive(Clone, Copy, Debug, PartialEq, Eq, Structural)]
pub struct TargetRange {
    pub start: TargetAddr,
    pub len: u64,
}

impl TargetRange {
    /// The mathematical end of the range, which may lie outside the address space.
    pub open spec fn limit(self) -> int {
        self.start.0 + self.len
    }

    /// Whether the end of the range is an address.
    pub open spec fn bounded(self) -> bool {
        self.limit() <= u64::MAX
    }

    /// Whether `address` lies in the range.
    pub open spec fn has(self, address: int) -> bool {
        self.start.0 <= address < self.limit()
    }

    pub open spec fn end_spec(self) -> RangeResult<TargetAddr> {
        self.start.add_spec(self.len)
    }

    /// Whether the range is bounded and holds the `len` addresses from `start` on.
    pub open spec fn holds(self, start: TargetAddr, len: u64) -> bool {
        &&& self.bounded()
        &&& self.start.0 <= start.0
        &&& start.0 + len <= self.limit()
    }

    /// Whether the two ranges share an address. A non-empty range that leaves the
    /// address space meets every other non-empty range.
    pub open spec fn meets(self, other: TargetRange) -> bool {
        &&& self.len != 0
        &&& other.len != 0
        &&& (!self.bounded() || !other.bounded() || (self.start.0 < other.limit()
            && other.start.0 < self.limit()))
    }

    #[inline]
    pub fn new(start: TargetAddr, len: u64) -> (r: Self)
        ensures
            r == (TargetRange { start, len }),
    {
        TargetRange { start, len }
    }

    #[inline]
    pub fn start(self) -> (r: TargetAddr)
        ensures
            r == self.start,
    {
        self.start
    }

    #[inline]
    pub fn len(self) -> (r: u64)
        ensures
            r == self.len,
    {
        self.len
    }

    #[inline]
    pub fn is_empty(self) -> (r: bool)
        ensures
            r == (self.len == 0),
    {
        self.len == 0
    }

    pub fn end(self) -> (r: RangeResult<TargetAddr>)
        ensures
            r == self.end_spec(),
    {
        self.start.checked_add(self.len)
    }

    pub fn contains_span(self, start: TargetAddr, len: u64) -> (r: bool)
        ensures
            r == self.holds(start, len),
    {
        let self_end: TargetAddr = match self.end() {
            Ok(end) => end,
            Err(_) => return false,
        };
        let span_end: TargetAddr = match start.checked_add(len) {
            Ok(end) => end,
            Err(_) => return false,
        };
        start.0 >= self.start.0 && span_end.0 <= self_end.0
    }

    pub fn overlaps(self, other: Self) -> (r: bool)
        ensures
            r == self.meets(other),
    {
        if self.is_empty() || other.is_empty() {
            return false;
        }
        match (self.end(), other.end()) {
            (Ok(self_end), Ok(other_end)) => {
                self.start.0 < other_end.0 && other.start.0 < self_end.0
            },
            _ => true,
        }
    }
}

/// Meeting is symmetric.
pub proof fn meeting_is_symmetric(a: TargetRange, b: TargetRange)
    ensures
        a.meets(b) == b.meets(a),
{
}

/// Two bounded ranges meet exactly when some address lies in both.
pub proof fn meeting_is_sharing_an_address(a: TargetRange, b: TargetRange)
    requires
        a.bounded(),
        b.bounded(),
    ensures
        a.meets(b) <==> exists|x: int| a.has(x) && b.has(x),
{
    if a.meets(b) {
        let x: int = if a.start.0 >= b.start.0 {
            a.start.0 as int
        } else {
            b.start.0 as int
        };
        assert(a.has(x) && b.has(x));
    }
}

/// A range of bytes of a file.
#[derive(Clone, Copy, Debug, PartialEq, Eq, Structural)]
pub struct FileRange {
    pub offset: u64,
    pub len: u64,
}

/// The failure of a file range that does not fit into a file of `file_len` bytes.
pub open spec fn file_failure(kind: LoadErrorKind, range: FileRange, file_len: u64) -> RangeError {
    RangeError {
        kind,
        context: ErrorContext::FileRange { offset: range.offset, len: range.len, file_len },
    }
}

impl FileRange {
    pub open spec fn limit(self) -> int {
        self.offset + self.len
    }

    pub open spec fn end_spec(self) -> RangeResult<u64> {
        if self.limit() <= u64::MAX {
            Ok(self.limit() as u64)
        } else {
            Err(file_failure(LoadErrorKind::IntegerOverflow, self, 0))
        }
    }

    pub open spec fn validate_spec(self, file_len: u64) -> RangeResult<()> {
        if self.limit() > u64::MAX {
            Err(file_failure(LoadErrorKind::IntegerOverflow, self, 0))
        } else if self.limit() > file_len {
            Err(file_failure(LoadErrorKind::OutOfBounds, self, file_len))
        } else {
            Ok(())
        }
    }

    #[inline]
    pub fn new(offset: u64, len: u64) -> (r: Self)
        ensures
            r == (FileRange { offset, len }),
    {
        FileRange { offset, len }
    }

    #[inline]
    pub fn offset(self) -> (r: u64)
        ensures
            r == self.offset,
    {
        self.offset
    }

    #[inline]
    pub fn len(self) -> (r: u64)
        ensures
            r == self.len,
    {
        self.len
    }

    #[inline]
    pub fn is_empty(self) -> (r: bool)
        ensures
            r == (self.len == 0),
    {
        self.len == 0
    }

    pub fn end(self) -> (r: RangeResult<u64>)
        ensures
            r == self.end_spec(),
    {
        match self.offset.checked_add(self.len) {
            Some(end) => Ok(end),
            None => Err(
                RangeError::new(
                    LoadErrorKind::IntegerOverflow,
                    ErrorContext::FileRange { offset: self.offset, len: self.len, file_len: 0 },
                ),
            ),
        }
    }

    pub fn validate(self, file_len: u64) -> (r: RangeResult<()>)
        ensures
            r == self.validate_spec(file_len),
    {
        if self.end()? <= file_len {
            return Ok(());
        }
        Err(
            RangeError::new(
                LoadErrorKind::OutOfBounds,
                ErrorContext::FileRange { offset: self.offset, len: self.len, file_len },
            ),
        )
    }
}

/// The sum and the difference of addresses are exact, and there is one exactly where it is
/// an address.
pub proof fn address_arithmetic_is_exact(a: TargetAddr, b: TargetAddr, value: u64)
    ensures
        a.add_spec(value) is Ok <==> a.0 + value <= u64::MAX,
        a.add_spec(value) matches Ok(sum) ==> sum.0 == a.0 + value,
        a.sub_spec(b) is Ok <==> a.0 >= b.0,
        a.sub_spec(b) matches Ok(difference) ==> difference == a.0 - b.0,
{
}

/// An address is rounded to the nearest multiple of a power of two below or above it.
pub proof fn addresses_are_rounded_to_multiples(a: TargetAddr, align: u64)
    ensures
        a.align_down_spec(align) is Ok <==> crate::arith::power_of_two(align as int),
        a.align_down_spec(align) matches Ok(low) ==> low.0 % align == 0 && low.0 <= a.0 && a.0
            - low.0 < align,
        a.align_up_spec(align) matches Ok(high) ==> high.0 % align == 0 && a.0 <= high.0 && high.0
            - a.0 < align,
        crate::arith::power_of_two(align as int) && a.0 + align - 1 <= u64::MAX ==> a.align_up_spec(
            align,
        ) is Ok,
{
    if crate::arith::power_of_two(align as int) {
        crate::arith::lemma_power_of_two_positive(align as int);
        lemma_floor_to(a.0 as int, align as int);
        lemma_ceil_to(a.0 as int, align as int);
    }
}

/// A range holds a span exactly if it holds every address of it; of an empty one, it is the
/// place that counts.
pub proof fn ranges_hold_what_lies_in_them(range: TargetRange, start: TargetAddr, len: u64)
    requires
        range.start.0 + range.len <= u64::MAX,
    ensures
        range.holds(start, len) <==> range.start.0 <= start.0 && start.0 + len <= range.start.0
            + range.len,
{
}

/// A range of a file is valid exactly if it ends within the file.
pub proof fn valid_file_ranges_lie_in_the_file(range: FileRange, file_len: u64)
    ensures
        range.validate_spec(file_len) is Ok <==> range.offset + range.len <= file_len,
{
}

} // verus!
