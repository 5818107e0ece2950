//! Making loaded code visible to instruction fetch.

use crate::address::{TargetAddr, TargetRange};
use crate::arith::{floor_to, lemma_floor_to, lemma_power_of_two_positive, power_of_two};
use crate::error::{
    fail_at, failure, ErrorContext, LoadError, LoadErrorKind, LoadResult, LoadStage,
};
use vstd::prelude::*;

verus! {

/// The instruction cache of the running machine.
pub trait CodeCache: Sized {
    /// Whether instruction fetch sees the code in a range.
    spec fn visible(&self, range: TargetRange) -> bool;

    /// Whether the code in a range can surely be made visible.
    spec fn accepts(&self, range: TargetRange) -> bool;

    /// Whether the cache may refuse a range with this failure.
    spec fn refuses(&self, range: TargetRange, error: LoadError) -> bool;

    /// Makes the code in a range visible to instruction fetch. What the cache accepts
    /// and how it refuses does not depend on what was made visible before.
    fn synchronize(&mut self, runtime_range: TargetRange) -> (r: LoadResult<()>)
        ensures
            match r {
                Ok(_) => final(self).visible(runtime_range),
                Err(error) => !old(self).accepts(runtime_range) && old(self).refuses(
                    runtime_range,
                    error,
                ),
            },
            forall|range: TargetRange| #[trigger]
                old(self).visible(range) ==> final(self).visible(range),
            forall|range: TargetRange| #[trigger]
                final(self).accepts(range) == old(self).accepts(range),
            forall|range: TargetRange, error: LoadError| #[trigger]
                final(self).refuses(range, error) == old(self).refuses(range, error),
    ;
}

/// The ranges that were made visible.
pub struct CacheSyncOutcome {
    pub ranges: Vec<TargetRange>,
}

impl CacheSyncOutcome {
    #[inline]
    pub fn ranges(&self) -> (r: &[TargetRange])
        ensures
            r@ == self.ranges@,
    {
        self.ranges.as_slice()
    }
}

/// Whether instruction fetch sees the code in every range.
pub open spec fn all_visible<C: CodeCache>(cache: C, ranges: Seq<TargetRange>) -> bool {
    forall|i: int| 0 <= i < ranges.len() ==> cache.visible(#[trigger] ranges[i])
}

/// Whether the cache accepts every range.
pub open spec fn all_accepted<C: CodeCache>(cache: C, ranges: Seq<TargetRange>) -> bool {
    forall|i: int| 0 <= i < ranges.len() ==> cache.accepts(#[trigger] ranges[i])
}

/// Whether a failure is that of a range that the cache refuses.
pub open spec fn cache_refused<C: CodeCache>(
    cache: C,
    ranges: Seq<TargetRange>,
    error: LoadError,
) -> bool {
    exists|i: int, refusal: LoadError|
        0 <= i < ranges.len() && !cache.accepts(ranges[i]) && #[trigger] cache.refuses(
            ranges[i],
            refusal,
        ) && error == refusal.claimed_by(LoadStage::Cache)
}

/// Synchronizes every range in order.
pub fn synchronize_all<C: CodeCache>(cache: &mut C, ranges: Vec<TargetRange>) -> (r: LoadResult<
    CacheSyncOutcome,
>)
    ensures
        match r {
            Ok(outcome) => outcome.ranges@ == ranges@ && all_visible(*final(cache), ranges@),
            Err(error) => cache_refused(*old(cache), ranges@, error),
        },
        all_accepted(*old(cache), ranges@) ==> r is Ok,
{
    let mut index: usize = 0;
    while index < ranges.len()
        invariant
            index <= ranges@.len(),
            forall|i: int| 0 <= i < index ==> cache.visible(#[trigger] ranges@[i]),
            forall|range: TargetRange| #[trigger]
                cache.accepts(range) == old(cache).accepts(range),
            forall|range: TargetRange, error: LoadError| #[trigger]
                cache.refuses(range, error) == old(cache).refuses(range, error),
        decreases ranges@.len() - index,
    {
        match cache.synchronize(ranges[index]) {
            Ok(_) => {},
            Err(error) => {
                let ghost range = ranges@[index as int];
                assert(old(cache).accepts(range) == cache.accepts(range));
                assert(old(cache).refuses(range, error));
                return Err(error.at_stage(LoadStage::Cache));
            },
        }
        index = index + 1;
    }
    Ok(CacheSyncOutcome { ranges })
}

/// A range whose code cannot be made visible.
pub open spec fn unsynchronizable(range: TargetRange) -> LoadError {
    failure(
        LoadStage::Cache,
        LoadErrorKind::UnsupportedByProfile,
        ErrorContext::TargetRange { start: range.start, len: range.len, align: 0 },
    )
}

pub fn cache_error(runtime_range: TargetRange) -> (r: LoadError)
    ensures
        r == unsynchronizable(runtime_range),
{
    fail_at(
        LoadStage::Cache,
        LoadErrorKind::UnsupportedByProfile,
        ErrorContext::TargetRange {
            start: runtime_range.start(),
            len: runtime_range.len(),
            align: 0,
        },
    )
}

/// The size of a cache line whose logarithm in words is `exponent`.
pub open spec fn line_size_spec(exponent: u64) -> u64
    decreases exponent,
{
    if exponent == 0 {
        4
    } else {
        (2 * line_size_spec((exponent - 1) as u64)) as u64
    }
}

proof fn lemma_line_size(exponent: u64)
    requires
        exponent < 16,
    ensures
        power_of_two(line_size_spec(exponent) as int),
        line_size_spec(exponent) <= 0x2_0000,
{
    reveal_with_fuel(line_size_spec, 17);
    reveal_with_fuel(power_of_two, 19);
}

/// The sizes of the data and the instruction cache lines that a cache type
/// register describes.
pub fn line_sizes(cache_type: u64) -> (r: (u64, u64))
    ensures
        r.0 == line_size_spec((cache_type / 0x1_0000) % 16),
        r.1 == line_size_spec(cache_type % 16),
        power_of_two(r.0 as int),
        power_of_two(r.1 as int),
{
    proof {
        lemma_line_size((cache_type / 0x1_0000) % 16);
        lemma_line_size(cache_type % 16);
    }
    (line_size((cache_type / 0x1_0000) % 16), line_size(cache_type % 16))
}

fn line_size(exponent: u64) -> (r: u64)
    requires
        exponent < 16,
    ensures
        r == line_size_spec(exponent),
{
    let mut size: u64 = 4;
    let mut index: u64 = 0;
    while index < exponent
        invariant
            index <= exponent < 16,
            size == line_size_spec(index),
            size <= 0x2_0000,
        decreases exponent - index,
    {
        proof {
            lemma_line_size((index + 1) as u64);
        }
        size = size * 2;
        index = index + 1;
    }
    size
}

/// The addresses of the lines of size `line` from `first` on that start before
/// `end`.
pub open spec fn lines_from(first: int, line: int, end: int) -> Seq<u64>
    decreases
        if first < end {
            end - first
        } else {
            0
        },
{
    if line <= 0 || first >= end {
        Seq::empty()
    } else {
        seq![first as u64] + lines_from(first + line, line, end)
    }
}

/// Whether the line behind the last one of a range has no address.
pub open spec fn lines_overflow(first: int, line: int, end: int) -> bool
    decreases
        if first < end {
            end - first
        } else {
            0
        },
{
    if line <= 0 || first >= end {
        false
    } else {
        first + line > u64::MAX || lines_overflow(first + line, line, end)
    }
}

/// Every cache line that a range touches, in address order.
pub fn cache_lines(runtime_range: TargetRange, line: u64) -> (r: LoadResult<Vec<u64>>)
    requires
        power_of_two(line as int),
    ensures
        match runtime_range.end_spec() {
            Err(error) => r == Err::<Vec<u64>, LoadError>(error.unstaged_spec()),
            Ok(end) => {
                let first = floor_to(runtime_range.start.0 as int, line as int);
                if lines_overflow(first, line as int, end.0 as int) {
                    r == Err::<Vec<u64>, LoadError>(unsynchronizable(runtime_range))
                } else {
                    r is Ok && r->Ok_0@ == lines_from(first, line as int, end.0 as int)
                }
            },
        },
{
    let end: u64 = match runtime_range.end() {
        Ok(end) => end.get(),
        Err(error) => return Err(error.unstaged()),
    };
    proof {
        lemma_power_of_two_positive(line as int);
        lemma_floor_to(runtime_range.start.0 as int, line as int);
    }
    let first: TargetAddr = match runtime_range.start().align_down(line) {
        Ok(first) => first,
        Err(error) => return Err(error.unstaged()),
    };
    let mut address: u64 = first.get();
    let mut lines: Vec<u64> = Vec::new();
    proof {
        assert(lines@ + lines_from(first.0 as int, line as int, end as int) =~= lines_from(
            first.0 as int,
            line as int,
            end as int,
        ));
    }
    while address < end
        invariant
            line > 0,
            runtime_range.end_spec() == Ok::<TargetAddr, crate::address::RangeError>(
                TargetAddr(end),
            ),
            first.0 == floor_to(runtime_range.start.0 as int, line as int),
            lines@ + lines_from(address as int, line as int, end as int) == lines_from(
                first.0 as int,
                line as int,
                end as int,
            ),
            lines_overflow(first.0 as int, line as int, end as int) == lines_overflow(
                address as int,
                line as int,
                end as int,
            ),
        decreases u64::MAX - address,
    {
        let ghost before = lines@;
        lines.push(address);
        let next: u64 = match address.checked_add(line) {
            Some(next) => next,
            None => return Err(cache_error(runtime_range)),
        };
        proof {
            let rest = lines_from(next as int, line as int, end as int);
            assert(before + (seq![address] + rest) =~= lines@ + rest);
        }
        address = next;
    }
    proof {
        assert(lines@ + Seq::<u64>::empty() =~= lines@);
    }
    Ok(lines)
}

/// Every address of a range lies in one of its cache lines.
pub proof fn cache_lines_cover_their_range(first: int, line: int, end: int, address: int)
    requires
        line > 0,
        0 <= first <= address < end <= u64::MAX,
        !lines_overflow(first, line, end),
    ensures
        exists|i: int|
            0 <= i < lines_from(first, line, end).len() && (#[trigger] lines_from(
                first,
                line,
                end,
            )[i]) <= address < lines_from(first, line, end)[i] + line,
    decreases end - first,
{
    let lines = lines_from(first, line, end);
    if address < first + line {
        assert(lines[0] == first);
    } else {
        cache_lines_cover_their_range(first + line, line, end, address);
        let rest = lines_from(first + line, line, end);
        let i = choose|i: int|
            0 <= i < rest.len() && (#[trigger] rest[i]) <= address < rest[i] + line;
        assert(lines[i + 1] == rest[i]);
    }
}

/// A cache line has four bytes and doubles with every step of its exponent.
pub proof fn line_sizes_are_words_doubled(exponent: u64)
    requires
        exponent < 16,
    ensures
        line_size_spec(exponent) == 4 * vstd::arithmetic::power2::pow2(exponent as nat),
    decreases exponent,
{
    if exponent == 0 {
        vstd::arithmetic::power2::lemma2_to64();
    } else {
        line_sizes_are_words_doubled((exponent - 1) as u64);
        lemma_line_size((exponent - 1) as u64);
        vstd::arithmetic::power2::lemma_pow2_unfold(exponent as nat);
    }
}

/// The lines of a range follow each other without a gap, the last one starts in it, and the
/// next one would not.
pub proof fn cache_lines_follow_each_other(first: int, line: int, end: int, i: int)
    requires
        line > 0,
        0 <= first,
        end <= u64::MAX,
        0 <= i < lines_from(first, line, end).len(),
    ensures
        lines_from(first, line, end)[i] == first + i * line,
        first + i * line < end,
        first + lines_from(first, line, end).len() * line >= end,
    decreases end - first,
{
    let rest = lines_from(first + line, line, end);
    assert(lines_from(first, line, end) == seq![first as u64] + rest);
    let n = rest.len() as int;
    assert((1 + n) * line == line + n * line) by (nonlinear_arith);
    if i > 0 {
        cache_lines_follow_each_other(first + line, line, end, i - 1);
        assert(i * line == line + (i - 1) * line) by (nonlinear_arith);
    } else if n > 0 {
        cache_lines_follow_each_other(first + line, line, end, 0);
    }
    if n == 0 {
        assert(first + line >= end);
    }
}

} // verus!
