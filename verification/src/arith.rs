//! Powers of two and alignment.

use vstd::prelude::*;

verus! {

/// Whether `value` is 1, 2, 4, 8, ...
pub open spec fn power_of_two(value: int) -> bool
    decreases value,
{
    value == 1 || (value > 1 && value % 2 == 0 && power_of_two(value / 2))
}

/// The largest multiple of `align` that is at most `value`.
pub open spec fn floor_to(value: int, align: int) -> int {
    value - value % align
}

/// The smallest multiple of `align` that is at least `value`.
pub open spec fn ceil_to(value: int, align: int) -> int {
    floor_to(value + align - 1, align)
}

pub fn is_power_of_two(value: u64) -> (r: bool)
    ensures
        r == power_of_two(value as int),
{
    if value == 0 {
        return false;
    }
    let mut rest: u64 = value;
    while rest % 2 == 0
        invariant
            rest > 0,
            power_of_two(rest as int) == power_of_two(value as int),
        decreases rest,
    {
        rest = rest / 2;
    }
    rest == 1
}

pub proof fn lemma_power_of_two_positive(value: int)
    requires
        power_of_two(value),
    ensures
        value >= 1,
{
}

/// No power of two lies strictly between one power of two and the next.
pub proof fn lemma_power_of_two_gap(value: int, power: int)
    requires
        power_of_two(value),
        power_of_two(power),
        value < 2 * power,
    ensures
        value <= power,
    decreases power,
{
    if power > 1 && value > 1 {
        lemma_power_of_two_gap(value / 2, power / 2);
    }
}

/// Rounding down stays at or below the value, less than one alignment away, and
/// lands on a multiple.
pub proof fn lemma_floor_to(value: int, align: int)
    requires
        align > 0,
        value >= 0,
    ensures
        0 <= floor_to(value, align) <= value,
        value < floor_to(value, align) + align,
        floor_to(value, align) % align == 0,
{
    assert(0 <= value % align < align && value % align <= value) by (nonlinear_arith)
        requires
            align > 0,
            value >= 0,
    ;
    assert((value - value % align) % align == 0) by (nonlinear_arith)
        requires
            align > 0,
            value >= 0,
    ;
}

/// Rounding up stays at or above the value, less than one alignment away, and
/// lands on a multiple.
pub proof fn lemma_ceil_to(value: int, align: int)
    requires
        align > 0,
        value >= 0,
    ensures
        value <= ceil_to(value, align),
        ceil_to(value, align) < value + align,
        ceil_to(value, align) % align == 0,
{
    lemma_floor_to(value + align - 1, align);
}

/// Rounding to a multiple changes nothing the second time.
pub proof fn rounding_is_idempotent(value: int, align: int)
    requires
        align > 0,
        value >= 0,
    ensures
        floor_to(floor_to(value, align), align) == floor_to(value, align),
        ceil_to(ceil_to(value, align), align) == ceil_to(value, align),
{
    lemma_floor_to(value, align);
    lemma_ceil_to(value, align);
    let up = ceil_to(value, align);
    lemma_ceil_to(up, align);
    lemma_multiples_apart(up, ceil_to(up, align), align);
}

/// Two multiples less than one alignment apart are the same.
pub proof fn lemma_multiples_apart(low: int, high: int, align: int)
    requires
        align > 0,
        low % align == 0,
        high % align == 0,
        low <= high < low + align,
    ensures
        low == high,
{
    assert(low == high) by (nonlinear_arith)
        requires
            align > 0,
            low % align == 0,
            high % align == 0,
            low <= high < low + align,
    ;
}

} // verus!
