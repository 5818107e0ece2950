//! Access permissions of a mapped range.

use vstd::prelude::*;

verus! {

/// A set of access permissions: bit 0 reads, bit 1 writes, bit 2 executes.
#[derive(Clone, Copy, Debug, PartialEq, Eq, Structural)]
pub struct MemoryPermissions {
    pub bits: u8,
}

impl MemoryPermissions {
    pub open spec fn spec_none() -> Self {
        MemoryPermissions { bits: 0 }
    }

    pub open spec fn spec_read() -> Self {
        MemoryPermissions { bits: 1 }
    }

    pub open spec fn spec_write() -> Self {
        MemoryPermissions { bits: 2 }
    }

    pub open spec fn spec_execute() -> Self {
        MemoryPermissions { bits: 4 }
    }

    /// Every permission of either set.
    pub open spec fn joined(self, other: Self) -> Self {
        MemoryPermissions { bits: self.bits | other.bits }
    }

    /// The permissions of this set that are not in `removed`.
    pub open spec fn less(self, removed: Self) -> Self {
        MemoryPermissions { bits: self.bits & !removed.bits }
    }

    /// Whether every permission of `requested` is in this set.
    pub open spec fn covers(self, requested: Self) -> bool {
        self.bits & requested.bits == requested.bits
    }

    pub open spec fn readable(self) -> bool {
        self.covers(Self::spec_read())
    }

    pub open spec fn writable(self) -> bool {
        self.covers(Self::spec_write())
    }

    pub open spec fn executable(self) -> bool {
        self.covers(Self::spec_execute())
    }

    #[inline]
    pub fn none() -> (r: Self)
        ensures
            r == Self::spec_none(),
    {
        MemoryPermissions { bits: 0 }
    }

    #[inline]
    pub fn read() -> (r: Self)
        ensures
            r == Self::spec_read(),
    {
        MemoryPermissions { bits: 1 }
    }

    #[inline]
    pub fn write() -> (r: Self)
        ensures
            r == Self::spec_write(),
    {
        MemoryPermissions { bits: 2 }
    }

    #[inline]
    pub fn execute() -> (r: Self)
        ensures
            r == Self::spec_execute(),
    {
        MemoryPermissions { bits: 4 }
    }

    #[inline]
    pub fn bitor(self, rhs: Self) -> (r: Self)
        ensures
            r == self.joined(rhs),
    {
        MemoryPermissions { bits: self.bits | rhs.bits }
    }

    #[inline]
    pub fn without(self, removed: Self) -> (r: Self)
        ensures
            r == self.less(removed),
    {
        MemoryPermissions { bits: self.bits & !removed.bits }
    }

    #[inline]
    pub fn contains(self, requested: Self) -> (r: bool)
        ensures
            r == self.covers(requested),
    {
        self.bits & requested.bits == requested.bits
    }
}

/// A joined set covers exactly what either part adds to the other.
pub proof fn joined_covers_both(a: MemoryPermissions, b: MemoryPermissions)
    ensures
        a.joined(b).covers(a),
        a.joined(b).covers(b),
{
    let (x, y) = (a.bits, b.bits);
    assert((x | y) & x == x && (x | y) & y == y) by (bit_vector);
}

/// Taking the write permission away leaves no write permission and changes
/// neither reading nor executing.
pub proof fn without_write(a: MemoryPermissions)
    ensures
        !a.less(MemoryPermissions::spec_write()).writable(),
        a.less(MemoryPermissions::spec_write()).readable() == a.readable(),
        a.less(MemoryPermissions::spec_write()).executable() == a.executable(),
{
    let x = a.bits;
    assert((x & !2u8) & 2 != 2) by (bit_vector);
    assert(((x & !2u8) & 1 == 1) == (x & 1 == 1)) by (bit_vector);
    assert(((x & !2u8) & 4 == 4) == (x & 4 == 4)) by (bit_vector);
}

/// No permission at all is covered by every set.
pub proof fn nothing_is_covered(a: MemoryPermissions)
    ensures
        a.covers(MemoryPermissions::spec_none()),
{
    let x = a.bits;
    assert(x & 0 == 0) by (bit_vector);
}

/// A set of permissions allows reading, writing and executing by its lowest three bits, in
/// this order, and covers every set whose bits it has.
pub proof fn permissions_are_told_by_their_bits(a: MemoryPermissions, b: MemoryPermissions)
    ensures
        a.readable() <==> a.bits % 2 == 1,
        a.writable() <==> a.bits / 2 % 2 == 1,
        a.executable() <==> a.bits / 4 % 2 == 1,
        a.joined(b).readable() <==> a.readable() || b.readable(),
        a.joined(b).writable() <==> a.writable() || b.writable(),
        a.joined(b).executable() <==> a.executable() || b.executable(),
        a.less(b).readable() <==> a.readable() && !b.readable(),
        a.less(b).writable() <==> a.writable() && !b.writable(),
        a.less(b).executable() <==> a.executable() && !b.executable(),
        a.covers(b) ==> (b.readable() ==> a.readable()) && (b.writable() ==> a.writable()) && (
        b.executable() ==> a.executable()),
        a.bits < 8 && b.bits < 8 && (b.readable() ==> a.readable()) && (b.writable()
            ==> a.writable()) && (b.executable() ==> a.executable()) ==> a.covers(b),
{
    let x = a.bits;
    let y = b.bits;
    assert((x & 1u8 == 1u8 <==> x % 2 == 1) && (x & 2u8 == 2u8 <==> x / 2 % 2 == 1) && (x & 4u8
        == 4u8 <==> x / 4 % 2 == 1)) by (bit_vector);
    assert(((x | y) & 1u8 == 1u8 <==> x & 1u8 == 1u8 || y & 1u8 == 1u8) && ((x | y) & 2u8 == 2u8
        <==> x & 2u8 == 2u8 || y & 2u8 == 2u8) && ((x | y) & 4u8 == 4u8 <==> x & 4u8 == 4u8 || y
        & 4u8 == 4u8)) by (bit_vector);
    assert(((x & !y) & 1u8 == 1u8 <==> x & 1u8 == 1u8 && y & 1u8 != 1u8) && ((x & !y) & 2u8 == 2u8
        <==> x & 2u8 == 2u8 && y & 2u8 != 2u8) && ((x & !y) & 4u8 == 4u8 <==> x & 4u8 == 4u8 && y
        & 4u8 != 4u8)) by (bit_vector);
    assert(x & y == y ==> (y & 1u8 == 1u8 ==> x & 1u8 == 1u8) && (y & 2u8 == 2u8 ==> x & 2u8
        == 2u8) && (y & 4u8 == 4u8 ==> x & 4u8 == 4u8)) by (bit_vector);
    assert(x < 8u8 && y < 8u8 && (y & 1u8 == 1u8 ==> x & 1u8 == 1u8) && (y & 2u8 == 2u8 ==> x & 2u8
        == 2u8) && (y & 4u8 == 4u8 ==> x & 4u8 == 4u8) ==> x & y == y) by (bit_vector);
}

} // verus!
