//! A 64-bit unsigned integer assembled from two 32-bit halves.
use vstd::prelude::*;

verus! {

/// A 64-bit unsigned integer.
#[derive(Debug, Clone, Copy, PartialEq, Eq, Structural)]
pub struct Uint64 {
    /// The value.
    pub id: u64,
}

impl Uint64 {
    /// Wraps `id`.
    pub fn new(id: u64) -> (r: Uint64)
        ensures
            r.id == id,
    {
        Uint64 { id }
    }

    /// The integer whose high 32 bits are `high` and low 32 bits are `low`.
    pub fn from_low_high(low: u32, high: u32) -> (r: Uint64)
        ensures
            r.id == high * 0x1_0000_0000 + low,
    {
        Uint64 { id: (high as u64) * 0x1_0000_0000 + low as u64 }
    }

    /// The sum; it must not overflow.
    pub fn add(&self, other: &Uint64) -> (r: Uint64)
        requires
            self.id + other.id <= u64::MAX,
        ensures
            r.id == self.id + other.id,
    {
        Uint64 { id: self.id + other.id }
    }

    /// The difference; it must not be negative.
    pub fn sub(&self, other: &Uint64) -> (r: Uint64)
        requires
            self.id >= other.id,
        ensures
            r.id == self.id - other.id,
    {
        Uint64 { id: self.id - other.id }
    }

    /// The product; it must not overflow.
    pub fn mul(&self, other: &Uint64) -> (r: Uint64)
        requires
            self.id * other.id <= u64::MAX,
        ensures
            r.id == self.id * other.id,
    {
        Uint64 { id: self.id * other.id }
    }

    /// The quotient, rounded down; the divisor must not be zero.
    pub fn div(&self, other: &Uint64) -> (r: Uint64)
        requires
            other.id != 0,
        ensures
            r.id == self.id / other.id,
    {
        Uint64 { id: self.id / other.id }
    }

    /// The bits moved up by `shift` places (below 64); high bits drop out.
    pub fn shift_left(&self, shift: u32) -> (r: Uint64)
        requires
            shift < 64,
        ensures
            r.id == self.id << shift,
    {
        Uint64 { id: self.id << shift }
    }

    /// The bits moved down by `shift` places (below 64).
    pub fn shift_right(&self, shift: u32) -> (r: Uint64)
        requires
            shift < 64,
        ensures
            r.id == self.id >> shift,
    {
        Uint64 { id: self.id >> shift }
    }

    /// Bitwise and.
    pub fn bit_and(&self, other: &Uint64) -> (r: Uint64)
        ensures
            r.id == self.id & other.id,
    {
        Uint64 { id: self.id & other.id }
    }

    /// Bitwise or.
    pub fn bit_or(&self, other: &Uint64) -> (r: Uint64)
        ensures
            r.id == self.id | other.id,
    {
        Uint64 { id: self.id | other.id }
    }

    /// Bitwise exclusive or.
    pub fn bit_xor(&self, other: &Uint64) -> (r: Uint64)
        ensures
            r.id == self.id ^ other.id,
    {
        Uint64 { id: self.id ^ other.id }
    }

    /// Bitwise complement.
    pub fn bit_not(&self) -> (r: Uint64)
        ensures
            r.id == !self.id,
    {
        Uint64 { id: !self.id }
    }

    /// The low 32 bits.
    pub fn low_bits(&self) -> (r: u32)
        ensures
            r == self.id % 0x1_0000_0000,
    {
        (self.id % 0x1_0000_0000) as u32
    }

    /// The high 32 bits.
    pub fn high_bits(&self) -> (r: u32)
        ensures
            r == self.id / 0x1_0000_0000,
    {
        (self.id / 0x1_0000_0000) as u32
    }
}

/// -1, 0 or 1 as `a` is below, equal to or above `b`.
pub fn compare_uint64(a: &Uint64, b: &Uint64) -> (r: i32)
    ensures
        r == (if a.id < b.id {
            -1
        } else if a.id == b.id {
            0
        } else {
            1
        }),
{
    if a.id < b.id {
        -1
    } else if a.id == b.id {
        0
    } else {
        1
    }
}

} // verus!
