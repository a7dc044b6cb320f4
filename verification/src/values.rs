//! Plain value types for the fixed-width logical types whose serialized form
//! the run detection compares: dates, intervals, decimals and float bit
//! patterns are held as integers so that comparison and serialization stay in
//! integer code.

use vstd::prelude::*;

verus! {

/// A calendar date, held as its day number.
#[derive(Clone, Copy)]
pub struct Date(pub i32);

impl Date {
    pub fn get_inner(&self) -> (d: i32)
        ensures
            d == self.0,
    {
        self.0
    }
}

/// A month/day interval.
#[derive(Clone, Copy)]
pub struct Interval {
    pub months: i32,
    pub days: i32,
}

impl Interval {
    pub fn new(months: i32, days: i32) -> (r: Interval)
        ensures
            r.months == months,
            r.days == days,
    {
        Interval { months, days }
    }

    pub fn num_months(&self) -> (m: i32)
        ensures
            m == self.months,
    {
        self.months
    }

    pub fn days(&self) -> (d: i32)
        ensures
            d == self.days,
    {
        self.days
    }
}

/// A 128-bit decimal, held as the four little-endian 32-bit words of its
/// usual 16-byte serialized form: sign-and-scale flags, then the low, middle
/// and high words of the mantissa.
#[derive(Clone, Copy)]
pub struct DecimalValue {
    pub flags: u32,
    pub lo: u32,
    pub mid: u32,
    pub hi: u32,
}

/// A 64-bit float, held as its IEEE 754 bit pattern.
#[derive(Clone, Copy)]
pub struct F64Bits(pub u64);

} // verus!
