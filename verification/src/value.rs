//! The mapping between the values that a column holds for its users and
//! the unsigned 64-bit numbers that the codecs store.
//!
//! Every mapping is one to one and onto, and keeps the order of the
//! domain, so that a comparison of two stored numbers decides the
//! comparison of the two values.

use vstd::prelude::*;

verus! {

/// A type whose values a fast field can hold.
pub trait FastValue: Sized {
    /// The number that stands for `self`.
    spec fn to_u64_spec(self) -> u64;

    /// The value that `v` stands for.
    spec fn from_u64_spec(v: u64) -> Self;

    /// The order of the domain: `self` comes before `other`.
    spec fn precedes(self, other: Self) -> bool;

    /// The number that stands for `self`.
    fn to_u64(&self) -> (r: u64)
        ensures
            r == self.to_u64_spec(),
    ;

    /// The value that `v` stands for.
    fn from_u64(v: u64) -> (r: Self)
        ensures
            r == Self::from_u64_spec(v),
    ;

    /// A value is what its number stands for.
    proof fn lemma_value_kept(v: Self)
        ensures
            Self::from_u64_spec(v.to_u64_spec()) == v,
    ;

    /// Every number stands for a value, and is the number of that value.
    proof fn lemma_number_kept(v: u64)
        ensures
            Self::from_u64_spec(v).to_u64_spec() == v,
    ;

    /// The numbers are ordered as the values are.
    proof fn lemma_order_kept(a: Self, b: Self)
        ensures
            a.precedes(b) <==> a.to_u64_spec() < b.to_u64_spec(),
    ;
}

impl FastValue for u64 {
    open spec fn to_u64_spec(self) -> u64 {
        self
    }

    open spec fn from_u64_spec(v: u64) -> u64 {
        v
    }

    open spec fn precedes(self, other: u64) -> bool {
        self < other
    }

    fn to_u64(&self) -> (r: u64)
        ensures
            r == *self,
    {
        *self
    }

    fn from_u64(v: u64) -> (r: u64)
        ensures
            r == v,
    {
        v
    }

    proof fn lemma_value_kept(v: u64) {
    }

    proof fn lemma_number_kept(v: u64) {
    }

    proof fn lemma_order_kept(a: u64, b: u64) {
    }
}

/// The number that stands for the signed `v`: its distance from the least
/// signed value.
pub open spec fn i64_to_u64_spec(v: i64) -> u64 {
    (v - i64::MIN) as u64
}

/// The signed value that `v` stands for.
pub open spec fn u64_to_i64_spec(v: u64) -> i64 {
    (v + i64::MIN) as i64
}

/// The number that stands for the signed `v`.
pub fn i64_to_u64(v: i64) -> (r: u64)
    ensures
        r == i64_to_u64_spec(v),
{
    let bits: u64 = v as u64;
    let r: u64 = bits ^ 0x8000_0000_0000_0000u64;
    assert(r == (v - i64::MIN) as u64) by (bit_vector)
        requires
            bits == v as u64,
            r == bits ^ 0x8000_0000_0000_0000u64,
    ;
    r
}

/// The signed value that `v` stands for.
pub fn u64_to_i64(v: u64) -> (r: i64)
    ensures
        r == u64_to_i64_spec(v),
{
    let bits: u64 = v ^ 0x8000_0000_0000_0000u64;
    let r: i64 = bits as i64;
    assert(r == (v + i64::MIN) as i64) by (bit_vector)
        requires
            bits == v ^ 0x8000_0000_0000_0000u64,
            r == bits as i64,
    ;
    r
}

impl FastValue for i64 {
    open spec fn to_u64_spec(self) -> u64 {
        i64_to_u64_spec(self)
    }

    open spec fn from_u64_spec(v: u64) -> i64 {
        u64_to_i64_spec(v)
    }

    open spec fn precedes(self, other: i64) -> bool {
        self < other
    }

    fn to_u64(&self) -> (r: u64)
        ensures
            r == i64_to_u64_spec(*self),
    {
        i64_to_u64(*self)
    }

    fn from_u64(v: u64) -> (r: i64)
        ensures
            r == u64_to_i64_spec(v),
    {
        u64_to_i64(v)
    }

    proof fn lemma_value_kept(v: i64) {
    }

    proof fn lemma_number_kept(v: u64) {
    }

    proof fn lemma_order_kept(a: i64, b: i64) {
    }
}

/// A point in time, in microseconds since the Unix epoch.
#[derive(Clone, Copy, Debug, PartialEq, Eq, Structural)]
pub struct DateTime {
    timestamp_micros: i64,
}

impl DateTime {
    /// The microseconds since the Unix epoch.
    pub closed spec fn micros(self) -> i64 {
        self.timestamp_micros
    }

    /// The point in time `micros` microseconds after the Unix epoch.
    pub fn from_timestamp_micros(micros: i64) -> (r: DateTime)
        ensures
            r.micros() == micros,
            r == DateTime::spec_from_micros(micros),
    {
        DateTime { timestamp_micros: micros }
    }

    /// The point in time `micros` microseconds after the Unix epoch.
    pub closed spec fn spec_from_micros(micros: i64) -> DateTime {
        DateTime { timestamp_micros: micros }
    }

    /// The microseconds since the Unix epoch.
    pub fn into_timestamp_micros(self) -> (r: i64)
        ensures
            r == self.micros(),
    {
        self.timestamp_micros
    }

    /// A point in time is given by its microseconds.
    pub proof fn lemma_micros(micros: i64)
        ensures
            DateTime::spec_from_micros(micros).micros() == micros,
    {
    }

    /// Two points in time with the same microseconds are one.
    pub proof fn lemma_same(a: DateTime, b: DateTime)
        requires
            a.micros() == b.micros(),
        ensures
            a == b,
    {
    }
}

impl FastValue for DateTime {
    open spec fn to_u64_spec(self) -> u64 {
        i64_to_u64_spec(self.micros())
    }

    open spec fn from_u64_spec(v: u64) -> DateTime {
        DateTime::spec_from_micros(u64_to_i64_spec(v))
    }

    open spec fn precedes(self, other: DateTime) -> bool {
        self.micros() < other.micros()
    }

    fn to_u64(&self) -> (r: u64)
        ensures
            r == i64_to_u64_spec(self.micros()),
    {
        i64_to_u64(self.timestamp_micros)
    }

    fn from_u64(v: u64) -> (r: DateTime)
        ensures
            r.micros() == u64_to_i64_spec(v),
    {
        DateTime::from_timestamp_micros(u64_to_i64(v))
    }

    proof fn lemma_value_kept(v: DateTime) {
        DateTime::lemma_micros(v.micros());
        DateTime::lemma_same(DateTime::spec_from_micros(v.micros()), v);
    }

    proof fn lemma_number_kept(v: u64) {
        DateTime::lemma_micros(u64_to_i64_spec(v));
    }

    proof fn lemma_order_kept(a: DateTime, b: DateTime) {
    }
}

/// A floating-point number in double precision, held as the 64 bits of
/// its encoding: the sign in the highest bit, then the exponent, then the
/// fraction.
#[derive(Clone, Copy, Debug, PartialEq, Eq, Structural)]
pub struct F64Bits {
    pub bits: u64,
}

impl F64Bits {
    /// The place of the number in the total order of its encoding: the
    /// numbers without the sign bit in the order of their bits, and below
    /// them the numbers with the sign bit in the opposite order.
    pub open spec fn rank(self) -> int {
        if self.bits < 0x8000_0000_0000_0000 {
            self.bits as int
        } else {
            0x8000_0000_0000_0000 - self.bits - 1
        }
    }
}

impl FastValue for F64Bits {
    open spec fn to_u64_spec(self) -> u64 {
        (self.rank() + 0x8000_0000_0000_0000) as u64
    }

    open spec fn from_u64_spec(v: u64) -> F64Bits {
        if v >= 0x8000_0000_0000_0000 {
            F64Bits { bits: (v - 0x8000_0000_0000_0000) as u64 }
        } else {
            F64Bits { bits: (0xFFFF_FFFF_FFFF_FFFF - v) as u64 }
        }
    }

    open spec fn precedes(self, other: F64Bits) -> bool {
        self.rank() < other.rank()
    }

    fn to_u64(&self) -> (r: u64)
        ensures
            r == self.rank() + 0x8000_0000_0000_0000,
    {
        let bits: u64 = self.bits;
        if bits < 0x8000_0000_0000_0000 {
            let r: u64 = bits ^ 0x8000_0000_0000_0000u64;
            assert(r == bits + 0x8000_0000_0000_0000) by (bit_vector)
                requires
                    bits < 0x8000_0000_0000_0000u64,
                    r == bits ^ 0x8000_0000_0000_0000u64,
            ;
            r
        } else {
            let r: u64 = !bits;
            assert(r == 0xFFFF_FFFF_FFFF_FFFF - bits) by (bit_vector)
                requires
                    r == !bits,
            ;
            r
        }
    }

    fn from_u64(v: u64) -> (r: F64Bits)
        ensures
            r.rank() + 0x8000_0000_0000_0000 == v,
    {
        if v >= 0x8000_0000_0000_0000 {
            let bits: u64 = v ^ 0x8000_0000_0000_0000u64;
            assert(bits == v - 0x8000_0000_0000_0000) by (bit_vector)
                requires
                    v >= 0x8000_0000_0000_0000u64,
                    bits == v ^ 0x8000_0000_0000_0000u64,
            ;
            F64Bits { bits }
        } else {
            let bits: u64 = !v;
            assert(bits == 0xFFFF_FFFF_FFFF_FFFF - v) by (bit_vector)
                requires
                    bits == !v,
            ;
            F64Bits { bits }
        }
    }

    proof fn lemma_value_kept(v: F64Bits) {
    }

    proof fn lemma_number_kept(v: u64) {
    }

    proof fn lemma_order_kept(a: F64Bits, b: F64Bits) {
    }
}

} // verus!
