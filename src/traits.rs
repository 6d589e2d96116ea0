//! The backing integer types and the bitfield trait.
use vstd::prelude::*;
use crate::field::Packed;

verus! {

/// An unsigned integer type that can back a bitfield.
pub trait Bits {
    /// Number of bits of the type.
    const BITS: u32;
}

impl Bits for u8 {
    const BITS: u32 = 8;
}

impl Bits for u16 {
    const BITS: u32 = 16;
}

impl Bits for u32 {
    const BITS: u32 = 32;
}

impl Bits for u64 {
    const BITS: u32 = 64;
}

impl Bits for u128 {
    const BITS: u32 = 128;
}

/// A bitfield type: a wrapper over the raw bits of a backing integer.
pub trait Bitfield: Sized {
    type Bits: Bits;

    /// The raw bit pattern that a bitfield holds.
    spec fn raw(&self) -> Self::Bits;

    /// Converts the bitfield into its underlying representation.
    fn to_bits(&self) -> (r: Self::Bits)
        ensures
            r == self.raw(),
    ;

    /// Converts an integer into a bitfield, with no check: every bit pattern
    /// is a value, so converting back gives `bits` again.
    fn from_bits(bits: Self::Bits) -> (r: Self)
        ensures
            r.raw() == bits,
    ;
}

impl Bitfield for Packed {
    type Bits = u128;

    open spec fn raw(&self) -> u128 {
        self.bits
    }

    fn to_bits(&self) -> (r: u128) {
        self.bits
    }

    fn from_bits(bits: u128) -> (r: Packed) {
        Packed { bits }
    }
}

} // verus!
