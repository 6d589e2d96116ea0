//! The runtime record of a field and the accessors of a bitfield value.
use vstd::prelude::*;

verus! {

/// Ones at bit positions `start..=end` of a 128-bit word.
pub open spec fn mask_spec(start: u128, end: u128) -> u128 {
    (u128::MAX >> ((127 - (end - start)) as u128)) << start
}

/// Whether bit `i` of `x` is one.
pub open spec fn bit_set(x: u128, i: u128) -> bool {
    (x >> i) & 1 == 1
}

/// `x` has no one bit at position `w` or above.
pub open spec fn fits(x: u128, w: u128) -> bool {
    w >= 128 || x >> w == 0
}

/// Number of one bits of `x` among its `n` lowest positions.
pub open spec fn popcount(x: u128, n: nat) -> nat
    decreases n,
{
    if n == 0 {
        0
    } else {
        popcount(x, (n - 1) as nat) + if bit_set(x, (n - 1) as u128) {
            1nat
        } else {
            0nat
        }
    }
}

/// The runtime record of one field: its bit range, its mask, the shifted and
/// masked value that it stands for, and whether it is a counter.
pub struct Field {
    pub name: String,
    pub start_bit: u128,
    pub end_bit: u128,
    pub mask: u128,
    pub value: u128,
    pub is_counter: bool,
}

impl Field {
    /// The range is ordered and lies in 128 bits, the mask covers exactly
    /// that range, and the value has no bit outside the mask.
    pub open spec fn wf(&self) -> bool {
        &&& self.start_bit <= self.end_bit < 128
        &&& self.mask == mask_spec(self.start_bit, self.end_bit)
        &&& self.value & !self.mask == 0
    }

    /// Number of bits that the field spans.
    pub open spec fn len(&self) -> u128 {
        (self.end_bit - self.start_bit + 1) as u128
    }
}

/// A value of a bitfield type: nothing but its raw bit pattern.
#[derive(Clone, Copy, PartialEq, Eq, Structural, PartialOrd, Ord, Hash, Debug)]
pub struct Packed {
    pub bits: u128,
}

/// Whether `raw` holds the field `f`: always for a counter, else when the
/// masked bits equal the field's value.
pub open spec fn contains_spec(raw: u128, f: Field) -> bool {
    f.is_counter || raw & f.mask == f.value
}

/// `raw` with the field's bits replaced by the field's value.
pub open spec fn set_spec(raw: u128, f: Field) -> u128 {
    (raw & !f.mask) | f.value
}

/// `raw` with the field's bits cleared.
pub open spec fn unset_spec(raw: u128, f: Field) -> u128 {
    raw & !f.mask
}

/// The content of the field's bits, shifted down to bit zero.
pub open spec fn get_literal_spec(raw: u128, f: Field) -> u128 {
    (raw & f.mask) >> f.start_bit
}

/// `raw` with `value`, shifted to the field's start and clipped to its mask,
/// written over the field's bits.
pub open spec fn set_literal_spec(raw: u128, f: Field, value: u128) -> u128 {
    (raw & !f.mask) | ((value << f.start_bit) & f.mask)
}

impl Packed {
    /// Wraps a raw bit pattern; every pattern is accepted.
    pub fn from_bits(bits: u128) -> (r: Packed)
        ensures
            r.bits == bits,
    {
        Packed { bits }
    }

    /// The raw bit pattern.
    pub fn to_bits(&self) -> (r: u128)
        ensures
            r == self.bits,
    {
        self.bits
    }

    /// Whether the value holds `field`.
    pub fn contains(&self, field: &Field) -> (r: bool)
        ensures
            r == contains_spec(self.bits, *field),
    {
        field.is_counter || (self.bits & field.mask) == field.value
    }

    /// Writes the field's value over its bits and returns the new value.
    pub fn set(&mut self, field: &Field) -> (r: Packed)
        ensures
            final(self).bits == set_spec(old(self).bits, *field),
            r == *final(self),
    {
        self.bits = (self.bits & !field.mask) | field.value;
        *self
    }

    /// Clears the field's bits and returns the new value. Another field over
    /// the same bits whose value is zero is held afterwards.
    pub fn unset(&mut self, field: &Field) -> (r: Packed)
        ensures
            final(self).bits == unset_spec(old(self).bits, *field),
            r == *final(self),
    {
        self.bits = self.bits & !field.mask;
        *self
    }

    /// The content of the field's bits, shifted down to bit zero.
    pub fn get_literal(&self, field: &Field) -> (r: u128)
        requires
            field.start_bit < 128,
        ensures
            r == get_literal_spec(self.bits, *field),
    {
        (self.bits & field.mask) >> field.start_bit
    }

    /// Writes `value`, clipped to the field, over the field's bits and returns
    /// the new value.
    pub fn set_literal(&mut self, field: &Field, value: u128) -> (r: Packed)
        requires
            field.start_bit < 128,
        ensures
            final(self).bits == set_literal_spec(old(self).bits, *field, value),
            r == *final(self),
    {
        self.bits = (self.bits & !field.mask) | ((value << field.start_bit) & field.mask);
        *self
    }
}

} // verus!
