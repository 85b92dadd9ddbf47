use vstd::prelude::*;

verus! {

/// The sign bit of a binary64 bit pattern.
pub const SIGN_BIT: u64 = 0x8000_0000_0000_0000;

/// Bits of the exponent field of a binary64 bit pattern.
pub const EXPONENT_BITS: u64 = 0x7FF0_0000_0000_0000;

/// Bits of the fraction field of a binary64 bit pattern.
pub const FRACTION_BITS: u64 = 0x000F_FFFF_FFFF_FFFF;

/// Bit pattern of the binary64 value 1.0.
pub const ONE_BITS: u64 = 0x3FF0_0000_0000_0000;

/// The bit pattern encodes a NaN: exponent all ones, fraction not zero.
pub open spec fn is_nan_bits(bits: u64) -> bool {
    bits & EXPONENT_BITS == EXPONENT_BITS && bits & FRACTION_BITS != 0
}

/// Key of a binary64 bit pattern: negative values have all bits flipped,
/// non-negative values get the sign bit set. Unsigned order on keys is then
/// the IEEE-754 total order on the encoded values.
pub open spec fn key_of_bits(bits: u64) -> u64 {
    if bits & SIGN_BIT != 0 {
        !bits
    } else {
        bits | SIGN_BIT
    }
}

/// Inverse of [`key_of_bits`].
pub open spec fn bits_of_key(key: u64) -> u64 {
    if key & SIGN_BIT != 0 {
        key & !SIGN_BIT
    } else {
        !key
    }
}

/// IEEE-754 total order on bit patterns, read from sign and magnitude: every
/// value with the sign bit set precedes every value without it; among
/// non-negative patterns a larger pattern is larger, among negative patterns
/// a larger pattern is smaller.
pub open spec fn total_le(a: u64, b: u64) -> bool {
    let sa = a & SIGN_BIT != 0;
    let sb = b & SIGN_BIT != 0;
    if sa && !sb {
        true
    } else if !sa && sb {
        false
    } else if !sa {
        a <= b
    } else {
        b <= a
    }
}

/// A real number, stored as the order-preserving key of its binary64 bit
/// pattern.
#[derive(Clone, Copy, Debug, PartialEq, Eq, Structural)]
pub struct Scalar {
    pub key: u64,
}

impl Scalar {
    pub open spec fn le(self, other: Scalar) -> bool {
        self.key <= other.key
    }

    pub open spec fn spec_bits(self) -> u64 {
        bits_of_key(self.key)
    }

    /// The scalar whose binary64 bit pattern is `bits`.
    pub fn from_bits(bits: u64) -> (r: Scalar)
        ensures
            r.key == key_of_bits(bits),
            r.spec_bits() == bits,
    {
        proof {
            lemma_bits_key_round_trip(bits);
        }
        if bits & SIGN_BIT != 0 {
            Scalar { key: !bits }
        } else {
            Scalar { key: bits | SIGN_BIT }
        }
    }

    /// The binary64 bit pattern of this scalar.
    pub fn to_bits(self) -> (r: u64)
        ensures
            r == self.spec_bits(),
            key_of_bits(r) == self.key,
    {
        proof {
            lemma_key_bits_round_trip(self.key);
        }
        if self.key & SIGN_BIT != 0 {
            self.key & !SIGN_BIT
        } else {
            !self.key
        }
    }

    /// The scalar 1.0.
    pub fn one() -> (r: Scalar)
        ensures
            r.key == key_of_bits(ONE_BITS),
            r.spec_bits() == ONE_BITS,
    {
        Scalar::from_bits(ONE_BITS)
    }

    /// This scalar is a NaN.
    pub fn is_nan(self) -> (r: bool)
        ensures
            r == is_nan_bits(self.spec_bits()),
    {
        let bits = self.to_bits();
        bits & EXPONENT_BITS == EXPONENT_BITS && bits & FRACTION_BITS != 0
    }

    /// Strict comparison in the total order.
    pub fn lt(self, other: Scalar) -> (r: bool)
        ensures
            r == (self.key < other.key),
    {
        self.key < other.key
    }

    /// The smaller of two scalars; `self` on a tie.
    pub fn lesser(self, other: Scalar) -> (r: Scalar)
        ensures
            r.le(self),
            r.le(other),
            r == self || r == other,
    {
        if other.key < self.key {
            other
        } else {
            self
        }
    }

    /// The larger of two scalars; `self` on a tie.
    pub fn greater(self, other: Scalar) -> (r: Scalar)
        ensures
            self.le(r),
            other.le(r),
            r == self || r == other,
    {
        if self.key < other.key {
            other
        } else {
            self
        }
    }
}

/// Decoding a key recovers the bit pattern it was made from.
pub proof fn lemma_bits_key_round_trip(bits: u64)
    ensures
        bits_of_key(key_of_bits(bits)) == bits,
{
    assert(bits & 0x8000_0000_0000_0000u64 != 0 ==> (!bits) & 0x8000_0000_0000_0000u64 == 0
        && !(!bits) == bits) by (bit_vector);
    assert(bits & 0x8000_0000_0000_0000u64 == 0 ==> (bits | 0x8000_0000_0000_0000u64)
        & 0x8000_0000_0000_0000u64 != 0 && (bits | 0x8000_0000_0000_0000u64)
        & !0x8000_0000_0000_0000u64 == bits) by (bit_vector);
}

/// Encoding the decoded pattern of a key gives the key back.
pub proof fn lemma_key_bits_round_trip(key: u64)
    ensures
        key_of_bits(bits_of_key(key)) == key,
{
    assert(key & 0x8000_0000_0000_0000u64 != 0 ==> (key & !0x8000_0000_0000_0000u64)
        & 0x8000_0000_0000_0000u64 == 0 && ((key & !0x8000_0000_0000_0000u64)
        | 0x8000_0000_0000_0000u64) == key) by (bit_vector);
    assert(key & 0x8000_0000_0000_0000u64 == 0 ==> (!key) & 0x8000_0000_0000_0000u64 != 0
        && !(!key) == key) by (bit_vector);
}

/// Key order is the IEEE-754 total order of the encoded bit patterns.
pub proof fn lemma_key_order_is_total_order(a: u64, b: u64)
    ensures
        key_of_bits(a) <= key_of_bits(b) <==> total_le(a, b),
{
    let s: u64 = 0x8000_0000_0000_0000u64;
    assert(a & s != 0 && b & s == 0 ==> !a <= (b | s)) by (bit_vector)
        requires s == 0x8000_0000_0000_0000u64;
    assert(a & s == 0 && b & s != 0 ==> !((a | s) <= !b)) by (bit_vector)
        requires s == 0x8000_0000_0000_0000u64;
    assert(a & s == 0 && b & s == 0 ==> ((a | s) <= (b | s) <==> a <= b)) by (bit_vector)
        requires s == 0x8000_0000_0000_0000u64;
    assert(a & s != 0 && b & s != 0 ==> (!a <= !b <==> b <= a)) by (bit_vector)
        requires s == 0x8000_0000_0000_0000u64;
}

} // verus!
