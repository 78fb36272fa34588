//! An `f32` travels through this library as its bit pattern turned into an
//! ordered key: an `i32` whose order is the order of the non-NaN floats it
//! stands for. Positive floats keep their bits; a negative float becomes the
//! negation of its magnitude bits, so `-0.0` and `0.0` share the key `0`.
//! Minimum, maximum and comparison are therefore exact on keys.
use vstd::prelude::*;

verus! {

/// The sign bit of an `f32` bit pattern.
pub const SIGN_BIT: u32 = 0x8000_0000;

/// The bits of positive infinity; magnitudes above it are NaN.
pub const INFINITY_BITS: u32 = 0x7f80_0000;

/// The magnitude part (all but the sign bit) of a bit pattern.
pub open spec fn magnitude(bits: u32) -> int {
    if bits < SIGN_BIT {
        bits as int
    } else {
        bits - SIGN_BIT
    }
}

/// Whether a bit pattern is a NaN.
pub open spec fn is_nan_bits(bits: u32) -> bool {
    magnitude(bits) > INFINITY_BITS
}

/// The ordered key of a bit pattern.
pub open spec fn key_spec(bits: u32) -> int {
    if bits < SIGN_BIT {
        bits as int
    } else {
        -(bits - SIGN_BIT)
    }
}

/// The bit pattern that a key stands for; the key `0` gives `+0.0`.
pub open spec fn bits_spec(k: int) -> int {
    if k >= 0 {
        k
    } else {
        SIGN_BIT - k
    }
}

/// The ordered key of the `f32` whose bits are `bits`.
pub fn key_of_bits(bits: u32) -> (k: i32)
    ensures
        k == key_spec(bits),
{
    if bits < SIGN_BIT {
        bits as i32
    } else {
        let m: u32 = bits - SIGN_BIT;
        -(m as i32)
    }
}

/// The bits of the `f32` that the key `k` stands for.
pub fn bits_of_key(k: i32) -> (bits: u32)
    requires
        k > i32::MIN,
    ensures
        bits == bits_spec(k as int),
{
    if k >= 0 {
        k as u32
    } else {
        let m: i32 = -k;
        SIGN_BIT + m as u32
    }
}

/// Every key lies strictly above `i32::MIN`, so it can be turned back to bits.
pub proof fn lemma_key_range(bits: u32)
    ensures
        i32::MIN < key_spec(bits) <= i32::MAX,
        -(INFINITY_BITS as int) <= key_spec(bits) <= INFINITY_BITS as int <== !is_nan_bits(bits),
{
}

/// A key turned to bits and back is the same key.
pub proof fn lemma_key_round_trip(k: i32)
    requires
        k > i32::MIN,
    ensures
        0 <= bits_spec(k as int) <= u32::MAX,
        key_spec(bits_spec(k as int) as u32) == k,
{
}

/// Bits turned to a key and back are the same bits, except that `-0.0` comes
/// back as `+0.0`.
pub proof fn lemma_bits_round_trip(bits: u32)
    requires
        bits != SIGN_BIT,
    ensures
        bits_spec(key_spec(bits)) == bits,
{
}

/// Keys order non-NaN floats as the floats are ordered: by sign first, then
/// by magnitude, upwards for positive values and downwards for negative ones.
pub proof fn lemma_key_order(a: u32, b: u32)
    requires
        !is_nan_bits(a),
        !is_nan_bits(b),
    ensures
        (a < SIGN_BIT && b < SIGN_BIT) ==> (key_spec(a) <= key_spec(b) <==> a <= b),
        (a >= SIGN_BIT && b >= SIGN_BIT) ==> (key_spec(a) <= key_spec(b) <==> magnitude(b) <= magnitude(a)),
        (a >= SIGN_BIT && b < SIGN_BIT) ==> key_spec(a) <= key_spec(b),
        key_spec(a) == key_spec(b) <==> (a == b || (magnitude(a) == 0 && magnitude(b) == 0)),
{
}

} // verus!
