//! `f32` values held as their IEEE-754 bit patterns.

use vstd::prelude::*;

verus! {

/// The bit pattern of `-0.0`.
pub const NEGATIVE_ZERO_BITS: u32 = 0x8000_0000u32;

/// The bit pattern of `+infinity`; magnitudes above it are NaNs.
pub const INFINITY_BITS: u32 = 0x7f80_0000u32;

/// The magnitude of an `f32` bit pattern (the pattern without its sign bit).
pub open spec fn magnitude_bits(bits: u32) -> int {
    bits as int % 0x8000_0000
}

/// An `f32` bit pattern is a NaN when its exponent is all ones and its
/// mantissa is not zero, that is when its magnitude exceeds that of infinity.
pub open spec fn is_nan_bits(bits: u32) -> bool {
    magnitude_bits(bits) > INFINITY_BITS as int
}

/// The ordering key of an `f32` bit pattern.
///
/// Non-negative patterns are shifted above all negative ones; negative
/// patterns are complemented, so that a larger magnitude gives a smaller key.
/// `-0.0` gets the key of `+0.0`. On patterns that are not NaN, `a < b` as
/// floats exactly when `order_key(a) < order_key(b)`, and `a == b` as floats
/// exactly when the keys are equal: the key is how distances are ranked.
pub open spec fn order_key(bits: u32) -> u32 {
    if bits == NEGATIVE_ZERO_BITS {
        0x8000_0000u32
    } else if bits > NEGATIVE_ZERO_BITS {
        (0xffff_ffffu32 - bits) as u32
    } else {
        (bits + 0x8000_0000u32) as u32
    }
}

/// Computes [`order_key`].
pub fn distance_key(bits: u32) -> (key: u32)
    ensures
        key == order_key(bits),
{
    if bits == NEGATIVE_ZERO_BITS {
        0x8000_0000u32
    } else if bits > NEGATIVE_ZERO_BITS {
        0xffff_ffffu32 - bits
    } else {
        bits + 0x8000_0000u32
    }
}

/// Tells whether an `f32` bit pattern is a NaN.
pub fn is_nan(bits: u32) -> (nan: bool)
    ensures
        nan == is_nan_bits(bits),
{
    (bits % 0x8000_0000u32) > INFINITY_BITS
}

/// Keys of a sequence of bit patterns.
pub open spec fn keys_of(bits: Seq<u32>) -> Seq<u32> {
    bits.map_values(|b: u32| order_key(b))
}

/// True when no pattern of the sequence is a NaN.
pub open spec fn none_nan(bits: Seq<u32>) -> bool {
    forall|i: int| 0 <= i < bits.len() ==> !is_nan_bits(#[trigger] bits[i])
}

/// Computes the ordering keys of a slice of bit patterns.
pub fn distance_keys(bits: &[u32]) -> (keys: Vec<u32>)
    ensures
        keys@ == keys_of(bits@),
{
    let mut keys: Vec<u32> = Vec::with_capacity(bits.len());
    let mut i: usize = 0;
    while i < bits.len()
        invariant
            i <= bits.len(),
            keys@ == keys_of(bits@.subrange(0, i as int)),
        decreases bits.len() - i,
    {
        let key = distance_key(bits[i]);
        keys.push(key);
        proof {
            assert(bits@.subrange(0, i + 1) == bits@.subrange(0, i as int).push(bits@[i as int]));
        }
        i += 1;
    }
    proof {
        assert(bits@.subrange(0, bits@.len() as int) == bits@);
    }
    keys
}

/// Tells whether some pattern of the slice is a NaN.
pub fn any_nan(bits: &[u32]) -> (found: bool)
    ensures
        found == !none_nan(bits@),
{
    let mut i: usize = 0;
    while i < bits.len()
        invariant
            i <= bits.len(),
            forall|j: int| 0 <= j < i ==> !is_nan_bits(#[trigger] bits@[j]),
        decreases bits.len() - i,
    {
        if is_nan(bits[i]) {
            return true;
        }
        i += 1;
    }
    false
}

/// `a < b` as `f32` values: false when either is a NaN.
pub open spec fn float_less(a: u32, b: u32) -> bool {
    !is_nan_bits(a) && !is_nan_bits(b) && order_key(a) < order_key(b)
}

/// Computes [`float_less`].
pub fn f32_less(a: u32, b: u32) -> (r: bool)
    ensures
        r == float_less(a, b),
{
    !is_nan(a) && !is_nan(b) && distance_key(a) < distance_key(b)
}

/// The sign bit of an `f32` bit pattern is set.
pub open spec fn sign_bit_set(bits: u32) -> bool {
    bits >= 0x8000_0000
}

/// `a < b` as `f32` values, read off the sign and the magnitude (for
/// patterns that are not NaN): the two zeros are equal, a negative value is
/// below a non-negative one, non-negative values are ordered as their
/// magnitudes and negative values the other way round.
pub open spec fn ieee_less(a: u32, b: u32) -> bool {
    let ma = a as int % 0x8000_0000;
    let mb = b as int % 0x8000_0000;
    if ma == 0 && mb == 0 {
        false
    } else if !sign_bit_set(a) && !sign_bit_set(b) {
        ma < mb
    } else if sign_bit_set(a) && sign_bit_set(b) {
        ma > mb
    } else {
        sign_bit_set(a)
    }
}

/// The same value as `f32`s (for patterns that are not NaN): the same
/// pattern, or both zeros.
pub open spec fn ieee_equal(a: u32, b: u32) -> bool {
    a == b || (a as int % 0x8000_0000 == 0 && b as int % 0x8000_0000 == 0)
}

/// The magnitude is the pattern without its sign bit.
proof fn lemma_magnitude(bits: u32)
    ensures
        magnitude_bits(bits) == if bits >= 0x8000_0000 {
            bits - 0x8000_0000
        } else {
            bits as int
        },
{
}

/// Ranking by key is ranking by `f32` value: for patterns that are not
/// NaN, one key is below another exactly when the first value is below the
/// second, and the keys are equal exactly when the values are (so that,
/// for instance, -3.0 ranks before -1.0, which ranks before 0.0 and 1.0).
pub proof fn law_key_order_is_float_order(a: u32, b: u32)
    requires
        !is_nan_bits(a),
        !is_nan_bits(b),
    ensures
        order_key(a) < order_key(b) <==> ieee_less(a, b),
        order_key(a) == order_key(b) <==> ieee_equal(a, b),
{
    lemma_magnitude(a);
    lemma_magnitude(b);
}

/// `float_less` is `<` on `f32` values.
pub proof fn law_float_less_is_float_order(a: u32, b: u32)
    ensures
        float_less(a, b) <==> !is_nan_bits(a) && !is_nan_bits(b) && ieee_less(a, b),
{
    if !is_nan_bits(a) && !is_nan_bits(b) {
        law_key_order_is_float_order(a, b);
    }
}

/// A pattern is a NaN exactly when its 8 exponent bits are all ones and its
/// 23 mantissa bits are not all zeros.
pub proof fn law_nan_is_full_exponent_with_mantissa(bits: u32)
    ensures
        is_nan_bits(bits) <==> (bits >> 23u32) & 0xffu32 == 0xffu32 && bits & 0x7f_ffffu32 != 0,
{
    assert(magnitude_bits(bits) == (bits & 0x7fff_ffffu32) as int) by {
        assert(bits & 0x7fff_ffffu32 == bits % 0x8000_0000u32) by (bit_vector);
    }
    assert((bits & 0x7fff_ffffu32 > 0x7f80_0000u32) <==> ((bits >> 23u32) & 0xffu32 == 0xffu32 && bits & 0x7f_ffffu32
        != 0)) by (bit_vector);
}

} // verus!
