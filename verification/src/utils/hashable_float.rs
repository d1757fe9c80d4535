use vstd::prelude::*;

verus! {

/// A 64-bit floating-point number taken apart into mantissa, exponent and
/// sign, so that it can be compared and hashed.
#[derive(Hash, Eq, PartialEq, Debug, Clone, Copy)]
pub struct HF64(pub (u64, i16, i8));

/// The 52 fraction bits of a number's pattern.
pub open spec fn fraction_of(bits: u64) -> int {
    bits as int % 0x10_0000_0000_0000
}

/// The 11 exponent bits of a number's pattern.
pub open spec fn biased_exponent_of(bits: u64) -> int {
    (bits as int / 0x10_0000_0000_0000) % 0x800
}

/// The mantissa of the number with the pattern `bits`: the fraction with the
/// implicit leading bit, or, for a subnormal number, the fraction doubled.
pub open spec fn mantissa_of(bits: u64) -> int {
    if biased_exponent_of(bits) == 0 {
        2 * fraction_of(bits)
    } else {
        fraction_of(bits) + 0x10_0000_0000_0000
    }
}

/// The power of two by which the mantissa is scaled.
pub open spec fn exponent_of(bits: u64) -> int {
    biased_exponent_of(bits) - (1023 + 52)
}

/// 1 for a pattern with a clear sign bit, -1 for one with the sign bit set.
pub open spec fn sign_of(bits: u64) -> int {
    if bits < 0x8000_0000_0000_0000 {
        1
    } else {
        -1
    }
}

/// The three parts of the number with the pattern `bits`.
pub open spec fn decoded(bits: u64) -> (u64, i16, i8) {
    (mantissa_of(bits) as u64, exponent_of(bits) as i16, sign_of(bits) as i8)
}

/// Takes the bit pattern of a 64-bit floating-point number apart into
/// mantissa, exponent and sign.
pub fn integer_decode(bits: u64) -> (parts: (u64, i16, i8))
    ensures
        parts == decoded(bits),
        parts.0 == mantissa_of(bits),
        parts.1 == exponent_of(bits),
        parts.2 == sign_of(bits),
{
    let sign: i8 = if bits >> 63 == 0 {
        1
    } else {
        -1
    };
    let biased: u64 = (bits >> 52) & 0x7ff;
    let fraction: u64 = bits & 0xfffffffffffff;
    assert((bits >> 63 == 0) == (bits < 0x8000_0000_0000_0000)) by (bit_vector);
    assert(biased == (bits / 0x10_0000_0000_0000) % 0x800 && biased < 0x800) by (bit_vector)
        requires
            biased == (bits >> 52) & 0x7ff,
    ;
    assert(fraction == bits % 0x10_0000_0000_0000 && fraction < 0x10_0000_0000_0000)
        by (bit_vector)
        requires
            fraction == bits & 0xfffffffffffff,
    ;
    let mut exponent: i16 = biased as i16;
    let mantissa: u64 = if exponent == 0 {
        assert(fraction << 1 == 2 * fraction) by (bit_vector)
            requires
                fraction < 0x10_0000_0000_0000,
        ;
        fraction << 1
    } else {
        assert(fraction | 0x10000000000000 == fraction + 0x10000000000000) by (bit_vector)
            requires
                fraction < 0x10_0000_0000_0000,
        ;
        fraction | 0x10000000000000
    };

    exponent -= 1023 + 52;
    (mantissa, exponent, sign)
}

/// Numbers with different bit patterns come apart differently.
pub proof fn lemma_decoded_injective(a: u64, b: u64)
    requires
        decoded(a) == decoded(b),
    ensures
        a == b,
{
    assert(a == (if a < 0x8000_0000_0000_0000 { 0int } else { 0x800int }) * 0x10_0000_0000_0000
        + biased_exponent_of(a) * 0x10_0000_0000_0000 + fraction_of(a));
    assert(b == (if b < 0x8000_0000_0000_0000 { 0int } else { 0x800int }) * 0x10_0000_0000_0000
        + biased_exponent_of(b) * 0x10_0000_0000_0000 + fraction_of(b));
}

impl HF64 {
    /// The parts of the number whose bit pattern is `bits`.
    pub fn new(bits: u64) -> (number: HF64)
        ensures
            number.0 == decoded(bits),
    {
        HF64(integer_decode(bits))
    }
}

} // verus!
