use vstd::prelude::*;

verus! {

/// A GREASE value per RFC 8701: the high byte equals the low byte and the
/// low nibble of each byte is `0xA`, giving `{0x0A0A, 0x1A1A, ..., 0xFAFA}`.
pub open spec fn spec_is_grease(v: u16) -> bool {
    v & 0x0F0F == 0x0A0A && v >> 8 == v & 0xFF
}

/// Check whether a `u16` value is a GREASE value defined in RFC 8701.
///
/// GREASE values have identical high and low bytes matching `0x_A`, producing
/// the set `{0x0A0A, 0x1A1A, 0x2A2A, ..., 0xFAFA}`.
#[verifier::when_used_as_spec(spec_is_grease)]
#[must_use]
pub fn is_grease(value: u16) -> (r: bool)
    ensures
        r == spec_is_grease(value),
{
    (value & 0x0F0F) == 0x0A0A && (value >> 8) == (value & 0xFF)
}

/// RFC 8701 reserves exactly sixteen GREASE values: `is_grease` accepts a
/// 16-bit value if and only if it is one of them.
pub proof fn lemma_grease_values(v: u16)
    ensures
        spec_is_grease(v) <==> (v == 0x0A0A || v == 0x1A1A || v == 0x2A2A || v == 0x3A3A
            || v == 0x4A4A || v == 0x5A5A || v == 0x6A6A || v == 0x7A7A || v == 0x8A8A
            || v == 0x9A9A || v == 0xAAAA || v == 0xBABA || v == 0xCACA || v == 0xDADA
            || v == 0xEAEA || v == 0xFAFA),
{
    assert((v & 0x0F0F == 0x0A0A && v >> 8 == v & 0xFF) <==> (v == 0x0A0A || v == 0x1A1A
        || v == 0x2A2A || v == 0x3A3A || v == 0x4A4A || v == 0x5A5A || v == 0x6A6A || v == 0x7A7A
        || v == 0x8A8A || v == 0x9A9A || v == 0xAAAA || v == 0xBABA || v == 0xCACA || v == 0xDADA
        || v == 0xEAEA || v == 0xFAFA)) by (bit_vector);
}

} // verus!
