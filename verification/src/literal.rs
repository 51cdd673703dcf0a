//! Packed literals: a variable index together with a polarity bit.

use vstd::prelude::*;

verus! {

/// Largest number of variables whose literals fit the packed representation.
pub const MAX_VARIABLES: u32 = 0x8000_0000;

/// The literal over variable `index`, negated when `negated` holds.
pub open spec fn spec_encode(index: u32, negated: bool) -> u32 {
    if negated {
        (index << 1) | 1
    } else {
        index << 1
    }
}

/// The variable a literal refers to.
pub open spec fn spec_variable(literal: u32) -> u32 {
    literal >> 1
}

/// Whether a literal is negated.
pub open spec fn spec_is_negated(literal: u32) -> bool {
    literal & 1 == 1
}

/// The literal over the same variable with the opposite polarity.
pub open spec fn spec_negate(literal: u32) -> u32 {
    literal ^ 1
}

/// Two literals are complementary when they name the same variable with
/// opposite polarities.
pub open spec fn complementary(a: u32, b: u32) -> bool {
    spec_variable(a) == spec_variable(b) && spec_is_negated(a) != spec_is_negated(b)
}

/// Packs a variable index and a polarity into a literal. An index that
/// is not below `MAX_VARIABLES` loses its highest bit.
#[verifier::when_used_as_spec(spec_encode)]
pub fn encode(index: u32, negated: bool) -> (literal: u32)
    ensures
        literal == spec_encode(index, negated),
        index < MAX_VARIABLES ==> spec_variable(literal) == index,
        spec_is_negated(literal) == negated,
{
    proof {
        if index < MAX_VARIABLES {
            lemma_decode_encode(index, negated);
        }
        assert(((index << 1) | 1) & 1 == 1) by (bit_vector);
        assert((index << 1) & 1 == 0) by (bit_vector);
    }
    if negated {
        (index << 1) | 1
    } else {
        index << 1
    }
}

/// Unpacks a literal into its variable index and its polarity.
pub fn decode(literal: u32) -> (parts: (u32, bool))
    ensures
        parts.0 == spec_variable(literal),
        parts.1 == spec_is_negated(literal),
        parts.0 < MAX_VARIABLES,
        spec_encode(parts.0, parts.1) == literal,
{
    proof {
        lemma_encode_decode(literal);
    }
    (literal >> 1, literal & 1 == 1)
}

/// Flips the polarity of a literal.
#[verifier::when_used_as_spec(spec_negate)]
pub fn negate(literal: u32) -> (flipped: u32)
    ensures
        flipped == spec_negate(literal),
        spec_variable(flipped) == spec_variable(literal),
        spec_is_negated(flipped) != spec_is_negated(literal),
{
    proof {
        lemma_negate_flips(literal);
    }
    literal ^ 1
}

/// Whether two literals name the same variable with opposite polarities.
#[verifier::when_used_as_spec(complementary)]
pub fn are_complementary(a: u32, b: u32) -> (opposite: bool)
    ensures
        opposite == complementary(a, b),
{
    let first = decode(a);
    let second = decode(b);
    first.0 == second.0 && first.1 != second.1
}

/// Decoding an encoded pair gives the pair back.
pub proof fn lemma_decode_encode(index: u32, negated: bool)
    requires
        index < MAX_VARIABLES,
    ensures
        spec_variable(spec_encode(index, negated)) == index,
        spec_is_negated(spec_encode(index, negated)) == negated,
{
    assert(index < 0x8000_0000u32 ==> ((index << 1) | 1) >> 1 == index) by (bit_vector);
    assert(index < 0x8000_0000u32 ==> (index << 1) >> 1 == index) by (bit_vector);
    assert(((index << 1) | 1) & 1 == 1) by (bit_vector);
    assert((index << 1) & 1 == 0) by (bit_vector);
}

/// Encoding the parts of a literal gives the literal back, and the variable
/// of any literal is a valid index.
pub proof fn lemma_encode_decode(literal: u32)
    ensures
        spec_variable(literal) < MAX_VARIABLES,
        spec_encode(spec_variable(literal), spec_is_negated(literal)) == literal,
{
    assert(literal >> 1 < 0x8000_0000u32) by (bit_vector);
    assert(literal & 1 == 1 ==> ((literal >> 1) << 1) | 1 == literal) by (bit_vector);
    assert(literal & 1 != 1 ==> (literal >> 1) << 1 == literal) by (bit_vector);
}

/// Negation keeps the variable and flips the polarity.
pub proof fn lemma_negate_flips(literal: u32)
    ensures
        spec_variable(spec_negate(literal)) == spec_variable(literal),
        spec_is_negated(spec_negate(literal)) != spec_is_negated(literal),
        spec_negate(literal) != literal,
{
    assert((literal ^ 1) >> 1 == literal >> 1) by (bit_vector);
    assert(((literal ^ 1) & 1 == 1) != (literal & 1 == 1)) by (bit_vector);
    assert(literal ^ 1 != literal) by (bit_vector);
}

/// Negation is an involution, and a literal and its negation are
/// complementary.
pub proof fn lemma_negate_involutive(literal: u32)
    ensures
        spec_negate(spec_negate(literal)) == literal,
        complementary(literal, spec_negate(literal)),
        complementary(spec_negate(literal), literal),
{
    assert((literal ^ 1) ^ 1 == literal) by (bit_vector);
    lemma_negate_flips(literal);
}

} // verus!
