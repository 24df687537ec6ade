//! Samples from floating-point streams.
//!
//! The digest counts integers. A stream of IEEE 754 doubles enters it
//! through the bit patterns of the doubles: a finite double stands as the
//! signed magnitude of its bits, the integer that has among the integers
//! the place that the double has among the doubles. Quantiles keep their
//! place under such a map, so the estimate read off the digest is the
//! integer of an estimate for the doubles, and `sample_to_bits` gives the
//! double back. Infinities and NaN are refused. Both zeros stand as 0.

use vstd::prelude::*;
use crate::error::DigestError;

verus! {

/// The sign bit of a double.
pub const SIGN_BIT: u64 = 0x8000_0000_0000_0000;

/// The exponent field of a double; all ones in it mean infinity or NaN.
pub const EXPONENT_BITS: u64 = 0x7ff0_0000_0000_0000;

/// All bits of a double but its sign.
pub const MAGNITUDE_BITS: u64 = 0x7fff_ffff_ffff_ffff;

/// The sample of the largest finite double.
pub const LARGEST_FINITE: i64 = 0x7fef_ffff_ffff_ffff;

/// Whether the bits are those of a finite double.
pub open spec fn finite_bits(bits: u64) -> bool {
    bits & EXPONENT_BITS != EXPONENT_BITS
}

/// The sample that stands for the double with the given bits: its
/// magnitude bits as a number, negative if the sign bit is set.
pub open spec fn sample_of(bits: u64) -> int {
    if bits & SIGN_BIT != 0 {
        -((bits & MAGNITUDE_BITS) as int)
    } else {
        (bits & MAGNITUDE_BITS) as int
    }
}

/// The bits of the double that the sample stands for.
pub open spec fn bits_of(sample: int) -> u64
    recommends
        -LARGEST_FINITE <= sample <= LARGEST_FINITE,
{
    if sample < 0 {
        ((-sample) as u64) | SIGN_BIT
    } else {
        sample as u64
    }
}

/// The sample of a finite double gives the double back, but for the
/// negative zero, which comes back as the positive one; and the sample lies
/// between those of the largest finite doubles of either sign.
pub proof fn lemma_sample_of(bits: u64)
    requires
        finite_bits(bits),
    ensures
        -LARGEST_FINITE <= sample_of(bits) <= LARGEST_FINITE,
        bits != SIGN_BIT ==> bits_of(sample_of(bits)) == bits,
        bits == SIGN_BIT ==> bits_of(sample_of(bits)) == 0,
{
    let magnitude = bits & MAGNITUDE_BITS;
    assert(magnitude <= 0x7fef_ffff_ffff_ffff) by (bit_vector)
        requires
            bits & 0x7ff0_0000_0000_0000 != 0x7ff0_0000_0000_0000,
            magnitude == bits & 0x7fff_ffff_ffff_ffff,
    ;
    if bits & SIGN_BIT != 0 {
        assert(magnitude | 0x8000_0000_0000_0000 == bits) by (bit_vector)
            requires
                bits & 0x8000_0000_0000_0000 != 0,
                magnitude == bits & 0x7fff_ffff_ffff_ffff,
        ;
        assert(magnitude == 0 <==> bits == 0x8000_0000_0000_0000) by (bit_vector)
            requires
                bits & 0x8000_0000_0000_0000 != 0,
                magnitude == bits & 0x7fff_ffff_ffff_ffff,
        ;
    } else {
        assert(magnitude == bits) by (bit_vector)
            requires
                bits & 0x8000_0000_0000_0000 == 0,
                magnitude == bits & 0x7fff_ffff_ffff_ffff,
        ;
    }
}

/// The bits of a sample are those of a finite double, and its sample is
/// the sample again.
pub proof fn lemma_bits_of(sample: int)
    requires
        -LARGEST_FINITE <= sample <= LARGEST_FINITE,
    ensures
        finite_bits(bits_of(sample)),
        sample_of(bits_of(sample)) == sample,
{
    let magnitude: u64 = if sample < 0 {
        (-sample) as u64
    } else {
        sample as u64
    };
    assert(magnitude & 0x7ff0_0000_0000_0000 != 0x7ff0_0000_0000_0000 && magnitude
        & 0x8000_0000_0000_0000 == 0 && magnitude & 0x7fff_ffff_ffff_ffff == magnitude
        && (magnitude | 0x8000_0000_0000_0000) & 0x7ff0_0000_0000_0000 != 0x7ff0_0000_0000_0000
        && (magnitude | 0x8000_0000_0000_0000) & 0x8000_0000_0000_0000 != 0 && (magnitude
        | 0x8000_0000_0000_0000) & 0x7fff_ffff_ffff_ffff == magnitude) by (bit_vector)
        requires
            magnitude <= 0x7fef_ffff_ffff_ffff,
    ;
}

/// The sample that stands for the double with the given bits. Fails with
/// `InvalidValue` if the double is an infinity or NaN.
pub fn sample_from_bits(bits: u64) -> (res: Result<i64, DigestError>)
    ensures
        finite_bits(bits) ==> res == Ok::<i64, DigestError>(sample_of(bits) as i64),
        !finite_bits(bits) ==> res == Err::<i64, DigestError>(DigestError::InvalidValue),
        res matches Ok(sample) ==> -LARGEST_FINITE <= sample <= LARGEST_FINITE && sample
            == sample_of(bits),
{
    if bits & EXPONENT_BITS == EXPONENT_BITS {
        return Err(DigestError::InvalidValue);
    }
    proof {
        lemma_sample_of(bits);
    }
    let magnitude: u64 = bits & MAGNITUDE_BITS;
    if bits & SIGN_BIT != 0 {
        Ok(-(magnitude as i64))
    } else {
        Ok(magnitude as i64)
    }
}

/// The bits of the double that the sample stands for, if it stands for
/// one: if it lies between the samples of the largest finite doubles of
/// either sign.
pub fn sample_to_bits(sample: i64) -> (res: Option<u64>)
    ensures
        -LARGEST_FINITE <= sample <= LARGEST_FINITE ==> res == Some(bits_of(sample as int)),
        !(-LARGEST_FINITE <= sample <= LARGEST_FINITE) ==> res is None,
{
    if sample < -LARGEST_FINITE || sample > LARGEST_FINITE {
        return None;
    }
    if sample < 0 {
        Some(((-sample) as u64) | SIGN_BIT)
    } else {
        Some(sample as u64)
    }
}

} // verus!
