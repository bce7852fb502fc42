//! Order keys: integers that compare as IEEE-754 doubles do.
//!
//! A double is a sign bit and a 63-bit magnitude; for every value that is not
//! a NaN, the magnitude bits (read as an unsigned integer) grow with the
//! absolute value.  Reading the bit pattern as sign-and-magnitude therefore
//! gives an integer whose order is the order of the doubles, with `-0.0` and
//! `+0.0` both mapped to `0`, just as they compare equal.
use vstd::prelude::*;

verus! {

/// The sign bit of a double's bit pattern.
pub const SIGN_BIT: u64 = 0x8000_0000_0000_0000u64;

/// The key of a bit pattern: its magnitude, negated when the sign bit is set.
pub open spec fn key_of_bits(bits: u64) -> int {
    if bits >= SIGN_BIT {
        -(bits - SIGN_BIT)
    } else {
        bits as int
    }
}

/// The key that orders the double whose bit pattern is `bits`
/// (`f64::to_bits`).
pub fn order_key(bits: u64) -> (k: i64)
    ensures
        k == key_of_bits(bits),
{
    if bits >= SIGN_BIT {
        let mag: u64 = bits - SIGN_BIT;
        -(mag as i64)
    } else {
        bits as i64
    }
}

/// A bit pattern with the given key (`f64::from_bits` turns it back into a
/// double).  Zero gives the pattern of `+0.0`.
pub fn key_bits(k: i64) -> (bits: u64)
    requires
        k > i64::MIN,
    ensures
        key_of_bits(bits) == k,
        k >= 0 ==> bits < SIGN_BIT,
{
    if k < 0 {
        let mag: i64 = -k;
        (mag as u64) + SIGN_BIT
    } else {
        k as u64
    }
}

/// Every key lies strictly above `i64::MIN`, so it can be turned back into a
/// bit pattern.
pub proof fn lemma_key_in_range(bits: u64)
    ensures
        i64::MIN < key_of_bits(bits) <= i64::MAX,
{
}

/// Two bit patterns have the same key only when they are the same pattern or
/// the two zeros; so turning a pattern into its key and back (`key_bits`)
/// gives the pattern again, negative zero coming back as positive zero.
pub proof fn lemma_key_injective(a: u64, b: u64)
    requires
        key_of_bits(a) == key_of_bits(b),
    ensures
        a == b || (a == 0 && b == SIGN_BIT) || (a == SIGN_BIT && b == 0),
{
}

/// Keys order bit patterns as IEEE-754 orders the doubles that are not NaN:
/// among non-negative patterns the larger magnitude is larger, among negative
/// ones the larger magnitude is smaller, every negative pattern is below every
/// non-negative one except that the two zeros are equal.
pub proof fn lemma_key_order(a: u64, b: u64)
    ensures
        ({
            let neg_a = a >= SIGN_BIT;
            let neg_b = b >= SIGN_BIT;
            let mag_a: int = if neg_a { a - SIGN_BIT } else { a as int };
            let mag_b: int = if neg_b { b - SIGN_BIT } else { b as int };
            &&& (key_of_bits(a) < key_of_bits(b)) <==> if !neg_a && !neg_b {
                mag_a < mag_b
            } else if neg_a && neg_b {
                mag_b < mag_a
            } else if neg_a {
                !(mag_a == 0 && mag_b == 0)
            } else {
                false
            }
            &&& (key_of_bits(a) == key_of_bits(b)) <==> (mag_a == mag_b && (neg_a == neg_b || mag_a == 0))
        }),
{
}

/// Flipping the sign bit negates the key.
pub proof fn lemma_key_negate(bits: u64)
    ensures
        bits < SIGN_BIT ==> key_of_bits((bits + SIGN_BIT) as u64) == -key_of_bits(bits),
        bits >= SIGN_BIT ==> key_of_bits((bits - SIGN_BIT) as u64) == -key_of_bits(bits),
{
}

} // verus!
