//! Saturating fixed-point coordinate arithmetic.
//!
//! World positions are `i64` thousandths of a world unit. Every position
//! computation saturates at the `i64` range instead of wrapping, so no
//! precondition on how far cards have drifted is ever needed.

use vstd::prelude::*;

verus! {

/// Clamp a mathematical integer into the `i64` range.
pub open spec fn clamp_coord(v: int) -> int {
    if v < i64::MIN as int {
        i64::MIN as int
    } else if v > i64::MAX as int {
        i64::MAX as int
    } else {
        v
    }
}

/// Clamp a wide intermediate value back to a coordinate.
pub fn coord_of_i128(v: i128) -> (r: i64)
    ensures
        r as int == clamp_coord(v as int),
{
    if v < i64::MIN as i128 {
        i64::MIN
    } else if v > i64::MAX as i128 {
        i64::MAX
    } else {
        v as i64
    }
}

/// Saturating coordinate addition.
pub fn coord_add(a: i64, b: i64) -> (r: i64)
    ensures
        r as int == clamp_coord(a as int + b as int),
{
    coord_of_i128(a as i128 + b as i128)
}

/// Saturating product of a coordinate step and a count, for cascade offsets.
pub fn coord_mul_count(step: i64, count: usize) -> (r: i64)
    ensures
        r as int == clamp_coord(step as int * count as int),
{
    // A count beyond the i64 range can be clamped before multiplying: with a
    // nonzero step the product saturates either way, and with a zero step
    // both products are zero.
    let big: bool = count as u128 > i64::MAX as u128;
    let c: i128 = if big {
        i64::MAX as i128 + 1
    } else {
        count as i128
    };
    proof {
        assert(i128::MIN as int <= step as int * c as int <= i128::MAX as int)
            by (nonlinear_arith)
            requires
                i64::MIN as int <= step as int <= i64::MAX as int,
                0 <= c as int <= i64::MAX as int + 1,
        ;
    }
    let r = coord_of_i128(step as i128 * c);
    proof {
        if big && step > 0 {
            assert(step as int * c as int >= c as int && step as int * count as int
                >= count as int) by (nonlinear_arith)
                requires
                    step as int >= 1,
                    c as int >= 0,
                    count as int >= 0,
            ;
        }
        if step == 0 {
            assert(step as int * count as int == 0 && step as int * c as int == 0)
                by (nonlinear_arith)
                requires
                    step as int == 0,
            ;
        }
        if big && step < 0 {
            assert(step as int * c as int <= -(c as int) && step as int * count as int <= -(
            count as int)) by (nonlinear_arith)
                requires
                    step as int <= -1,
                    c as int >= 0,
                    count as int >= 0,
            ;
        }
    }
    r
}

} // verus!
