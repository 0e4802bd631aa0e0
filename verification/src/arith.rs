//! Conversions between the integer widths that picture numbers pass through.

use vstd::prelude::*;

verus! {

/// The `i32` that is congruent to `x` modulo 2^32: what is left of `x` in two's
/// complement when only its low 32 bits are kept. Every `x` that fits in an
/// `i32` stands for itself.
pub open spec fn wrap_i32(x: int) -> i32 {
    let low = x % 0x1_0000_0000;
    if low < 0x8000_0000 {
        low as i32
    } else {
        (low - 0x1_0000_0000) as i32
    }
}

/// Whether `x` is an `i32`.
pub open spec fn fits_i32(x: int) -> bool {
    i32::MIN <= x <= i32::MAX
}

/// Keeps the low 32 bits of `x`.
pub fn low_i32(x: i64) -> (r: i32)
    ensures
        r == wrap_i32(x as int),
{
    let r: i32 = x as i32;
    proof {
        let bits = x as u64;
        let low = bits % 0x1_0000_0000;
        assert(low < 0x8000_0000 ==> r as i64 == low as i64) by (bit_vector)
            requires
                r == x as i32,
                bits == x as u64,
                low == bits % 0x1_0000_0000,
        ;
        assert(low >= 0x8000_0000 ==> r as i64 == low as i64 - 0x1_0000_0000) by (bit_vector)
            requires
                r == x as i32,
                bits == x as u64,
                low == bits % 0x1_0000_0000,
        ;
        assert(x >= 0 ==> bits == x) by (bit_vector)
            requires
                bits == x as u64,
        ;
        assert(x < 0 ==> bits == x + 0x1_0000_0000_0000_0000) by (bit_vector)
            requires
                bits == x as u64,
        ;
    }
    r
}

/// A value that fits in an `i32` is kept as it is, and any other is moved by a
/// multiple of 2^32. Two values less than 2^32 apart stay apart.
pub proof fn law_wrap_i32(x: int, y: int)
    ensures
        fits_i32(x) ==> wrap_i32(x) == x,
        (wrap_i32(x) - x) % 0x1_0000_0000 == 0,
        -0x1_0000_0000 < x - y < 0x1_0000_0000 && wrap_i32(x) == wrap_i32(y) ==> x == y,
{
}

} // verus!
