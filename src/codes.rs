use vstd::prelude::*;

verus! {

/// The sign bit of an IEEE-754 single-precision value.
pub const SIGN_BIT: u32 = 2147483648;

/// The order code of the `f32` whose bit pattern is `bits`: its magnitude
/// bits, negated when the sign bit is set. For values that are not NaN the
/// codes order exactly as the values do, and both zeros get code 0.
pub open spec fn code_of(bits: u32) -> int {
    if bits >= SIGN_BIT {
        -(bits - SIGN_BIT)
    } else {
        bits as int
    }
}

/// The bit pattern of the `f32` with order code `code` (for code 0, positive zero).
pub open spec fn bits_of(code: int) -> int {
    if code < 0 {
        SIGN_BIT - code
    } else {
        code
    }
}

/// The order code of the `f32` with bit pattern `bits`.
pub fn order_code(bits: u32) -> (r: i32)
    ensures
        r as int == code_of(bits),
        r > i32::MIN,
{
    if bits >= SIGN_BIT {
        -((bits - SIGN_BIT) as i32)
    } else {
        bits as i32
    }
}

/// The bit pattern of the `f32` with order code `code`.
pub fn code_bits(code: i32) -> (r: u32)
    requires
        code > i32::MIN,
    ensures
        r as int == bits_of(code as int),
{
    if code < 0 {
        SIGN_BIT + ((-code) as u32)
    } else {
        code as u32
    }
}

/// Codes and bit patterns correspond one to one, but for negative zero,
/// which shares code 0 with positive zero.
pub proof fn lemma_codes_round_trip(bits: u32, code: i32)
    ensures
        bits != SIGN_BIT ==> bits_of(code_of(bits)) == bits as int,
        bits == SIGN_BIT ==> code_of(bits) == 0,
        code > i32::MIN ==> 0 <= bits_of(code as int) <= u32::MAX && code_of(
            bits_of(code as int) as u32,
        ) == code as int,
{
}

} // verus!
