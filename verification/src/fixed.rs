//! Exact fixed-point arithmetic on `i64` micro-units.
//!
//! A value `v: i64` stands for the real number `v / SCALE`. Products and
//! quotients are computed exactly in `i128` and truncated toward zero;
//! an operation whose exact result does not fit in `i64` returns `None`.

use vstd::arithmetic::div_mod::{
    lemma_div_is_ordered, lemma_div_nonincreasing, lemma_div_pos_is_pos,
};
use vstd::prelude::*;

verus! {

/// One whole unit, counted in micro-units: six decimal places.
pub const SCALE: i64 = 1_000_000;

/// Division truncating toward zero, the rounding every fixed-point
/// operation of this crate uses. Defined for positive divisors only.
pub open spec fn div_t(a: int, b: int) -> int
    recommends
        b >= 1,
{
    if a >= 0 {
        a / b
    } else {
        -((-a) / b)
    }
}

/// Whether an exact integer result fits in the stored `i64` range.
pub open spec fn in_i64(v: int) -> bool {
    i64::MIN <= v <= i64::MAX
}

/// The exact fixed-point product: multiply, then drop back to
/// micro-units, truncating toward zero.
pub open spec fn fx_mul_spec(a: int, b: int) -> int {
    div_t(a * b, SCALE as int)
}

/// The exact fixed-point quotient for a positive divisor: scale the
/// dividend up to keep six decimal places, then truncate toward zero.
pub open spec fn fx_div_spec(a: int, b: int) -> int
    recommends
        b >= 1,
{
    div_t(a * SCALE, b)
}

/// Whether `r` is the floor of the square root of `x`.
pub open spec fn is_sqrt_floor(x: int, r: int) -> bool {
    0 <= r && r * r <= x && x < (r + 1) * (r + 1)
}

/// The floor of the square root of a non-negative integer.
pub open spec fn sqrt_floor(x: int) -> int {
    choose|r: int| is_sqrt_floor(x, r)
}

/// The floor square root is unique, so any witness names it.
pub proof fn lemma_sqrt_floor_is(x: int, r: int)
    requires
        is_sqrt_floor(x, r),
    ensures
        sqrt_floor(x) == r,
{
    let c = choose|c: int| is_sqrt_floor(x, c);
    assert(is_sqrt_floor(x, c));
    assert(c == r) by (nonlinear_arith)
        requires
            0 <= c,
            0 <= r,
            c * c <= x,
            x < (c + 1) * (c + 1),
            r * r <= x,
            x < (r + 1) * (r + 1),
    ;
}

/// Truncating division never grows the magnitude of the dividend.
pub proof fn lemma_div_t_bound(a: int, b: int)
    requires
        b >= 1,
    ensures
        a >= 0 ==> 0 <= div_t(a, b) <= a,
        a < 0 ==> a <= div_t(a, b) <= 0,
{
    if a >= 0 {
        lemma_div_pos_is_pos(a, b);
        lemma_div_nonincreasing(a, b);
    } else {
        lemma_div_pos_is_pos(-a, b);
        lemma_div_nonincreasing(-a, b);
    }
}

/// Truncating division leaves a remainder below the divisor, on the
/// dividend's side of zero.
pub proof fn lemma_div_t_rem(a: int, b: int)
    requires
        b >= 1,
    ensures
        a >= 0 ==> 0 <= a - b * div_t(a, b) <= b - 1,
        a < 0 ==> -(b - 1) <= a - b * div_t(a, b) <= 0,
{
    if a >= 0 {
        vstd::arithmetic::div_mod::lemma_fundamental_div_mod(a, b);
        vstd::arithmetic::div_mod::lemma_mod_bound(a, b);
    } else {
        vstd::arithmetic::div_mod::lemma_fundamental_div_mod(-a, b);
        vstd::arithmetic::div_mod::lemma_mod_bound(-a, b);
        assert(b * (-((-a) / b)) == -(b * ((-a) / b))) by (nonlinear_arith);
    }
}

/// Truncating division with a positive divisor is monotone.
pub proof fn lemma_div_t_ordered(a: int, b: int, d: int)
    requires
        d >= 1,
        a <= b,
    ensures
        div_t(a, d) <= div_t(b, d),
{
    if a >= 0 {
        lemma_div_is_ordered(a, b, d);
    } else if b < 0 {
        lemma_div_is_ordered(-b, -a, d);
    } else {
        lemma_div_pos_is_pos(-a, d);
        lemma_div_pos_is_pos(b, d);
    }
}

/// Exact truncating division on `i128`, for a positive divisor.
pub fn div_trunc(a: i128, b: i128) -> (q: i128)
    requires
        b >= 1,
    ensures
        q == div_t(a as int, b as int),
{
    proof {
        lemma_div_t_bound(a as int, b as int);
    }
    let q = a.checked_div(b);
    q.unwrap()
}

/// The integer square root, rounded down.
pub fn isqrt(x: u128) -> (r: u64)
    ensures
        (r as int) * (r as int) <= x as int,
        (x as int) < (r as int + 1) * (r as int + 1),
        r == sqrt_floor(x as int),
{
    let mut lo: u128 = 0;
    let mut hi: u128 = 0x1_0000_0000_0000_0000;
    proof {
        assert((hi as int) * (hi as int) > x as int) by (nonlinear_arith)
            requires
                hi == 0x1_0000_0000_0000_0000u128,
                x <= u128::MAX,
        ;
    }
    while lo + 1 < hi
        invariant
            lo < hi <= 0x1_0000_0000_0000_0000u128,
            (lo as int) * (lo as int) <= x as int,
            (x as int) < (hi as int) * (hi as int),
        decreases hi - lo,
    {
        let mid: u128 = lo + (hi - lo) / 2;
        proof {
            assert((mid as int) * (mid as int) <= u128::MAX as int) by (nonlinear_arith)
                requires
                    mid < 0x1_0000_0000_0000_0000u128,
            ;
        }
        if mid * mid <= x {
            lo = mid;
        } else {
            hi = mid;
        }
    }
    proof {
        assert(lo < 0x1_0000_0000_0000_0000u128);
        lemma_sqrt_floor_is(x as int, lo as int);
    }
    lo as u64
}

/// The fixed-point product, or `None` when the exact result leaves `i64`.
pub fn fx_mul(a: i64, b: i64) -> (r: Option<i64>)
    ensures
        in_i64(fx_mul_spec(a as int, b as int)) ==> r == Some(
            fx_mul_spec(a as int, b as int) as i64,
        ),
        !in_i64(fx_mul_spec(a as int, b as int)) ==> r is None,
{
    proof {
        assert(i128::MIN <= (a as int) * (b as int) <= i128::MAX) by (nonlinear_arith)
            requires
                i64::MIN <= a <= i64::MAX,
                i64::MIN <= b <= i64::MAX,
        ;
    }
    let p: i128 = (a as i128) * (b as i128);
    let q: i128 = div_trunc(p, SCALE as i128);
    if q >= i64::MIN as i128 && q <= i64::MAX as i128 {
        Some(q as i64)
    } else {
        None
    }
}

/// The fixed-point quotient for a positive divisor, or `None` when the
/// exact result leaves `i64`.
pub fn fx_div(a: i64, b: i64) -> (r: Option<i64>)
    requires
        b >= 1,
    ensures
        in_i64(fx_div_spec(a as int, b as int)) ==> r == Some(
            fx_div_spec(a as int, b as int) as i64,
        ),
        !in_i64(fx_div_spec(a as int, b as int)) ==> r is None,
{
    proof {
        assert(i128::MIN <= (a as int) * (SCALE as int) <= i128::MAX) by (nonlinear_arith)
            requires
                i64::MIN <= a <= i64::MAX,
                SCALE == 1_000_000i64,
        ;
    }
    let p: i128 = (a as i128) * (SCALE as i128);
    let q: i128 = div_trunc(p, b as i128);
    if q >= i64::MIN as i128 && q <= i64::MAX as i128 {
        Some(q as i64)
    } else {
        None
    }
}

} // verus!
