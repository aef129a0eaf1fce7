//! Single-precision numbers read from their bit patterns.
//!
//! A number is a `u32` holding the IEEE 754 encoding: a sign bit, eight bits of
//! exponent and twenty-three bits of fraction. The functions here compare and
//! round such numbers without any floating-point arithmetic.
use vstd::arithmetic::div_mod::{
    lemma_div_denominator, lemma_div_is_ordered_by_denominator, lemma_div_multiples_vanish,
    lemma_fundamental_div_mod, lemma_fundamental_div_mod_converse,
};
use vstd::arithmetic::mul::{
    lemma_mul_inequality, lemma_mul_is_associative, lemma_mul_is_commutative,
    lemma_mul_is_distributive_add_other_way, lemma_mul_strict_inequality,
};
use vstd::arithmetic::power2::{lemma2_to64, lemma_pow2_adds, lemma_pow2_pos, pow2};
use vstd::bits::{lemma_u32_shl_is_mul, lemma_u32_shr_is_div};
use vstd::prelude::*;

verus! {

/// The encoding of 0.0.
pub const ZERO: u32 = 0x0000_0000;

/// The encoding of 0.5, the level above which a switch counts as on.
pub const HALF: u32 = 0x3f00_0000;

/// The encoding of 1.0.
pub const ONE: u32 = 0x3f80_0000;

/// Whether the encoding stands for no number at all.
pub open spec fn not_a_number(b: u32) -> bool {
    b % 0x8000_0000 > 0x7f80_0000
}

/// Whether the sign bit is set.
pub open spec fn negative(b: u32) -> bool {
    b >= 0x8000_0000
}

/// The exponent field.
pub open spec fn exponent(b: u32) -> int {
    (b % 0x8000_0000) as int / 0x80_0000
}

/// The fraction field with the leading one that a normal number leaves out.
pub open spec fn significand(b: u32) -> int {
    if exponent(b) == 0 {
        b as int % 0x80_0000
    } else {
        b as int % 0x80_0000 + 0x80_0000
    }
}

/// The absolute value in units of the smallest positive number (2 to the
/// power of -149). An infinity is read as 2 to the power of 128, which is
/// beyond every finite number.
pub open spec fn magnitude(b: u32) -> int {
    significand(b) * pow2(
        (if exponent(b) == 0 {
            0
        } else {
            exponent(b) - 1
        }) as nat,
    )
}

/// The number itself, in the same units.
pub open spec fn scaled(b: u32) -> int {
    if negative(b) {
        -magnitude(b)
    } else {
        magnitude(b)
    }
}

/// `a < b` as numbers; false when either is not a number.
pub open spec fn less(a: u32, b: u32) -> bool {
    !not_a_number(a) && !not_a_number(b) && scaled(a) < scaled(b)
}

/// Whether a switch that holds this number is on.
pub open spec fn on(b: u32) -> bool {
    less(HALF, b)
}

/// An integer brought into the range of `i32`.
pub open spec fn saturated(n: int) -> int {
    if n < i32::MIN {
        i32::MIN as int
    } else if n > i32::MAX {
        i32::MAX as int
    } else {
        n
    }
}

/// The nearest integer, halves rounded away from zero.
pub open spec fn nearest(b: u32) -> int {
    let n = (magnitude(b) + pow2(148)) / (pow2(149) as int);
    if negative(b) {
        -n
    } else {
        n
    }
}

/// The number with its fractional part dropped.
pub open spec fn whole_part(b: u32) -> int {
    let n = magnitude(b) / (pow2(149) as int);
    if negative(b) {
        -n
    } else {
        n
    }
}

/// The integer that [`round_to_i32`] gives.
pub open spec fn rounded(b: u32) -> int {
    if not_a_number(b) {
        0
    } else {
        saturated(nearest(b))
    }
}

/// The integer that [`trunc_to_i32`] gives.
pub open spec fn truncated(b: u32) -> int {
    if not_a_number(b) {
        0
    } else {
        saturated(whole_part(b))
    }
}

/// Encodings without their sign bits are ordered as the absolute values are.
pub proof fn lemma_magnitude_order(a: u32, b: u32)
    ensures
        a % 0x8000_0000 < b % 0x8000_0000 <==> magnitude(a) < magnitude(b),
        a % 0x8000_0000 == b % 0x8000_0000 <==> magnitude(a) == magnitude(b),
{
    let x = a % 0x8000_0000;
    let y = b % 0x8000_0000;
    if x < y {
        lemma_magnitude_increases(a, b);
    } else if y < x {
        lemma_magnitude_increases(b, a);
    } else {
        assert(a as int % 0x80_0000 == x as int % 0x80_0000);
        assert(b as int % 0x80_0000 == y as int % 0x80_0000);
    }
}

proof fn lemma_magnitude_increases(a: u32, b: u32)
    requires
        a % 0x8000_0000 < b % 0x8000_0000,
    ensures
        magnitude(a) < magnitude(b),
{
    let ea = exponent(a);
    let eb = exponent(b);
    let sa = significand(a);
    let sb = significand(b);
    assert(a as int % 0x80_0000 == (a % 0x8000_0000) as int % 0x80_0000);
    assert(b as int % 0x80_0000 == (b % 0x8000_0000) as int % 0x80_0000);
    lemma2_to64();
    if ea == eb {
        let p = pow2(
            (if ea == 0 {
                0
            } else {
                ea - 1
            }) as nat,
        );
        lemma_pow2_pos(
            (if ea == 0 {
                0
            } else {
                ea - 1
            }) as nat,
        );
        assert(sa < sb);
        lemma_mul_strict_inequality(sa, sb, p as int);
    } else {
        assert(ea < eb);
        let pb = pow2((eb - 1) as nat);
        lemma_pow2_pos((eb - 1) as nat);
        lemma_mul_inequality(0x80_0000, sb, pb as int);
        if ea == 0 {
            assert(magnitude(a) == sa * 1);
            lemma_mul_inequality(1, pb as int, 0x80_0000);
        } else {
            let pa = pow2((ea - 1) as nat);
            lemma_pow2_pos((ea - 1) as nat);
            lemma_mul_strict_inequality(sa, 0x100_0000, pa as int);
            lemma_pow2_adds((ea - 1) as nat, (eb - ea) as nat);
            lemma_pow2_adds(1, (eb - ea - 1) as nat);
            lemma_pow2_pos((eb - ea - 1) as nat);
            lemma_mul_inequality(2, pow2((eb - ea) as nat) as int, pa as int);
            lemma_mul_is_commutative(pa as int, pow2((eb - ea) as nat) as int);
            assert(pb >= 2 * pa);
        }
    }
}

/// Whether the encoding stands for no number.
pub fn is_nan(b: u32) -> (r: bool)
    ensures
        r == not_a_number(b),
{
    b % 0x8000_0000 > 0x7f80_0000
}

/// `a < b` as numbers.
pub fn less_than(a: u32, b: u32) -> (r: bool)
    ensures
        r == less(a, b),
{
    proof {
        lemma_magnitude_order(a, b);
        lemma_magnitude_order(a, ZERO);
        lemma_magnitude_order(ZERO, b);
        lemma2_to64();
        assert(magnitude(ZERO) == 0) by {
            lemma_mul_is_commutative(0, pow2(0) as int);
        }
    }
    if is_nan(a) || is_nan(b) {
        return false;
    }
    let x: u32 = a % 0x8000_0000;
    let y: u32 = b % 0x8000_0000;
    if a >= 0x8000_0000 {
        if b >= 0x8000_0000 {
            y < x
        } else {
            x != 0 || y != 0
        }
    } else if b >= 0x8000_0000 {
        false
    } else {
        x < y
    }
}

/// Whether a switch that holds this number is on.
pub fn is_on(b: u32) -> (r: bool)
    ensures
        r == on(b),
{
    less_than(HALF, b)
}

/// The larger of a number and a floor; the floor when there is no number.
pub fn at_least(b: u32, floor: u32) -> (r: u32)
    ensures
        r == (if less(floor, b) {
            b
        } else {
            floor
        }),
{
    if less_than(floor, b) {
        b
    } else {
        floor
    }
}

/// A number brought between two bounds; what is not a number stays as it is.
pub fn clamp(b: u32, low: u32, high: u32) -> (r: u32)
    ensures
        r == (if less(b, low) {
            low
        } else if less(high, b) {
            high
        } else {
            b
        }),
{
    if less_than(b, low) {
        low
    } else if less_than(high, b) {
        high
    } else {
        b
    }
}

/// Numbers from one half up that may have a fractional part: the integer is the
/// significand shifted right, after one half was added if `half` asks for it.
proof fn lemma_quotient_of_small(b: u32, half: bool)
    requires
        126 <= exponent(b) <= 149,
    ensures
        ({
            let s = (150 - exponent(b)) as nat;
            let bias = if half {
                pow2((s - 1) as nat) as int
            } else {
                0
            };
            let total_bias = if half {
                pow2(148) as int
            } else {
                0
            };
            (magnitude(b) + total_bias) / (pow2(149) as int) == (significand(b) + bias) / (pow2(
                s,
            ) as int)
        }),
{
    let s = (150 - exponent(b)) as nat;
    let e = (exponent(b) - 1) as nat;
    let p = pow2(e) as int;
    let bias = if half {
        pow2((s - 1) as nat) as int
    } else {
        0
    };
    let total_bias = if half {
        pow2(148) as int
    } else {
        0
    };
    lemma_pow2_pos(e);
    lemma_pow2_pos(s);
    lemma_pow2_adds(e, s);
    lemma_pow2_adds((s - 1) as nat, e);
    assert(bias * p == total_bias);
    lemma_mul_is_distributive_add_other_way(p, significand(b), bias);
    let n = significand(b) + bias;
    assert(magnitude(b) + total_bias == n * p);
    assert(pow2(149) as int == p * pow2(s));
    assert(n >= 0) by {
        lemma_pow2_pos((s - 1) as nat);
    }
    assert(n * p >= 0) by {
        lemma_mul_inequality(0, n, p);
    }
    lemma_div_denominator(n * p, p, pow2(s) as int);
    lemma_mul_is_commutative(n, p);
    lemma_div_multiples_vanish(n, p);
}

/// Numbers too large for a fractional part: the integer is the number itself.
proof fn lemma_quotient_of_large(b: u32, half: bool)
    requires
        150 <= exponent(b),
    ensures
        ({
            let total_bias = if half {
                pow2(148) as int
            } else {
                0
            };
            (magnitude(b) + total_bias) / (pow2(149) as int) == significand(b) * pow2(
                (exponent(b) - 150) as nat,
            )
        }),
{
    let d = pow2(149) as int;
    let q = significand(b) * pow2((exponent(b) - 150) as nat);
    let total_bias = if half {
        pow2(148) as int
    } else {
        0
    };
    lemma2_to64();
    lemma_pow2_pos(148);
    lemma_pow2_adds(1, 148);
    lemma_pow2_adds((exponent(b) - 150) as nat, 149);
    lemma_mul_is_associative(significand(b), pow2((exponent(b) - 150) as nat) as int, d);
    assert(magnitude(b) == q * d);
    lemma_fundamental_div_mod_converse(magnitude(b) + total_bias, d, q, total_bias);
}

/// Numbers below one half give zero.
proof fn lemma_quotient_of_tiny(b: u32, half: bool)
    requires
        exponent(b) < 126,
    ensures
        ({
            let total_bias = if half {
                pow2(148) as int
            } else {
                0
            };
            (magnitude(b) + total_bias) / (pow2(149) as int) == 0
        }),
{
    let total_bias = if half {
        pow2(148) as int
    } else {
        0
    };
    let k = (if exponent(b) == 0 {
        0
    } else {
        exponent(b) - 1
    }) as nat;
    lemma2_to64();
    lemma_pow2_pos(k);
    lemma_pow2_pos(148);
    lemma_pow2_pos((124 - k) as nat);
    lemma_pow2_adds(k, (124 - k) as nat);
    lemma_pow2_adds(24, 124);
    lemma_pow2_adds(1, 148);
    lemma_mul_inequality(1, pow2((124 - k) as nat) as int, pow2(k) as int);
    lemma_mul_is_commutative(pow2(k) as int, pow2((124 - k) as nat) as int);
    lemma_mul_strict_inequality(significand(b), 0x100_0000, pow2(k) as int);
    lemma_mul_inequality(pow2(k) as int, pow2(124) as int, 0x100_0000);
    lemma_mul_inequality(0, significand(b), pow2(k) as int);
    assert(0 <= magnitude(b) < pow2(148));
    lemma_fundamental_div_mod_converse(
        magnitude(b) + total_bias,
        pow2(149) as int,
        0,
        magnitude(b) + total_bias,
    );
}

/// The absolute value as an integer, rounded to the nearest or cut off;
/// `None` when it does not fit in thirty-one bits.
fn integer_magnitude(b: u32, half: bool) -> (r: Option<u32>)
    requires
        !not_a_number(b),
    ensures
        ({
            let n = (magnitude(b) + (if half {
                pow2(148) as int
            } else {
                0
            })) / (pow2(149) as int);
            match r {
                Some(m) => m == n && n < 0x8000_0000,
                None => n >= 0x8000_0000,
            }
        }),
{
    let m: u32 = b % 0x8000_0000;
    let e: u32 = m / 0x80_0000;
    let f: u32 = b % 0x80_0000;
    proof {
        lemma2_to64();
    }
    if e < 126 {
        proof {
            lemma_quotient_of_tiny(b, half);
        }
        return Some(0);
    }
    let sig: u32 = f + 0x80_0000;
    if e < 150 {
        let s: u32 = 150 - e;
        proof {
            lemma_quotient_of_small(b, half);
            lemma_u32_shr_is_div(sig, s);
            lemma_pow2_pos((s - 1) as nat);
            lemma_pow2_pos(s as nat);
            lemma_pow2_adds((s - 1) as nat, (24 - s) as nat);
            lemma_pow2_pos((24 - s) as nat);
            lemma_mul_inequality(1, pow2((24 - s) as nat) as int, pow2((s - 1) as nat) as int);
            lemma_mul_is_commutative(
                pow2((s - 1) as nat) as int,
                pow2((24 - s) as nat) as int,
            );
            assert(pow2((s - 1) as nat) <= 0x80_0000);
        }
        let n: u32 = if half {
            proof {
                lemma_u32_shl_is_mul(1, (s - 1) as u32);
            }
            let bias: u32 = 1u32 << (s - 1);
            proof {
                lemma_u32_shr_is_div((sig + bias) as u32, s);
            }
            (sig + bias) >> s
        } else {
            sig >> s
        };
        proof {
            let top = sig + pow2((s - 1) as nat);
            assert(top / (pow2(s as nat) as int) <= top) by {
                lemma_div_is_ordered_by_denominator(
                    top as int,
                    1,
                    pow2(s as nat) as int,
                );
            }
            assert(sig as int / (pow2(s as nat) as int) <= sig) by {
                lemma_div_is_ordered_by_denominator(
                    sig as int,
                    1,
                    pow2(s as nat) as int,
                );
            }
        }
        return Some(n);
    }
    proof {
        lemma_quotient_of_large(b, half);
    }
    if e < 158 {
        let s: u32 = e - 150;
        proof {
            lemma_pow2_pos(s as nat);
            lemma_pow2_adds(s as nat, (7 - s) as nat);
            lemma_pow2_pos((7 - s) as nat);
            lemma_mul_inequality(1, pow2((7 - s) as nat) as int, pow2(s as nat) as int);
            lemma_mul_is_commutative(pow2(s as nat) as int, pow2((7 - s) as nat) as int);
            assert(pow2(s as nat) <= 128);
            lemma_mul_strict_inequality(sig as int, 0x100_0000, pow2(s as nat) as int);
            lemma_u32_shl_is_mul(sig, s);
        }
        return Some(sig << s);
    }
    proof {
        let k = (e - 150) as nat;
        lemma_pow2_adds(8, (k - 8) as nat);
        lemma_pow2_pos((k - 8) as nat);
        assert(pow2(k) >= 256);
        lemma_mul_inequality(0x80_0000, sig as int, pow2(k) as int);
    }
    None
}

/// The nearest integer (halves away from zero), brought into the range of
/// `i32`; zero when there is no number.
pub fn round_to_i32(b: u32) -> (r: i32)
    ensures
        r == rounded(b),
{
    if is_nan(b) {
        return 0;
    }
    match integer_magnitude(b, true) {
        Some(m) => {
            if b >= 0x8000_0000 {
                -(m as i32)
            } else {
                m as i32
            }
        },
        None => {
            if b >= 0x8000_0000 {
                i32::MIN
            } else {
                i32::MAX
            }
        },
    }
}

/// The number with its fractional part dropped, brought into the range of
/// `i32`; zero when there is no number.
pub fn trunc_to_i32(b: u32) -> (r: i32)
    ensures
        r == truncated(b),
{
    if is_nan(b) {
        return 0;
    }
    match integer_magnitude(b, false) {
        Some(m) => {
            if b >= 0x8000_0000 {
                -(m as i32)
            } else {
                m as i32
            }
        },
        None => {
            if b >= 0x8000_0000 {
                i32::MIN
            } else {
                i32::MAX
            }
        },
    }
}

/// How far apart two integers are.
pub open spec fn apart(a: int, b: int) -> int {
    if a < b {
        b - a
    } else {
        a - b
    }
}

/// Whether `r` is a number that lies closest to `exact / parts`, in units of the
/// smallest positive number: what arithmetic on single-precision numbers gives
/// for an exact result. Which of two equally close numbers it is, and the sign
/// of a zero, are left open.
pub open spec fn closest(r: u32, exact: int, parts: int) -> bool {
    &&& !not_a_number(r)
    &&& forall|x: u32|
        !not_a_number(x) ==> apart(scaled(r) * parts, exact) <= apart(
            #[trigger] scaled(x) * parts,
            exact,
        )
}

/// Whether `r` is `a + b` as single-precision arithmetic has it.
pub open spec fn is_sum(a: u32, b: u32, r: u32) -> bool {
    closest(r, scaled(a) + scaled(b), 1)
}

/// Whether `r` is `a - b` as single-precision arithmetic has it.
pub open spec fn is_difference(a: u32, b: u32, r: u32) -> bool {
    closest(r, scaled(a) - scaled(b), 1)
}

/// Whether `r` is `a * b` as single-precision arithmetic has it.
pub open spec fn is_product(a: u32, b: u32, r: u32) -> bool {
    closest(r, scaled(a) * scaled(b), pow2(149) as int)
}

/// A number with the other sign.
pub open spec fn negated(b: u32) -> u32 {
    if negative(b) {
        (b - 0x8000_0000) as u32
    } else {
        (b + 0x8000_0000) as u32
    }
}

/// Changing the sign bit changes the sign and nothing else.
pub proof fn lemma_negated(b: u32)
    ensures
        scaled(negated(b)) == -scaled(b),
        not_a_number(negated(b)) == not_a_number(b),
{
    let n = negated(b);
    assert(n % 0x8000_0000 == b % 0x8000_0000);
    assert(n as int % 0x80_0000 == b as int % 0x80_0000);
}

/// One is 2 to the power of 149 units, and zero is none.
pub proof fn lemma_one_and_zero()
    ensures
        scaled(ONE) == pow2(149),
        scaled(ZERO) == 0,
        !not_a_number(ONE),
        !not_a_number(ZERO),
{
    lemma2_to64();
    lemma_pow2_adds(23, 126);
    assert(magnitude(ZERO) == 0) by {
        lemma_mul_is_commutative(0, pow2(0) as int);
    }
}

/// Rounding does not go past a number: where the exact result is at least, or at
/// most, a number, so is what is given for it.
pub proof fn lemma_closest_bounds(r: u32, exact: int, parts: int, x: u32)
    requires
        closest(r, exact, parts),
        parts > 0,
        !not_a_number(x),
    ensures
        scaled(x) * parts <= exact ==> scaled(x) <= scaled(r),
        exact <= scaled(x) * parts ==> scaled(r) <= scaled(x),
{
    assert(apart(scaled(r) * parts, exact) <= apart(scaled(x) * parts, exact));
    if scaled(r) < scaled(x) {
        lemma_mul_strict_inequality(scaled(r), scaled(x), parts);
    }
    if scaled(x) < scaled(r) {
        lemma_mul_strict_inequality(scaled(x), scaled(r), parts);
    }
}

/// A product with a number from zero to one lies between zero and the other
/// factor.
pub proof fn lemma_part_of(part: u32, b: u32, r: u32)
    requires
        !not_a_number(b),
        0 <= scaled(part) <= scaled(ONE),
        is_product(part, b, r),
    ensures
        0 <= scaled(b) ==> 0 <= scaled(r) <= scaled(b),
        scaled(b) <= 0 ==> scaled(b) <= scaled(r) <= 0,
{
    let one = pow2(149) as int;
    lemma_one_and_zero();
    lemma_pow2_pos(149);
    let exact = scaled(part) * scaled(b);
    lemma_mul_is_commutative(scaled(b), one);
    if 0 <= scaled(b) {
        lemma_mul_inequality(0, scaled(part), scaled(b));
        lemma_mul_inequality(scaled(part), one, scaled(b));
    } else {
        lemma_mul_inequality(0, scaled(part), -scaled(b));
        lemma_mul_inequality(scaled(part), one, -scaled(b));
        assert(scaled(part) * -scaled(b) == -exact) by (nonlinear_arith)
            requires
                exact == scaled(part) * scaled(b),
        ;
        assert(one * -scaled(b) == -(one * scaled(b))) by (nonlinear_arith);
    }
    assert(scaled(ZERO) * one == 0) by (nonlinear_arith)
        requires
            scaled(ZERO) == 0,
    ;
    lemma_closest_bounds(r, exact, one, ZERO);
    lemma_closest_bounds(r, exact, one, b);
}

/// Every integer below 2 to the power of 24, times a power of two that is not too
/// large, is a number.
proof fn lemma_number_of(n: int, k: nat) -> (b: u32)
    requires
        0 < n < 0x100_0000,
        k <= 252,
    ensures
        !not_a_number(b),
        scaled(b) == n * pow2(k),
    decreases k,
{
    lemma2_to64();
    if n >= 0x80_0000 {
        let b = ((k + 1) * 0x80_0000 + (n - 0x80_0000)) as u32;
        assert(b as int == (k + 1) * 0x80_0000 + (n - 0x80_0000));
        lemma_fundamental_div_mod_converse(b as int, 0x80_0000, (k + 1) as int, n - 0x80_0000);
        assert(b % 0x8000_0000 == b);
        b
    } else if k == 0 {
        let b = n as u32;
        assert(exponent(b) == 0);
        b
    } else {
        lemma_pow2_adds(1, (k - 1) as nat);
        assert((2 * n) * pow2((k - 1) as nat) == n * (2 * pow2((k - 1) as nat))) by (
        nonlinear_arith);
        lemma_number_of(2 * n, (k - 1) as nat)
    }
}

/// A number from zero to one, and what is added to it to come to another such
/// number, do not add up to more than one, though both were rounded.
pub proof fn lemma_sum_up_to_one(v: u32, s: u32, d: u32, p: u32, r: u32)
    requires
        !not_a_number(v),
        !not_a_number(p),
        0 <= scaled(v) <= scaled(ONE),
        scaled(s) <= scaled(ONE),
        is_difference(s, v, d),
        scaled(p) <= 0 || scaled(p) <= scaled(d),
        is_sum(v, p, r),
    ensures
        scaled(r) <= scaled(ONE),
{
    lemma_one_and_zero();
    let e = scaled(v) + scaled(p);
    lemma_closest_bounds(r, e, 1, ONE);
    if e > scaled(ONE) {
        // What is missing to one, rounded up to whole units of half the distance
        // from one to the next number.
        let u = pow2(125) as int;
        let missing = scaled(ONE) - scaled(v);
        let n = (missing + u - 1) / u;
        lemma_pow2_pos(125);
        lemma2_to64();
        lemma_pow2_adds(24, 125);
        lemma_fundamental_div_mod(missing + u - 1, u);
        lemma_mul_is_commutative(u, n);
        assert(missing <= n * u < missing + u);
        assert(0 <= n <= 0x100_0000) by (nonlinear_arith)
            requires
                0 <= missing <= 0x100_0000 * u,
                missing <= n * u < missing + u,
                0 < u,
        ;
        let x = if n == 0 {
            ZERO
        } else if n == 0x100_0000 {
            ONE
        } else {
            lemma_number_of(n, 125)
        };
        assert(scaled(x) == n * u) by {
            if n == 0 {
                assert(n * u == 0) by (nonlinear_arith)
                    requires
                        n == 0,
                ;
            }
        }
        lemma_closest_bounds(d, scaled(s) - scaled(v), 1, x);
        assert(e < scaled(ONE) + u);
        let next = 0x3f80_0001u32;
        assert(scaled(next) == scaled(ONE) + 2 * u) by {
            lemma_pow2_adds(23, 126);
            lemma_pow2_adds(1, 125);
            assert(magnitude(next) == 0x80_0001 * pow2(126));
            assert(0x80_0001 * pow2(126) == 0x80_0000 * pow2(126) + pow2(126)) by (
            nonlinear_arith);
        }
        if scaled(r) > scaled(ONE) {
            lemma_magnitude_order(ONE, r);
            lemma_magnitude_order(r, next);
            assert(scaled(r) >= scaled(next));
            assert(apart(scaled(r) * 1, e) <= apart(scaled(ONE) * 1, e));
        }
    }
}

/// A switch is on exactly when its number is above one half.
pub proof fn lemma_on(b: u32)
    ensures
        on(b) <==> !not_a_number(b) && 2 * scaled(b) > pow2(149),
{
    lemma2_to64();
    lemma_pow2_adds(23, 125);
    lemma_pow2_adds(1, 148);
    assert(scaled(HALF) == pow2(148));
}

/// Rounding gives the integer that lies closest, and of two that lie equally
/// close the one further from zero, as far as an `i32` reaches; what is not a
/// number gives zero.
pub proof fn lemma_rounded_is_closest(b: u32)
    ensures
        not_a_number(b) ==> rounded(b) == 0,
        i32::MIN <= rounded(b) <= i32::MAX,
        ({
            let one = pow2(149) as int;
            let n = rounded(b);
            let off = apart(n * one, scaled(b));
            !not_a_number(b) ==> {
                &&& i32::MIN < n < i32::MAX ==> 2 * off <= one
                &&& i32::MIN < n < i32::MAX && 2 * off == one ==> apart(n * one, 0) > apart(
                    scaled(b),
                    0,
                )
                &&& n == i32::MAX ==> (2 * n - 1) * one <= 2 * scaled(b)
                &&& n == i32::MIN ==> 2 * scaled(b) <= (2 * n + 1) * one
            }
        }),
{
    let one = pow2(149) as int;
    let half = pow2(148) as int;
    let m = magnitude(b);
    lemma_pow2_adds(1, 148);
    lemma2_to64();
    lemma_pow2_pos(148);
    lemma_magnitude_order(ZERO, b);
    lemma_one_and_zero();
    let q = (m + half) / one;
    lemma_fundamental_div_mod(m + half, one);
    lemma_mul_is_commutative(one, q);
    assert(q >= 0) by (nonlinear_arith)
        requires
            0 <= m + half,
            m + half < q * one + one,
            0 < one,
    ;
    assert(-q * one == -(q * one)) by (nonlinear_arith);
    let n = rounded(b);
    if !not_a_number(b) && n == i32::MAX {
        lemma_mul_inequality(n, q, one);
        assert((2 * n - 1) * one == 2 * (n * one) - one) by (nonlinear_arith);
    }
    if !not_a_number(b) && n == i32::MIN {
        lemma_mul_inequality(-n, q, one);
        assert(-n * one == -(n * one)) by (nonlinear_arith);
        assert((2 * n + 1) * one == 2 * (n * one) + one) by (nonlinear_arith);
    }
}

/// Dropping the fractional part gives the integer next to the number towards
/// zero, as far as an `i32` reaches; what is not a number gives zero.
pub proof fn lemma_truncated_towards_zero(b: u32)
    ensures
        not_a_number(b) ==> truncated(b) == 0,
        ({
            let one = pow2(149) as int;
            let n = truncated(b);
            !not_a_number(b) && i32::MIN < n < i32::MAX ==> {
                &&& 0 <= scaled(b) ==> n * one <= scaled(b) < (n + 1) * one
                &&& scaled(b) <= 0 ==> (n - 1) * one < scaled(b) <= n * one
            }
        }),
        !not_a_number(b) && truncated(b) == i32::MAX ==> i32::MAX * pow2(149) <= scaled(b),
        !not_a_number(b) && truncated(b) == i32::MIN ==> scaled(b) <= i32::MIN * pow2(149),
{
    let one = pow2(149) as int;
    let m = magnitude(b);
    lemma2_to64();
    lemma_pow2_pos(149);
    lemma_magnitude_order(ZERO, b);
    lemma_one_and_zero();
    let q = m / one;
    let n = truncated(b);
    lemma_fundamental_div_mod(m, one);
    lemma_mul_is_commutative(one, q);
    assert(q >= 0) by (nonlinear_arith)
        requires
            0 <= m,
            m < q * one + one,
            0 < one,
    ;
    assert((n + 1) * one == n * one + one) by (nonlinear_arith);
    assert((n - 1) * one == n * one - one) by (nonlinear_arith);
    assert(-q * one == -(q * one)) by (nonlinear_arith);
    if !not_a_number(b) && n == i32::MAX {
        lemma_mul_inequality(n, q, one);
    }
    if !not_a_number(b) && n == i32::MIN {
        lemma_mul_inequality(-n, q, one);
        assert(-n * one == -(n * one)) by (nonlinear_arith);
    }
    if m == 0 {
        assert(q == 0) by (nonlinear_arith)
            requires
                q * one <= 0,
                0 <= q,
                0 < one,
        ;
    }
}

} // verus!
