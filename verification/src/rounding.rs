//! Decimal fractions rounded to double precision, subnormal values as well.
use vstd::arithmetic::div_mod::{
    lemma_fundamental_div_mod, lemma_fundamental_div_mod_converse,
};
use vstd::arithmetic::mul::lemma_mul_strictly_positive;
use vstd::arithmetic::power2::{
    lemma2_to64, lemma2_to64_rest, lemma_pow2_adds, lemma_pow2_pos, lemma_pow2_strictly_increases,
    pow2,
};
use vstd::prelude::*;

use crate::binary64::{
    half_even, has_unit, integer, lemma_common_factor, lemma_half_even_rises,
    lemma_half_even_scales, lemma_nearest_at_least, lemma_nearest_bounded, lemma_nearest_exact,
    lemma_nearest_rises, lemma_nearest_scales, lemma_nearest_value, lemma_nearest_within,
    lemma_reduced, lemma_scale_adds, lemma_unit_exists, nearest, round, scale, Binary64,
};
use crate::decimal::{
    all_digits, high_part, lemma_pow10_adds, lemma_pow10_factors, lemma_pow10_monotone,
    lemma_pow10_positive, lemma_pow2_monotone, lemma_value_bound, lemma_value_splits,
    low_part_is_nonzero, lowered, pow10, pow5, shift_left, times_fives, value,
};

verus! {

/// `num / den` as double precision holds it, where it is not too large: the
/// nearest value of 53 bits, or, below `2^-1022`, the nearest multiple of
/// `2^-1074`. Ties go to the even neighbour.
pub open spec fn as_double(num: nat, den: nat) -> Binary64 {
    if num * pow2(1022) < den {
        nearest(half_even(num * pow2(1074), den), pow2(1074))
    } else {
        nearest(num, den)
    }
}

/// The integer part of `digits / 10^places * 2^s` where it stays below
/// `2^124`, and whether anything stands behind it.
pub(crate) fn scaled(digits: Vec<u8>, places: u128, s: u32) -> (r: (Option<u128>, bool))
    requires
        all_digits(digits@),
    ensures
        ({
            let n = value(digits@) * pow2(s as nat);
            let den = pow10(places as nat);
            &&& r.0 is Some <==> n / den < 0x1000_0000_0000_0000_0000_0000_0000_0000
            &&& r.0 is Some ==> r.0->0 == n / den
            &&& r.1 == (n % den != 0)
        }),
{
    let mut wide: Vec<u8> = digits;
    shift_left(&mut wide, s);
    proof {
        lemma_pow10_positive(places as nat);
    }
    if places >= wide.len() as u128 {
        proof {
            lemma_value_bound(wide@);
            lemma_pow10_monotone(wide@.len(), places as nat);
            lemma_fundamental_div_mod_converse(
                value(wide@) as int,
                pow10(places as nat) as int,
                0,
                value(wide@) as int,
            );
            assert(wide@.take(wide@.len() as int) =~= wide@);
        }
        let rest: bool = low_part_is_nonzero(&wide, wide.len());
        (Some(0), rest)
    } else {
        let places: usize = places as usize;
        proof {
            lemma_value_splits(wide@, places as nat);
        }
        (
            high_part(&wide, places, 0x1000_0000_0000_0000_0000_0000_0000_0000),
            low_part_is_nonzero(&wide, places),
        )
    }
}

/// A finite value that does not vanish lies in some binade.
pub proof fn lemma_has_unit(num: nat, den: nat)
    requires
        den > 0,
        den <= num * pow2(1075),
    ensures
        exists|k: int| has_unit(num, den, k),
{
    let k: int = -1127;
    lemma_scale_adds(k, 1127);
    lemma_pow2_adds(52, 1075);
    let c = scale(k);
    let p = pow2(52);
    let v = pow2(1075);
    assert(p * (den * c) <= num * scale(0)) by (nonlinear_arith)
        requires
            den <= num * v,
            scale(0) == c * (p * v),
            c >= 0,
            p >= 0,
    ;
    lemma_unit_exists(num, den, k);
}

/// A subnormal value is at most `2^52` units of `2^-1074`, and at least one
/// unless it vanishes.
proof fn lemma_subnormal_units(num: nat, den: nat)
    requires
        den > 0,
        num * pow2(1022) < den,
    ensures
        half_even(num * pow2(1074), den) <= pow2(52),
        half_even(num * pow2(1074), den) > 0 <==> den < num * pow2(1075),
{
    let n = num * pow2(1074);
    let q = n / den;
    let r = n % den;
    lemma_pow2_adds(52, 1022);
    lemma_pow2_adds(1, 1074);
    lemma2_to64();
    lemma2_to64_rest();
    lemma_fundamental_div_mod(n as int, den as int);
    let low = pow2(1022);
    let p = pow2(52);
    assert(n < p * den) by (nonlinear_arith)
        requires
            n == num * (p * low),
            num * low < den,
            p > 0,
    ;
    assert(q < p) by (nonlinear_arith)
        requires
            n < p * den,
            n == den * q + r,
            r >= 0,
            den > 0,
    ;
    assert(num * pow2(1075) == 2 * n) by (nonlinear_arith)
        requires
            n == num * pow2(1074),
            pow2(1075) == 2 * pow2(1074),
    ;
    if q == 0 {
        assert(den * q == 0) by (nonlinear_arith)
            requires
                q == 0,
        ;
    } else {
        assert(den * q >= den) by (nonlinear_arith)
            requires
                q >= 1,
                den > 0,
        ;
    }
}

/// Rounding to double precision does not pass a power of two, from below.
pub proof fn lemma_double_bounded(num: nat, den: nat, e: int)
    requires
        den > 0,
        -1022 <= e <= 6000,
        num * scale(0) <= den * scale(e),
        den <= num * pow2(1075),
    ensures
        as_double(num, den).num() <= scale(e),
{
    if num * pow2(1022) < den {
        let unit = pow2(1074);
        let m = half_even(num * unit, den);
        lemma_subnormal_units(num, den);
        lemma_scale_adds(-1074, 52);
        lemma_scale_adds(-1074, 1074);
        lemma_scale_adds(-1022, (e + 1022) as nat);
        lemma_pow2_pos((e + 1022) as nat);
        lemma_pow2_pos(1074);
        let a = scale(-1022);
        assert(a <= scale(e)) by (nonlinear_arith)
            requires
                scale(e) == a * pow2((e + 1022) as nat),
                pow2((e + 1022) as nat) >= 1,
                a >= 0,
        ;
        if m == 0 {
            assert(nearest(m, unit).num() == 0) by (nonlinear_arith)
                requires
                    nearest(m, unit).num() == 0 * scale(0),
            ;
        } else {
            let c = scale(-1074);
            let p = pow2(52);
            assert(m * scale(0) <= 1 * (unit * scale(-1022))) by (nonlinear_arith)
                requires
                    scale(0) == c * unit,
                    scale(-1022) == c * p,
                    m <= p,
                    c >= 0,
                    unit >= 0,
            ;
            lemma_pow2_adds(1074, 1);
            lemma2_to64();
            assert(unit <= m * pow2(1075)) by (nonlinear_arith)
                requires
                    pow2(1075) == unit * 2,
                    m >= 1,
                    unit > 0,
            ;
            lemma_has_unit(m, unit);
            lemma_nearest_bounded(m, unit, 1, -1022);
        }
    } else {
        lemma_has_unit(num, den);
        assert(num * scale(0) <= 1 * (den * scale(e)));
        lemma_nearest_bounded(num, den, 1, e);
    }
}

/// Rounding to double precision does not pass a power of two, from above.
pub proof fn lemma_double_at_least(num: nat, den: nat, e: int)
    requires
        den > 0,
        -1074 <= e,
        den * scale(e) <= num * scale(0),
        num < den * pow2(2000),
    ensures
        as_double(num, den).num() >= scale(e),
{
    lemma_scale_adds(-1074, (e + 1074) as nat);
    lemma_scale_adds(-1074, 1074);
    lemma_pow2_pos((e + 1074) as nat);
    lemma_pow2_pos(1074);
    lemma_pow2_adds(1074, 1);
    lemma2_to64();
    let c = scale(-1074);
    let f = pow2((e + 1074) as nat);
    let unit = pow2(1074);
    assert(den * f <= num * unit) by (nonlinear_arith)
        requires
            den * (c * f) <= num * (c * unit),
            c > 0,
    ;
    assert(den <= num * pow2(1075)) by (nonlinear_arith)
        requires
            den * f <= num * unit,
            f >= 1,
            pow2(1075) == unit * 2,
            den > 0,
            num >= 0,
            unit > 0,
    ;
    if num * pow2(1022) < den {
        let n = num * unit;
        let m = half_even(n, den);
        lemma_subnormal_units(num, den);
        lemma_fundamental_div_mod(n as int, den as int);
        let q = n / den;
        assert(q >= f) by (nonlinear_arith)
            requires
                den * f <= n,
                n == den * q + n % den,
                n % den < den,
                den > 0,
        ;
        assert(unit * scale(e) <= m * scale(0)) by (nonlinear_arith)
            requires
                scale(e) == c * f,
                scale(0) == c * unit,
                m >= f,
                c >= 0,
                unit >= 0,
        ;
        assert(unit <= m * pow2(1075)) by (nonlinear_arith)
            requires
                pow2(1075) == unit * 2,
                m >= 1,
                unit > 0,
        ;
        lemma_has_unit(m, unit);
        lemma_pow2_monotone(52, 2000);
        lemma2_to64_rest();
        lemma_pow2_strictly_increases(52, 2000);
        assert(m < unit * pow2(2000)) by (nonlinear_arith)
            requires
                m <= pow2(52),
                pow2(52) < pow2(2000),
                unit >= 1,
        ;
        lemma_nearest_at_least(m, unit, e, 2000);
    } else {
        lemma_has_unit(num, den);
        lemma_nearest_at_least(num, den, e, 2000);
    }
}

/// What does not vanish is at least the least subnormal value.
pub proof fn lemma_double_positive(num: nat, den: nat)
    requires
        den > 0,
        den < num * pow2(1075),
        num < den * pow2(1024),
    ensures
        as_double(num, den).num() >= scale(-1074),
{
    let unit = pow2(1074);
    let c = scale(-1074);
    lemma_scale_adds(-1074, 1074);
    lemma_scale_adds(-1022, 1022);
    lemma_scale_adds(-1074, 52);
    lemma_pow2_pos(1074);
    lemma2_to64();
    lemma2_to64_rest();
    if num * pow2(1022) < den {
        let m = half_even(num * unit, den);
        lemma_subnormal_units(num, den);
        assert(unit * c <= m * scale(0)) by (nonlinear_arith)
            requires
                scale(0) == c * unit,
                m >= 1,
                c >= 0,
                unit >= 0,
        ;
        lemma_pow2_adds(1074, 1);
        assert(unit <= m * pow2(1075)) by (nonlinear_arith)
            requires
                pow2(1075) == unit * 2,
                m >= 1,
                unit > 0,
        ;
        lemma_has_unit(m, unit);
        lemma_pow2_strictly_increases(52, 1500);
        assert(m < unit * pow2(1500)) by (nonlinear_arith)
            requires
                m <= pow2(52),
                pow2(52) < pow2(1500),
                unit >= 1,
        ;
        lemma_nearest_at_least(m, unit, -1074, 1500);
    } else {
        let a = scale(-1022);
        assert(den * a <= num * scale(0)) by (nonlinear_arith)
            requires
                den <= num * pow2(1022),
                scale(0) == a * pow2(1022),
                a >= 0,
        ;
        lemma_has_unit(num, den);
        lemma_nearest_at_least(num, den, -1022, 1024);
        assert(a >= c) by (nonlinear_arith)
            requires
                a == c * pow2(52),
                pow2(52) >= 1,
                c >= 0,
        ;
    }
}

/// What vanishes is zero.
pub proof fn lemma_double_vanishes(num: nat, den: nat)
    requires
        den > 0,
        num * pow2(1075) <= den,
    ensures
        as_double(num, den) == integer(0),
{
    lemma_pow2_strictly_increases(1022, 1075);
    assert(num * pow2(1022) < den) by (nonlinear_arith)
        requires
            num * pow2(1075) <= den,
            pow2(1022) < pow2(1075),
            num >= 0,
            den > 0,
    ;
    lemma_subnormal_units(num, den);
}

/// Whether `x` is a positive double-precision value.
pub open spec fn is_double(x: Binary64) -> bool {
    &&& x.within(1127)
    &&& x.mantissa > 0
    &&& x.num() < (pow2(1024) - pow2(970)) * x.den()
    &&& x.num() * pow2(1022) < x.den() ==> exists|u: nat| #[trigger] has_units(x, u)
}

/// Whether `x` is `u` times `2^-1074`.
pub open spec fn has_units(x: Binary64, u: nat) -> bool {
    x.num() == u * scale(-1074)
}

/// A whole number of units is a value of at most 53 bits, and stays what it
/// is.
proof fn lemma_units_are_exact(u: nat)
    requires
        0 < u <= pow2(52),
    ensures
        ({
            let x = nearest(u, pow2(1074));
            &&& has_units(x, u)
            &&& x.within(1127)
            &&& x.mantissa > 0
        }),
{
    let unit = pow2(1074);
    let c = scale(-1074);
    let x = nearest(u, unit);
    lemma_pow2_pos(1074);
    lemma_scale_adds(-1074, 1074);
    lemma_scale_adds(-1074, 53);
    lemma2_to64();
    lemma2_to64_rest();
    lemma_pow2_adds(1074, 1);
    assert(unit <= u * pow2(1075)) by (nonlinear_arith)
        requires
            pow2(1075) == unit * 2,
            u >= 1,
            unit > 0,
    ;
    lemma_has_unit(u, unit);
    let n = u * scale(0);
    assert(unit * c <= n && n < unit * scale(-1021)) by (nonlinear_arith)
        requires
            n == u * (c * unit),
            scale(-1021) == c * pow2(53),
            1 <= u < pow2(53),
            c > 0,
            unit > 0,
    ;
    lemma_nearest_within(u, unit, -1074, -1021);
    let k = choose|k: int| has_unit(u, unit, k);
    if k > -1074 {
        lemma_scale_adds(-1074, (k + 1074) as nat);
        lemma_pow2_pos((k + 1073) as nat);
        lemma_pow2_adds((k + 1073) as nat, 1);
        let p = pow2((k + 1074) as nat);
        assert(false) by (nonlinear_arith)
            requires
                pow2(52) * (unit * scale(k)) <= n,
                scale(k) == c * p,
                p >= 2,
                n == u * (c * unit),
                u <= pow2(52),
                c > 0,
                unit > 0,
                pow2(52) > 0,
        ;
    }
    let s = (-1074 - k) as nat;
    let p = pow2(s);
    let d = unit * scale(k);
    lemma_scale_adds(k, s);
    assert(d > 0) by (nonlinear_arith)
        requires
            d == unit * scale(k),
            unit > 0,
            scale(k) > 0,
    ;
    assert(n == (u * p) * d) by (nonlinear_arith)
        requires
            n == u * (c * unit),
            c == scale(k) * p,
            d == unit * scale(k),
    ;
    lemma_fundamental_div_mod_converse(n as int, d as int, (u * p) as int, 0);
    lemma_nearest_value(u, unit, k);
    assert((u * p) * scale(k) == u * c) by (nonlinear_arith)
        requires
            c == scale(k) * p,
    ;
}

/// Rounding stays below the ceiling of double precision.
proof fn lemma_nearest_below_ceiling(num: nat, den: nat)
    requires
        den > 0,
        num < (pow2(1024) - pow2(970)) * den,
        exists|k: int| has_unit(num, den, k),
    ensures
        nearest(num, den).num() < (pow2(1024) - pow2(970)) * scale(0),
{
    let k = choose|k: int| has_unit(num, den, k);
    let s0 = scale(0);
    let n = num * s0;
    let w = pow2(970);
    let f = scale(970);
    lemma2_to64();
    lemma2_to64_rest();
    lemma_pow2_adds(54, 970);
    lemma_pow2_pos(970);
    lemma_scale_adds(0, 970);
    lemma_scale_adds(970, 1);
    lemma_scale_adds(k, 0);
    let t = pow2(1024) - w;
    assert(pow2(1024) == 0x40_0000_0000_0000 * w);
    assert(t == 0x3f_ffff_ffff_ffff * w) by (nonlinear_arith)
        requires
            t == 0x40_0000_0000_0000 * w - w,
    ;
    assert(t * s0 == 0x3f_ffff_ffff_ffff * f) by (nonlinear_arith)
        requires
            t == 0x3f_ffff_ffff_ffff * w,
            f == s0 * w,
    ;
    let b = den * f;
    assert(b > 0) by (nonlinear_arith)
        requires
            b == den * f,
            den > 0,
            f > 0,
    ;
    assert(n < 0x3f_ffff_ffff_ffff * b) by (nonlinear_arith)
        requires
            n == num * s0,
            num < t * den,
            t * s0 == 0x3f_ffff_ffff_ffff * f,
            b == den * f,
            s0 > 0,
    ;
    if num == 0 {
        assert(nearest(num, den).num() == 0) by (nonlinear_arith)
            requires
                nearest(num, den).num() == 0 * scale(0),
        ;
        return ;
    }
    if k >= 972 {
        lemma_scale_adds(970, (k - 970) as nat);
        lemma_pow2_monotone(2, (k - 970) as nat);
        let p = pow2((k - 970) as nat);
        assert(false) by (nonlinear_arith)
            requires
                pow2(52) * (den * scale(k)) <= n,
                scale(k) == f * p,
                p >= 4,
                pow2(52) == 0x10_0000_0000_0000,
                n < 0x3f_ffff_ffff_ffff * b,
                b == den * f,
                b > 0,
        ;
    }
    lemma_nearest_value(num, den, k);
    let d = den * scale(k);
    let h = half_even(n, d);
    if k == 971 {
        assert(d == 2 * b) by (nonlinear_arith)
            requires
                d == den * (f * 2),
                b == den * f,
        ;
        lemma_fundamental_div_mod(n as int, d as int);
        let q = n / d;
        let r = n % d;
        assert(q <= 0x1f_ffff_ffff_ffff) by (nonlinear_arith)
            requires
                n == (2 * b) * q + r,
                r >= 0,
                n < 0x3f_ffff_ffff_ffff * b,
                b > 0,
        ;
        if q == 0x1f_ffff_ffff_ffff {
            assert(r < b) by (nonlinear_arith)
                requires
                    n == (2 * b) * q + r,
                    q == 0x1f_ffff_ffff_ffff,
                    n < 0x3f_ffff_ffff_ffff * b,
                    b > 0,
            ;
        }
        assert(h <= 0x1f_ffff_ffff_ffff);
        assert(h * scale(k) < 0x3f_ffff_ffff_ffff * f) by (nonlinear_arith)
            requires
                h <= 0x1f_ffff_ffff_ffff,
                scale(k) == f * 2,
                f > 0,
        ;
    } else {
        lemma_scale_adds(k, (970 - k) as nat);
        lemma_pow2_pos((970 - k) as nat);
        let p = pow2((970 - k) as nat);
        assert(scale(k) <= f) by (nonlinear_arith)
            requires
                f == scale(k) * p,
                p >= 1,
                scale(k) > 0,
        ;
        assert(h * scale(k) < 0x3f_ffff_ffff_ffff * f) by (nonlinear_arith)
            requires
                h <= 0x20_0000_0000_0000,
                scale(k) <= f,
                f > 0,
        ;
    }
}

/// What a fraction is rounded to is a double-precision value.
pub proof fn lemma_double_is_double(num: nat, den: nat)
    requires
        den > 0,
        den < num * pow2(1075),
        num < (pow2(1024) - pow2(970)) * den,
    ensures
        is_double(as_double(num, den)),
{
    let x = as_double(num, den);
    let s0 = scale(0);
    lemma_scale_adds(0, 1024);
    lemma_scale_adds(-1022, 1022);
    lemma_pow2_pos(970);
    lemma_pow2_pos(1022);
    lemma2_to64();
    lemma2_to64_rest();
    let t = pow2(1024) - pow2(970);
    if num * pow2(1022) < den {
        let u = half_even(num * pow2(1074), den);
        lemma_subnormal_units(num, den);
        lemma_units_are_exact(u);
        assert(has_units(x, u));
        lemma_scale_adds(-1074, 52);
        lemma_pow2_monotone(971, 1024);
        lemma_pow2_adds(970, 1);
        let c = scale(-1074);
        assert(x.num() <= scale(-1022)) by (nonlinear_arith)
            requires
                x.num() == u * c,
                scale(-1022) == c * pow2(52),
                u <= pow2(52),
                c > 0,
        ;
        assert(scale(-1022) <= s0) by (nonlinear_arith)
            requires
                s0 == scale(-1022) * pow2(1022),
                pow2(1022) >= 1,
                scale(-1022) > 0,
        ;
        lemma_pow2_monotone(1, 970);
        assert(t >= 2);
        assert(t * s0 > s0) by (nonlinear_arith)
            requires
                t >= 2,
                s0 > 0,
        ;
    } else {
        let a = scale(-1022);
        let n = num * s0;
        lemma_has_unit(num, den);
        assert(den * a <= n) by (nonlinear_arith)
            requires
                den <= num * pow2(1022),
                n == num * (a * pow2(1022)),
                a > 0,
        ;
        assert(n < den * scale(1024)) by (nonlinear_arith)
            requires
                num < t * den,
                t < pow2(1024),
                n == num * s0,
                scale(1024) == s0 * pow2(1024),
                s0 > 0,
                den > 0,
        ;
        assert(num < den * pow2(1024)) by (nonlinear_arith)
            requires
                num < t * den,
                t < pow2(1024),
                den > 0,
        ;
        lemma_nearest_within(num, den, -1022, 1024);
        lemma_nearest_at_least(num, den, -1022, 1024);
        lemma_nearest_below_ceiling(num, den);
        assert(x.num() * pow2(1022) >= s0) by (nonlinear_arith)
            requires
                x.num() >= a,
                s0 == a * pow2(1022),
                pow2(1022) >= 1,
        ;
    }
}

/// A double-precision value is its own rounding, however it is written.
pub proof fn lemma_double_exact(num: nat, den: nat, x: Binary64)
    requires
        is_double(x),
        den > 0,
        num * x.den() == x.num() * den,
    ensures
        as_double(num, den) == x,
{
    let s0 = scale(0);
    let w = pow2(1022);
    let a = x.num();
    lemma_scale_adds(0, 0);
    assert(num * w < den <==> a * w < s0) by (nonlinear_arith)
        requires
            num * s0 == a * den,
            s0 > 0,
            den > 0,
            w >= 0,
    ;
    if a * w < s0 {
        let u = choose|u: nat| #[trigger] has_units(x, u);
        let c = scale(-1074);
        let unit = pow2(1074);
        lemma_scale_adds(-1074, 1074);
        lemma_pow2_pos(1074);
        let n = num * unit;
        assert(n == u * den) by (nonlinear_arith)
            requires
                num * (c * unit) == (u * c) * den,
                n == num * unit,
                c > 0,
        ;
        lemma_fundamental_div_mod_converse(n as int, den as int, u as int, 0);
        assert(half_even(n, den) == u);
        assert(u * s0 == a * unit) by (nonlinear_arith)
            requires
                s0 == c * unit,
                a == u * c,
        ;
        lemma_nearest_exact(u, unit, x);
    } else {
        lemma_nearest_exact(num, den, x);
    }
}

/// The rounding does not depend on how the fraction is written.
pub proof fn lemma_double_scales(num: nat, den: nat, c: nat)
    requires
        den > 0,
        c > 0,
    ensures
        as_double(num * c, den * c) == as_double(num, den),
{
    let w = pow2(1022);
    let unit = pow2(1074);
    assert((num * c) * w < den * c <==> num * w < den) by (nonlinear_arith)
        requires
            c > 0,
    ;
    if num * w < den {
        assert((num * c) * unit == (num * unit) * c) by (nonlinear_arith);
        lemma_half_even_scales(num * unit, den, c);
    } else {
        lemma_pow2_adds(1022, 53);
        lemma2_to64_rest();
        assert(den <= num * pow2(1075)) by (nonlinear_arith)
            requires
                den <= num * w,
                pow2(1075) == w * 0x20_0000_0000_0000,
                num >= 0,
                w >= 0,
        ;
        lemma_has_unit(num, den);
        lemma_nearest_scales(num, den, c);
    }
}

/// Rounding to double precision keeps the order of values.
pub proof fn lemma_double_rises(low: nat, high: nat, den: nat)
    requires
        den > 0,
        low <= high,
        high < den * pow2(2000),
    ensures
        as_double(low, den).num() <= as_double(high, den).num(),
{
    let w = pow2(1022);
    let unit = pow2(1074);
    let v = pow2(1075);
    lemma_pow2_pos(1074);
    lemma_pow2_adds(1022, 53);
    lemma_pow2_adds(1074, 1);
    lemma2_to64();
    lemma2_to64_rest();
    lemma_scale_adds(-1022, 1022);
    let a = scale(-1022);
    let s0 = scale(0);
    assert(low * w <= high * w) by (nonlinear_arith)
        requires
            low <= high,
            w >= 0,
    ;
    if high * w < den {
        let m = half_even(low * unit, den);
        let n = half_even(high * unit, den);
        lemma_subnormal_units(low, den);
        lemma_subnormal_units(high, den);
        assert(low * unit <= high * unit) by (nonlinear_arith)
            requires
                low <= high,
                unit >= 0,
        ;
        lemma_half_even_rises(low * unit, high * unit, den);
        if m > 0 {
            assert(unit <= m * v) by (nonlinear_arith)
                requires
                    v == unit * 2,
                    m >= 1,
                    unit > 0,
            ;
            lemma_has_unit(m, unit);
        }
        if n > 0 {
            assert(unit <= n * v) by (nonlinear_arith)
                requires
                    v == unit * 2,
                    n >= 1,
                    unit > 0,
            ;
            lemma_has_unit(n, unit);
        }
        lemma_pow2_strictly_increases(52, 5000);
        assert(n < unit * pow2(5000)) by (nonlinear_arith)
            requires
                n <= pow2(52),
                pow2(52) < pow2(5000),
                unit >= 1,
        ;
        lemma_nearest_rises(m, n, unit);
    } else {
        assert(den <= high * v) by (nonlinear_arith)
            requires
                den <= high * w,
                v == w * 0x20_0000_0000_0000,
                high >= 0,
                w >= 0,
        ;
        assert(den * a <= high * s0) by (nonlinear_arith)
            requires
                den <= high * w,
                s0 == a * w,
                a > 0,
        ;
        if low * w < den {
            lemma_double_at_least(high, den, -1022);
            if low * v <= den {
                lemma_double_vanishes(low, den);
                assert(integer(0).num() == 0) by (nonlinear_arith)
                    requires
                        integer(0).num() == 0 * scale(0),
                ;
            } else {
                assert(low * s0 <= den * a) by (nonlinear_arith)
                    requires
                        low * w < den,
                        s0 == a * w,
                        a > 0,
                ;
                lemma_double_bounded(low, den, -1022);
            }
        } else {
            assert(den <= low * v) by (nonlinear_arith)
                requires
                    den <= low * w,
                    v == w * 0x20_0000_0000_0000,
                    low >= 0,
                    w >= 0,
            ;
            lemma_has_unit(low, den);
            lemma_has_unit(high, den);
            lemma_pow2_monotone(2000, 5000);
            assert(high < den * pow2(5000)) by (nonlinear_arith)
                requires
                    high < den * pow2(2000),
                    pow2(2000) <= pow2(5000),
                    den > 0,
            ;
            lemma_nearest_rises(low, high, den);
        }
    }
}

/// The integer part of `digits / 10^places / 2^k` where it stays below
/// `2^124`, and whether anything stands behind it.
fn quotient(digits: &Vec<u8>, places: u128, k: i32) -> (r: (Option<u128>, bool))
    requires
        all_digits(digits@),
        places <= 0x1_0000_0000_0000_0000_0000_0000,
        -2000 <= k <= 2000,
    ensures
        ({
            let n = value(digits@) * scale(0);
            let d = pow10(places as nat) * scale(k as int);
            &&& r.0 is Some <==> n / d < 0x1000_0000_0000_0000_0000_0000_0000_0000
            &&& r.0 is Some ==> r.0->0 == n / d
            &&& r.1 == (n % d != 0)
        }),
{
    let ghost num = value(digits@);
    let ghost den = pow10(places as nat);
    proof {
        lemma_pow10_positive(places as nat);
        lemma_scale_adds(0, 0);
        lemma_scale_adds(k as int, 0);
    }
    let mut wide: Vec<u8> = lowered(digits, 0);
    assert(wide@ =~= digits@);
    if k <= 0 {
        let s: u32 = (-k) as u32;
        proof {
            lemma_scale_adds(k as int, s as nat);
            let c = scale(k as int);
            let p = pow2(s as nat);
            assert(num * scale(0) == (num * p) * c) by (nonlinear_arith)
                requires
                    scale(0) == c * p,
            ;
            lemma_reduced(num, den, c, k as int, num * p, den);
        }
        scaled(wide, places, s)
    } else {
        let s: u32 = k as u32;
        times_fives(&mut wide, s);
        proof {
            let f = pow5(s as nat);
            let p = pow2(s as nat);
            let s0 = scale(0);
            let n = num * s0;
            let d = den * scale(k as int);
            let y = pow10((places + s) as nat);
            lemma_pow10_factors(s as nat);
            lemma_pow10_adds(places as nat, s as nat);
            lemma_pow10_positive((places + s) as nat);
            lemma_scale_adds(0, s as nat);
            lemma2_to64();
            assert(value(wide@) * pow2(0) == num * f) by (nonlinear_arith)
                requires
                    value(wide@) == num * f,
                    pow2(0) == 1,
            ;
            assert(n * f == (num * f) * s0) by (nonlinear_arith)
                requires
                    n == num * s0,
            ;
            assert(d * f == y * s0) by (nonlinear_arith)
                requires
                    d == den * (s0 * p),
                    y == den * (p * f),
            ;
            assert(d > 0) by (nonlinear_arith)
                requires
                    d == den * scale(k as int),
                    den > 0,
                    scale(k as int) > 0,
            ;
            lemma_common_factor(n, d, f);
            lemma_common_factor(num * f, y, s0);
            let r = n % d;
            let t = (num * f) % y;
            assert(r * f == t * s0);
            assert(r != 0 <==> t != 0) by (nonlinear_arith)
                requires
                    r * f == t * s0,
                    f > 0,
                    s0 > 0,
            ;
        }
        scaled(wide, places + s as u128, 0)
    }
}

/// Half of a cut integer, rounded with what stood behind it.
proof fn lemma_half_of_cut(n: nat, den: nat)
    requires
        den > 0,
    ensures
        ({
            let q = (2 * n) / den;
            let h = q / 2;
            half_even(n, den) == if q % 2 == 1 && ((2 * n) % den != 0 || h % 2 == 1) {
                h + 1
            } else {
                h
            }
        }),
{
    let q = n / den;
    let r = n % den;
    lemma_fundamental_div_mod(n as int, den as int);
    if 2 * r < den {
        assert(2 * n == (2 * q) * den + 2 * r) by (nonlinear_arith)
            requires
                n == den * q + r,
        ;
        lemma_fundamental_div_mod_converse(
            (2 * n) as int,
            den as int,
            (2 * q) as int,
            (2 * r) as int,
        );
    } else {
        assert(2 * n == (2 * q + 1) * den + (2 * r - den)) by (nonlinear_arith)
            requires
                n == den * q + r,
        ;
        lemma_fundamental_div_mod_converse(
            (2 * n) as int,
            den as int,
            (2 * q + 1) as int,
            2 * r - den,
        );
    }
}

/// A value below `2^-1022`: a multiple of `2^-1074`.
fn subnormal(digits: &Vec<u8>, places: u128) -> (r: Binary64)
    requires
        all_digits(digits@),
        places <= 0x1_0000_0000_0000_0000_0000_0000,
        value(digits@) * pow2(1022) < pow10(places as nat),
    ensures
        r == as_double(value(digits@), pow10(places as nat)),
        r.within(1127),
{
    let ghost num = value(digits@);
    let ghost den = pow10(places as nat);
    let ghost n = num * pow2(1074);
    let (q, sticky) = quotient(digits, places, -1075);
    proof {
        lemma_pow10_positive(places as nat);
        lemma_scale_adds(-1075, 1075);
        lemma_scale_adds(-1127, 53);
        lemma_scale_adds(-1127, 1127);
        lemma_pow2_adds(1, 1074);
        lemma_pow2_adds(53, 1022);
        lemma_pow2_adds(53, 1074);
        lemma_pow2_pos(1074);
        lemma2_to64();
        lemma2_to64_rest();
        let c = scale(-1075);
        assert(num * scale(0) == (2 * n) * c) by (nonlinear_arith)
            requires
                scale(0) == c * (2 * pow2(1074)),
                n == num * pow2(1074),
        ;
        lemma_reduced(num, den, c, -1075, 2 * n, den);
        lemma_half_of_cut(n, den);
        let z = (2 * n) / den;
        lemma_fundamental_div_mod((2 * n) as int, den as int);
        let low = pow2(1022);
        assert(2 * pow2(1074) == 0x20_0000_0000_0000 * low);
        assert(2 * n == num * (2 * pow2(1074))) by (nonlinear_arith)
            requires
                n == num * pow2(1074),
        ;
        assert(num * (0x20_0000_0000_0000 * low) < 0x20_0000_0000_0000 * den) by (nonlinear_arith)
            requires
                num * low < den,
        ;
        assert(z < 0x20_0000_0000_0000) by (nonlinear_arith)
            requires
                2 * n < 0x20_0000_0000_0000 * den,
                2 * n == den * z + (2 * n) % den,
                (2 * n) % den >= 0,
                den > 0,
        ;
    }
    match q {
        None => {
            assert(false);
            Binary64 { mantissa: 0, exponent: 0 }
        },
        Some(q) => {
            let half: u128 = q / 2;
            let m: u128 = if q % 2 == 1 && (sticky || half % 2 == 1) {
                half + 1
            } else {
                half
            };
            assert(m == half_even(n, den));
            if m == 0 {
                return Binary64 { mantissa: 0, exponent: 0 };
            }
            let wide: u128 = m * 0x20_0000_0000_0000;
            proof {
                let unit = pow2(1074);
                let a = scale(-1127);
                let c = unit * a;
                assert(m as nat * scale(0) == wide as nat * c) by (nonlinear_arith)
                    requires
                        wide == m * 0x20_0000_0000_0000,
                        scale(0) == a * (0x20_0000_0000_0000 * unit),
                        c == unit * a,
                ;
                assert(unit * scale(-1127) == 1 * c) by (nonlinear_arith)
                    requires
                        c == unit * a,
                        a == scale(-1127),
                ;
                lemma_mul_strictly_positive(unit as int, a as int);
                lemma_reduced(m as nat, unit, c, -1127, wide as nat, 1);
            }
            round(wide, false, -1127, Ghost(m as nat), Ghost(pow2(1074)))
        },
    }
}

/// A value of `2^53` units of `2^k` or more, for `k` of at least `-1075`, is
/// not subnormal.
pub proof fn lemma_is_normal(num: nat, den: nat, k: int)
    requires
        den > 0,
        -1075 <= k <= 2000,
        (num * scale(0)) / (den * scale(k)) >= 0x20_0000_0000_0000,
    ensures
        num * pow2(1022) >= den,
{
    let n = num * scale(0);
    let d = den * scale(k);
    lemma_scale_adds(-1075, (k + 1075) as nat);
    lemma_scale_adds(-1075, 1075);
    lemma_pow2_pos((k + 1075) as nat);
    lemma_pow2_adds(53, 1022);
    lemma2_to64_rest();
    let c = scale(-1075);
    assert(d >= den * c) by (nonlinear_arith)
        requires
            d == den * (c * pow2((k + 1075) as nat)),
            pow2((k + 1075) as nat) >= 1,
            c > 0,
            den > 0,
    ;
    assert(den * c > 0) by (nonlinear_arith)
        requires
            den > 0,
            c > 0,
    ;
    lemma_fundamental_div_mod(n as int, d as int);
    let q = n / d;
    assert(n >= 0x20_0000_0000_0000 * d) by (nonlinear_arith)
        requires
            n == d * q + n % d,
            n % d >= 0,
            q >= 0x20_0000_0000_0000,
            d > 0,
    ;
    assert(num * pow2(1022) >= den) by (nonlinear_arith)
        requires
            n == num * (c * (0x20_0000_0000_0000 * pow2(1022))),
            n >= 0x20_0000_0000_0000 * (den * c),
            c > 0,
    ;
}

/// From one unit to a finer one, the quotient grows no more than the unit
/// shrinks.
proof fn lemma_finer_unit(num: nat, den: nat, k: int, next: int)
    requires
        den > 0,
        -1075 <= next < k <= 2000,
        k - next <= 70,
        (num * scale(0)) / (den * scale(k)) < 0x20_0000_0000_0000,
    ensures
        (num * scale(0)) / (den * scale(next)) < 0x1000_0000_0000_0000_0000_0000_0000_0000,
{
    let n = num * scale(0);
    let d = den * scale(k);
    let f = den * scale(next);
    let s = (k - next) as nat;
    lemma_scale_adds(next, s);
    lemma_scale_adds(k, 0);
    lemma_pow2_monotone(s, 70);
    lemma_pow2_adds(10, 60);
    lemma2_to64();
    lemma2_to64_rest();
    let p = pow2(s);
    assert(d > 0 && f > 0) by (nonlinear_arith)
        requires
            d == den * scale(k),
            f == den * scale(next),
            den > 0,
            scale(k) > 0,
            scale(next) > 0,
    ;
    lemma_fundamental_div_mod(n as int, d as int);
    lemma_fundamental_div_mod(n as int, f as int);
    let q = n / d;
    assert(n < 0x20_0000_0000_0000 * d) by (nonlinear_arith)
        requires
            n == d * q + n % d,
            n % d < d,
            q + 1 <= 0x20_0000_0000_0000,
            d > 0,
    ;
    assert(d == f * p) by (nonlinear_arith)
        requires
            d == den * (scale(next) * p),
            f == den * scale(next),
    ;
    assert(pow2(70) == 0x40_0000_0000_0000_0000);
    assert(n < 0x1000_0000_0000_0000_0000_0000_0000_0000 * f) by (nonlinear_arith)
        requires
            n < 0x20_0000_0000_0000 * (f * p),
            p <= 0x40_0000_0000_0000_0000,
            f > 0,
    ;
    let z = n / f;
    assert(z < 0x1000_0000_0000_0000_0000_0000_0000_0000) by (nonlinear_arith)
        requires
            n < 0x1000_0000_0000_0000_0000_0000_0000_0000 * f,
            n == f * z + n % f,
            n % f >= 0,
            f > 0,
    ;
}

/// A finite value stays below `2^124` units of `2^900`.
proof fn lemma_coarse_unit(num: nat, den: nat)
    requires
        den > 0,
        num < den * pow2(1024),
    ensures
        (num * scale(0)) / (den * scale(900)) < 0x1000_0000_0000_0000_0000_0000_0000_0000,
{
    let n = num * scale(0);
    let d = den * scale(900);
    let s0 = scale(0);
    lemma_scale_adds(0, 900);
    lemma_scale_adds(900, 0);
    lemma_pow2_adds(124, 900);
    lemma_pow2_adds(64, 60);
    lemma2_to64();
    lemma2_to64_rest();
    let p = pow2(900);
    assert(d > 0) by (nonlinear_arith)
        requires
            d == den * scale(900),
            den > 0,
            scale(900) > 0,
    ;
    assert(n < 0x1000_0000_0000_0000_0000_0000_0000_0000 * d) by (nonlinear_arith)
        requires
            num < den * (0x1000_0000_0000_0000_0000_0000_0000_0000 * p),
            n == num * s0,
            d == den * (s0 * p),
            s0 > 0,
    ;
    lemma_fundamental_div_mod(n as int, d as int);
    let z = n / d;
    assert(z < 0x1000_0000_0000_0000_0000_0000_0000_0000) by (nonlinear_arith)
        requires
            n < 0x1000_0000_0000_0000_0000_0000_0000_0000 * d,
            n == d * z + n % d,
            n % d >= 0,
            d > 0,
    ;
}

/// A value below `2^53` units of `2^-1075` is subnormal.
proof fn lemma_is_subnormal(num: nat, den: nat)
    requires
        den > 0,
        (num * scale(0)) / (den * scale(-1075)) < 0x20_0000_0000_0000,
    ensures
        num * pow2(1022) < den,
{
    let n = num * scale(0);
    let c = scale(-1075);
    let d = den * c;
    lemma_scale_adds(-1075, 1075);
    lemma_pow2_adds(53, 1022);
    lemma2_to64_rest();
    assert(d > 0) by (nonlinear_arith)
        requires
            d == den * c,
            den > 0,
            c > 0,
    ;
    lemma_fundamental_div_mod(n as int, d as int);
    let q = n / d;
    assert(n < 0x20_0000_0000_0000 * d) by (nonlinear_arith)
        requires
            n == d * q + n % d,
            n % d < d,
            q + 1 <= 0x20_0000_0000_0000,
            d > 0,
    ;
    assert(num * pow2(1022) < den) by (nonlinear_arith)
        requires
            n == num * (c * (0x20_0000_0000_0000 * pow2(1022))),
            n < 0x20_0000_0000_0000 * (den * c),
            c > 0,
    ;
}

/// The digits over `10^places` in double precision. `hint` is the unit, as a
/// power of two, that is tried first; any unit leads to the same value.
pub fn round_fraction(digits: &Vec<u8>, places: u128, hint: i32) -> (r: Binary64)
    requires
        all_digits(digits@),
        places <= 0x1_0000_0000_0000_0000_0000_0000,
        value(digits@) < pow10(places as nat) * pow2(1024),
    ensures
        r == as_double(value(digits@), pow10(places as nat)),
        r.within(1127),
{
    let ghost num = value(digits@);
    let ghost den = pow10(places as nat);
    proof {
        lemma_pow10_positive(places as nat);
    }
    let mut k: i32 = if hint < -1075 {
        -1075
    } else if hint > 900 {
        900
    } else {
        hint
    };
    let mut found: (Option<u128>, bool) = quotient(digits, places, k);
    if found.0.is_none() {
        k = 900;
        found = quotient(digits, places, k);
        proof {
            lemma_coarse_unit(num, den);
        }
    }
    while k > -1075
        invariant
            -1075 <= k <= 900,
            all_digits(digits@),
            places <= 0x1_0000_0000_0000_0000_0000_0000,
            num == value(digits@),
            den == pow10(places as nat),
            den > 0,
            found.0 is Some,
            found.0->0 == (num * scale(0)) / (den * scale(k as int)),
            found.1 == ((num * scale(0)) % (den * scale(k as int)) != 0),
        decreases k + 1075,
    {
        if let Some(q) = found.0 {
            if q >= 0x20_0000_0000_0000 {
                proof {
                    lemma_is_normal(num, den, k as int);
                }
                return round(q, found.1, k, Ghost(num), Ghost(den));
            }
        }
        let next: i32 = if k < -1005 {
            -1075
        } else {
            k - 70
        };
        proof {
            lemma_finer_unit(num, den, k as int, next as int);
        }
        k = next;
        found = quotient(digits, places, k);
    }
    match found.0 {
        Some(q) if q >= 0x20_0000_0000_0000 => {
            proof {
                lemma_is_normal(num, den, -1075);
            }
            round(q, found.1, k, Ghost(num), Ghost(den))
        },
        _ => {
            proof {
                lemma_is_subnormal(num, den);
            }
            subnormal(digits, places)
        },
    }
}

} // verus!
