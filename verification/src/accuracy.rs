//! How far a rounded figure lies from the exact one: by no more than so many
//! roundings to 53 bits.
use vstd::arithmetic::div_mod::{
    lemma_fundamental_div_mod, lemma_fundamental_div_mod_converse,
};
use vstd::arithmetic::power2::{lemma2_to64, lemma2_to64_rest, lemma_pow2_adds, pow2};
use vstd::prelude::*;

use crate::binary64::{
    half_even, has_unit, integer, lemma_nearest_value, lemma_nearest_within, lemma_scale_adds,
    lemma_unit_exists, minus, nearest, scale, Binary64,
};
use crate::decimal::lemma_pow2_monotone;

verus! {

/// `(2^53 - 1)^n`.
pub open spec fn below(n: nat) -> nat
    decreases n,
{
    if n == 0 {
        1
    } else {
        0x1f_ffff_ffff_ffff * below((n - 1) as nat)
    }
}

/// `(2^53)^n`.
pub open spec fn above(n: nat) -> nat
    decreases n,
{
    if n == 0 {
        1
    } else {
        0x20_0000_0000_0000 * above((n - 1) as nat)
    }
}

/// Whether `a / b` is `c / d`, up to `n` roundings: up to a factor of at most
/// `(2^53 / (2^53 - 1))^n`, either way.
pub open spec fn near(a: nat, b: nat, c: nat, d: nat, n: nat) -> bool {
    &&& (a * d) * below(n) <= (c * b) * above(n)
    &&& (c * b) * below(n) <= (a * d) * above(n)
}

/// Whether `x` is `num / den`, up to `n` roundings.
pub open spec fn is_near(x: Binary64, num: nat, den: nat, n: nat) -> bool {
    near(x.num(), x.den(), num, den, n)
}

proof fn lemma_factors(n: nat)
    ensures
        0 < below(n) <= above(n),
    decreases n,
{
    if n > 0 {
        lemma_factors((n - 1) as nat);
    }
}

proof fn lemma_factors_add(n: nat, m: nat)
    ensures
        below(n + m) == below(n) * below(m),
        above(n + m) == above(n) * above(m),
    decreases n,
{
    if n == 0 {
        assert(1 * below(m) == below(m)) by (nonlinear_arith);
        assert(1 * above(m) == above(m)) by (nonlinear_arith);
    } else {
        let k = (n - 1) as nat;
        lemma_factors_add(k, m);
        assert((n + m - 1) as nat == k + m);
        let (b, c) = (below(k), below(m));
        assert(0x1f_ffff_ffff_ffff * (b * c) == (0x1f_ffff_ffff_ffff * b) * c)
            by (nonlinear_arith);
        let (p, q) = (above(k), above(m));
        assert(0x20_0000_0000_0000 * (p * q) == (0x20_0000_0000_0000 * p) * q)
            by (nonlinear_arith);
    }
}

/// Equal fractions are near.
pub proof fn lemma_near_equal(a: nat, b: nat, c: nat, d: nat)
    requires
        a * d == c * b,
    ensures
        near(a, b, c, d, 0),
{
    let (x, y) = (a * d, c * b);
    assert(x * 1 == x && y * 1 == y) by (nonlinear_arith);
}

/// More roundings allow more.
pub proof fn lemma_near_widens(a: nat, b: nat, c: nat, d: nat, n: nat, m: nat)
    requires
        near(a, b, c, d, n),
        n <= m,
    ensures
        near(a, b, c, d, m),
{
    let k = (m - n) as nat;
    lemma_factors(k);
    lemma_factors_add(n, k);
    assert(n + k == m);
    let (x, y) = (a * d, c * b);
    lemma_scaled_bound(x * below(n), y * above(n), below(k), above(k));
    lemma_scaled_bound(y * below(n), x * above(n), below(k), above(k));
    assert(x * (below(n) * below(k)) == (x * below(n)) * below(k)) by (nonlinear_arith);
    assert(y * (below(n) * below(k)) == (y * below(n)) * below(k)) by (nonlinear_arith);
    assert(x * (above(n) * above(k)) == (x * above(n)) * above(k)) by (nonlinear_arith);
    assert(y * (above(n) * above(k)) == (y * above(n)) * above(k)) by (nonlinear_arith);
}

proof fn lemma_scaled_bound(p: nat, q: nat, b: nat, t: nat)
    requires
        p <= q,
        b <= t,
    ensures
        p * b <= q * t,
{
    assert(p * b <= q * t) by (nonlinear_arith)
        requires
            p <= q,
            b <= t,
            p >= 0,
            b >= 0,
    ;
}

/// Turned over, near fractions stay near.
pub proof fn lemma_near_inverse(a: nat, b: nat, c: nat, d: nat, n: nat)
    requires
        near(a, b, c, d, n),
    ensures
        near(b, a, d, c, n),
{
    assert(b * c == c * b && d * a == a * d) by (nonlinear_arith);
}

/// The product of near fractions is near the product.
pub proof fn lemma_near_product(
    a: nat,
    b: nat,
    c: nat,
    d: nat,
    n: nat,
    e: nat,
    f: nat,
    g: nat,
    h: nat,
    m: nat,
)
    requires
        near(a, b, c, d, n),
        near(e, f, g, h, m),
    ensures
        near(a * e, b * f, c * g, d * h, n + m),
{
    lemma_factors_add(n, m);
    let (p, q) = (a * d, c * b);
    let (r, s) = (e * h, g * f);
    assert((a * e) * (d * h) == p * r) by (nonlinear_arith)
        requires
            p == a * d,
            r == e * h,
    ;
    assert((c * g) * (b * f) == q * s) by (nonlinear_arith)
        requires
            q == c * b,
            s == g * f,
    ;
    lemma_scaled_bound(p * below(n), q * above(n), r * below(m), s * above(m));
    lemma_scaled_bound(q * below(n), p * above(n), s * below(m), r * above(m));
    lemma_regroup(p, r, below(n), below(m));
    lemma_regroup(q, s, below(n), below(m));
    lemma_regroup(p, r, above(n), above(m));
    lemma_regroup(q, s, above(n), above(m));
}

proof fn lemma_regroup(p: nat, r: nat, x: nat, y: nat)
    ensures
        (p * x) * (r * y) == (p * r) * (x * y),
{
    assert((p * x) * (r * y) == (p * r) * (x * y)) by (nonlinear_arith);
}

/// Nearness carries over.
pub proof fn lemma_near_chain(
    a: nat,
    b: nat,
    c: nat,
    d: nat,
    n: nat,
    e: nat,
    f: nat,
    m: nat,
)
    requires
        near(a, b, c, d, n),
        near(c, d, e, f, m),
        c > 0,
        d > 0,
    ensures
        near(a, b, e, f, n + m),
{
    lemma_near_product(a, b, c, d, n, c, d, e, f, m);
    let k = c * d;
    assert(k > 0) by (nonlinear_arith)
        requires
            k == c * d,
            c > 0,
            d > 0,
    ;
    let (x, y) = (a * f, e * b);
    assert((a * c) * (d * f) == x * k) by (nonlinear_arith)
        requires
            x == a * f,
            k == c * d,
    ;
    assert((c * e) * (b * d) == y * k) by (nonlinear_arith)
        requires
            y == e * b,
            k == c * d,
    ;
    lemma_cancel(x, y, k, below(n + m), above(n + m));
    lemma_cancel(y, x, k, below(n + m), above(n + m));
}

proof fn lemma_cancel(x: nat, y: nat, k: nat, b: nat, t: nat)
    requires
        k > 0,
        (x * k) * b <= (y * k) * t,
    ensures
        x * b <= y * t,
{
    let (p, q) = (x * b, y * t);
    assert((x * k) * b == p * k && (y * k) * t == q * k) by (nonlinear_arith)
        requires
            p == x * b,
            q == y * t,
    ;
    assert(p <= q) by (nonlinear_arith)
        requires
            p * k <= q * k,
            k > 0,
    ;
}

/// The sum of near fractions is near the sum.
pub proof fn lemma_near_sum(a: nat, b: nat, c: nat, d: nat, e: nat, g: nat, n: nat)
    requires
        near(a, b, c, d, n),
        near(e, b, g, d, n),
    ensures
        near(a + e, b, c + g, d, n),
{
    let (l, h) = (below(n), above(n));
    assert((a + e) * d == a * d + e * d) by (nonlinear_arith);
    assert((c + g) * b == c * b + g * b) by (nonlinear_arith);
    let (p, q, r, s) = (a * d, c * b, e * d, g * b);
    assert((p + r) * l == p * l + r * l && (q + s) * h == q * h + s * h) by (nonlinear_arith);
    assert((q + s) * l == q * l + s * l && (p + r) * h == p * h + r * h) by (nonlinear_arith);
}

/// The fraction may be written otherwise.
pub proof fn lemma_near_same(
    a: nat,
    b: nat,
    c: nat,
    d: nat,
    n: nat,
    e: nat,
    f: nat,
)
    requires
        near(a, b, c, d, n),
        c * f == e * d,
        c > 0,
        d > 0,
    ensures
        near(a, b, e, f, n),
{
    lemma_near_equal(c, d, e, f);
    lemma_near_chain(a, b, c, d, n, e, f, 0);
}

/// A figure that is rounded is one rounding away.
pub proof fn lemma_rounding(num: nat, den: nat)
    requires
        den > 0,
        exists|k: int| has_unit(num, den, k) && k <= 6000,
    ensures
        is_near(nearest(num, den), num, den, 1),
{
    let x = nearest(num, den);
    let s0 = scale(0);
    lemma_scale_adds(0, 0);
    if num == 0 {
        assert(x.num() == 0) by (nonlinear_arith)
            requires
                x.num() == 0 * scale(0),
        ;
        let l = below(1);
        let h = above(1);
        assert((0 * den) * l == 0 && (0 * s0) * h == 0) by (nonlinear_arith);
        assert((0 * den) * h == 0 && (0 * s0) * l == 0) by (nonlinear_arith);
        return ;
    }
    let k = choose|k: int| has_unit(num, den, k) && k <= 6000;
    lemma_nearest_value(num, den, k);
    lemma_scale_adds(k, 0);
    lemma2_to64_rest();
    let n = num * s0;
    let d = den * scale(k);
    let m = half_even(n, d);
    assert(d > 0) by (nonlinear_arith)
        requires
            d == den * scale(k),
            den > 0,
            scale(k) > 0,
    ;
    lemma_fundamental_div_mod(n as int, d as int);
    let q = n / d;
    let r = n % d;
    let got = m * d;
    assert(x.num() * den == got) by (nonlinear_arith)
        requires
            x.num() == m * scale(k),
            d == den * scale(k),
            got == m * d,
    ;
    assert((q + 1) * d == q * d + d) by (nonlinear_arith);
    assert(d * q == q * d) by (nonlinear_arith);
    assert(2 * got <= 2 * n + d && 2 * n <= 2 * got + d);
    assert(0x10_0000_0000_0000 * d <= n);
    assert(below(1) == 0x1f_ffff_ffff_ffff && above(1) == 0x20_0000_0000_0000) by {
        reveal_with_fuel(below, 2);
        reveal_with_fuel(above, 2);
    }
    assert(got * 0x1f_ffff_ffff_ffff <= n * 0x20_0000_0000_0000);
    assert(n * 0x1f_ffff_ffff_ffff <= got * 0x20_0000_0000_0000);
}

/// A whole number is one rounding away from itself.
pub proof fn lemma_integer_near(n: nat)
    requires
        n <= u64::MAX,
    ensures
        is_near(integer(n), n, 1, 1),
        integer(n).within(64),
        n > 0 <==> integer(n).mantissa > 0,
{
    lemma2_to64();
    lemma2_to64_rest();
    lemma_scale_adds(-52, 52);
    lemma_scale_adds(0, 64);
    if n == 0 {
        lemma_unit_of_zero();
        return ;
    }
    let s0 = scale(0);
    assert(pow2(52) * (1 * scale(-52)) <= n * s0) by (nonlinear_arith)
        requires
            s0 == scale(-52) * pow2(52),
            n >= 1,
            s0 >= 0,
    ;
    lemma_unit_exists(n, 1, -52);
    assert(1 * s0 <= n * s0 && n * s0 < 1 * scale(64)) by (nonlinear_arith)
        requires
            n >= 1,
            n < 0x1_0000_0000_0000_0000,
            scale(64) == s0 * 0x1_0000_0000_0000_0000,
            s0 > 0,
    ;
    lemma_unit_bounded(n, 1, 64);
    lemma_rounding(n, 1);
    lemma_nearest_within(n, 1, 0, 64);
}

proof fn lemma_unit_of_zero()
    ensures
        is_near(integer(0), 0, 1, 1),
        integer(0).within(64),
{
    let l = below(1);
    let h = above(1);
    let s0 = scale(0);
    assert(integer(0).num() == 0) by (nonlinear_arith)
        requires
            integer(0).num() == 0 * scale(0),
    ;
    assert((0 * 1) * l == 0 && (0 * s0) * h == 0) by (nonlinear_arith);
    assert((0 * 1) * h == 0 && (0 * s0) * l == 0) by (nonlinear_arith);
}

/// A value below `2^e` lies in a binade no higher than that.
proof fn lemma_unit_bounded(num: nat, den: nat, e: int)
    requires
        den > 0,
        -4000 <= e <= 4000,
        num * scale(0) < den * scale(e),
        exists|k: int| has_unit(num, den, k),
    ensures
        exists|k: int| has_unit(num, den, k) && k <= 6000,
{
    let k = choose|k: int| has_unit(num, den, k);
    if k > 6000 {
        lemma2_to64_rest();
        lemma_scale_adds(e, (k - e) as nat);
        lemma_pow2_monotone(0, (k - e) as nat);
        lemma2_to64();
        let p = pow2((k - e) as nat);
        let t = scale(e);
        assert(false) by (nonlinear_arith)
            requires
                pow2(52) * (den * (t * p)) <= num * scale(0),
                num * scale(0) < den * t,
                p >= 1,
                pow2(52) >= 1,
                den > 0,
                t > 0,
        ;
    }
}

/// The bounds of a value of 53 bits.
proof fn lemma_value_between(x: Binary64, p: int)
    requires
        x.within(p),
        x.mantissa > 0,
        0 <= p <= 3800,
    ensures
        scale(52 - p) <= x.num(),
        x.num() < scale(53 + p),
        x.num() > 0,
{
    let m = x.mantissa as nat;
    let k = x.exponent as int;
    lemma2_to64_rest();
    lemma2_to64();
    lemma_scale_adds(-p, 52);
    lemma_scale_adds(-p, (k + p) as nat);
    lemma_scale_adds(k, 53);
    lemma_scale_adds(k + 53, (p - k) as nat);
    lemma_pow2_monotone(0, (k + p) as nat);
    lemma_pow2_monotone(0, (p - k) as nat);
    let a = scale(-p);
    let u = pow2((k + p) as nat);
    assert(scale(52 - p) == a * 0x10_0000_0000_0000);
    assert(a * 0x10_0000_0000_0000 <= m * (a * u)) by (nonlinear_arith)
        requires
            m >= 0x10_0000_0000_0000,
            u >= 1,
            a > 0,
    ;
    let b = scale(k);
    let v = pow2((p - k) as nat);
    assert(m * b < (b * 0x20_0000_0000_0000) * v) by (nonlinear_arith)
        requires
            m < 0x20_0000_0000_0000,
            v >= 1,
            b > 0,
    ;
}

/// A fraction between two powers of two is rounded well.
pub proof fn lemma_rounded_between(num: nat, den: nat, low: int, high: int)
    requires
        den > 0,
        -4000 <= low <= high <= 4000,
        den * scale(low) <= num * scale(0),
        num * scale(0) < den * scale(high),
    ensures
        is_near(nearest(num, den), num, den, 1),
        0x10_0000_0000_0000 <= nearest(num, den).mantissa < 0x20_0000_0000_0000,
        low - 53 < nearest(num, den).exponent <= high - 51,
{
    lemma2_to64_rest();
    lemma_scale_adds(low - 52, 52);
    let a = scale(low - 52);
    assert(pow2(52) * (den * a) <= num * scale(0)) by (nonlinear_arith)
        requires
            den * scale(low) <= num * scale(0),
            scale(low) == a * pow2(52),
    ;
    lemma_unit_exists(num, den, low - 52);
    lemma_unit_bounded(num, den, high);
    lemma_rounding(num, den);
    lemma_nearest_within(num, den, low, high);
}

/// The product of two figures.
pub proof fn lemma_times_near(
    x: Binary64,
    p: int,
    a: nat,
    b: nat,
    n: nat,
    y: Binary64,
    q: int,
    c: nat,
    d: nat,
    m: nat,
)
    requires
        x.within(p),
        y.within(q),
        0 <= p,
        0 <= q,
        p + q <= 3700,
        is_near(x, a, b, n),
        is_near(y, c, d, m),
    ensures
        is_near(x.times(y), a * c, b * d, n + m + 1),
        x.times(y).within(p + q + 60),
        x.times(y).mantissa > 0 <==> x.mantissa > 0 && y.mantissa > 0,
{
    let s0 = scale(0);
    let num = x.num() * y.num();
    let den = s0 * s0;
    lemma_scale_adds(0, 0);
    assert(den > 0) by (nonlinear_arith)
        requires
            den == s0 * s0,
            s0 > 0,
    ;
    lemma_near_product(x.num(), s0, a, b, n, y.num(), s0, c, d, m);
    if x.mantissa == 0 || y.mantissa == 0 {
        assert(num == 0) by (nonlinear_arith)
            requires
                num == x.num() * y.num(),
                x.num() == 0 * s0 || y.num() == 0 * s0,
        ;
        assert(x.times(y) == nearest(0, den));
        lemma_zero_stays(den, a * c, b * d, n + m);
        return ;
    }
    lemma_value_between(x, p);
    lemma_value_between(y, q);
    let low = 104 - p - q;
    let high = 106 + p + q;
    lemma_scale_product(52 - p, 52 - q);
    lemma_scale_product(53 + p, 53 + q);
    assert(den * scale(low) <= num * s0) by (nonlinear_arith)
        requires
            den == s0 * s0,
            num == x.num() * y.num(),
            x.num() >= scale(52 - p),
            y.num() >= scale(52 - q),
            scale(52 - p) * scale(52 - q) == s0 * scale(low),
            s0 > 0,
    ;
    assert(num < scale(53 + p) * scale(53 + q)) by (nonlinear_arith)
        requires
            num == x.num() * y.num(),
            x.num() < scale(53 + p),
            y.num() < scale(53 + q),
    ;
    assert(num * s0 < den * scale(high)) by (nonlinear_arith)
        requires
            den == s0 * s0,
            num < s0 * scale(high),
            s0 > 0,
    ;
    lemma_rounded_between(num, den, low, high);
    assert(num > 0) by (nonlinear_arith)
        requires
            num == x.num() * y.num(),
            x.num() > 0,
            y.num() > 0,
    ;
    lemma_near_chain(x.times(y).num(), s0, num, den, 1, a * c, b * d, n + m);
}

/// Scales multiply.
proof fn lemma_scale_product(a: int, b: int)
    requires
        -4000 <= a <= 4000,
        -4000 <= b <= 4000,
    ensures
        scale(a) * scale(b) == scale(0) * scale(a + b),
{
    lemma_pow2_adds((a + 8192) as nat, (b + 8192) as nat);
    lemma_pow2_adds(8192, (a + b + 8192) as nat);
    assert((a + 8192) as nat + (b + 8192) as nat == 8192 + (a + b + 8192) as nat);
}

/// What is near zero is zero, and so is its rounding.
proof fn lemma_zero_stays(den: nat, c: nat, d: nat, n: nat)
    requires
        den > 0,
        near(0, den, c, d, n),
    ensures
        is_near(nearest(0, den), c, d, n + 1),
        nearest(0, den).within(0),
        nearest(0, den).mantissa == 0,
{
    let x = nearest(0, den);
    let s0 = scale(0);
    lemma_scale_adds(0, 0);
    lemma_factors(n);
    assert(x.num() == 0) by (nonlinear_arith)
        requires
            x.num() == 0 * scale(0),
    ;
    assert(c == 0) by (nonlinear_arith)
        requires
            (c * den) * below(n) <= (0 * d) * above(n),
            den > 0,
            below(n) > 0,
    ;
    let (l, h) = (below(n + 1), above(n + 1));
    assert((0 * d) * l == 0 && (0 * s0) * h == 0) by (nonlinear_arith);
    assert((0 * d) * h == 0 && (0 * s0) * l == 0) by (nonlinear_arith);
}

/// The quotient of two figures.
pub proof fn lemma_over_near(
    x: Binary64,
    p: int,
    a: nat,
    b: nat,
    n: nat,
    y: Binary64,
    q: int,
    c: nat,
    d: nat,
    m: nat,
)
    requires
        x.within(p),
        y.within(q),
        0 <= p,
        0 <= q,
        p + q <= 3700,
        y.mantissa > 0,
        is_near(x, a, b, n),
        is_near(y, c, d, m),
    ensures
        is_near(x.over(y), a * d, b * c, n + m + 1),
        x.over(y).within(p + q + 60),
        x.over(y).mantissa > 0 <==> x.mantissa > 0,
{
    let s0 = scale(0);
    let num = x.num() * s0;
    let den = s0 * y.num();
    lemma_scale_adds(0, 0);
    lemma_value_between(y, q);
    assert(den > 0) by (nonlinear_arith)
        requires
            den == s0 * y.num(),
            s0 > 0,
            y.num() > 0,
    ;
    lemma_near_inverse(y.num(), s0, c, d, m);
    lemma_near_product(x.num(), s0, a, b, n, s0, y.num(), d, c, m);
    if x.mantissa == 0 {
        assert(num == 0) by (nonlinear_arith)
            requires
                num == x.num() * s0,
                x.num() == 0 * s0,
        ;
        assert(x.over(y) == nearest(0, den));
        lemma_zero_stays(den, a * d, b * c, n + m);
        return ;
    }
    lemma_value_between(x, p);
    let low = -1 - p - q;
    let high = 1 + p + q;
    lemma_scale_product(53 + q, low);
    lemma_scale_product(52 - q, high);
    assert(53 + q + low == 52 - p);
    assert(52 - q + high == 53 + p);
    assert(den * scale(low) <= num * s0) by (nonlinear_arith)
        requires
            den == s0 * y.num(),
            num == x.num() * s0,
            y.num() <= scale(53 + q),
            scale(53 + q) * scale(low) == s0 * scale(52 - p),
            scale(52 - p) <= x.num(),
            s0 > 0,
    ;
    assert(num * s0 < den * scale(high)) by (nonlinear_arith)
        requires
            den == s0 * y.num(),
            num == x.num() * s0,
            scale(52 - q) <= y.num(),
            scale(52 - q) * scale(high) == s0 * scale(53 + p),
            x.num() < scale(53 + p),
            s0 > 0,
    ;
    lemma_rounded_between(num, den, low, high);
    assert(num > 0) by (nonlinear_arith)
        requires
            num == x.num() * s0,
            x.num() > 0,
            s0 > 0,
    ;
    lemma_near_chain(x.over(y).num(), s0, num, den, 1, a * d, b * c, n + m);
}

/// The sum of two figures.
pub proof fn lemma_plus_near(
    x: Binary64,
    y: Binary64,
    p: int,
    a: nat,
    c: nat,
    d: nat,
    n: nat,
)
    requires
        x.within(p),
        y.within(p),
        0 <= p <= 3700,
        is_near(x, a, d, n),
        is_near(y, c, d, n),
    ensures
        is_near(x.plus(y), a + c, d, n + 1),
        x.plus(y).within(p + 60),
        x.plus(y).mantissa > 0 <==> x.mantissa > 0 || y.mantissa > 0,
        x.plus(y).mantissa > 0 ==> x.plus(y).exponent >= -p,
{
    let s0 = scale(0);
    let num = x.num() * s0 + y.num() * s0;
    let den = s0 * s0;
    let t = x.num() + y.num();
    lemma_scale_adds(0, 0);
    assert(den > 0) by (nonlinear_arith)
        requires
            den == s0 * s0,
            s0 > 0,
    ;
    assert(num == t * s0) by (nonlinear_arith)
        requires
            num == x.num() * s0 + y.num() * s0,
            t == x.num() + y.num(),
    ;
    lemma_near_sum(x.num(), s0, a, d, y.num(), c, n);
    if x.mantissa == 0 && y.mantissa == 0 {
        assert(t == 0) by (nonlinear_arith)
            requires
                t == x.num() + y.num(),
                x.num() == 0 * s0,
                y.num() == 0 * s0,
        ;
        assert(num == 0) by (nonlinear_arith)
            requires
                num == t * s0,
                t == 0,
        ;
        lemma_zero_stays(s0, a + c, d, n);
        assert(nearest(0, den) == nearest(0, s0));
        return ;
    }
    if x.mantissa == 0 {
        assert(x.num() == 0) by (nonlinear_arith)
            requires
                x.num() == 0 * s0,
        ;
        lemma_value_between(y, p);
    } else {
        lemma_value_between(x, p);
        if y.mantissa == 0 {
            assert(y.num() == 0) by (nonlinear_arith)
                requires
                    y.num() == 0 * s0,
            ;
        } else {
            lemma_value_between(y, p);
        }
    }
    lemma_scale_adds(53 + p, 1);
    lemma2_to64();
    let low = 52 - p;
    let high = 54 + p;
    assert(scale(low) <= t && t < scale(high));
    assert(den * scale(low) <= num * s0 && num * s0 < den * scale(high)) by (nonlinear_arith)
        requires
            den == s0 * s0,
            num == t * s0,
            scale(low) <= t,
            t < scale(high),
            s0 > 0,
    ;
    lemma_rounded_between(num, den, low, high);
    assert(num * s0 == t * den) by (nonlinear_arith)
        requires
            num == t * s0,
            den == s0 * s0,
    ;
    assert(t > 0) by {
        lemma_scale_adds(low, 0);
    }
    lemma_near_equal(num, den, t, s0);
    assert(num > 0) by (nonlinear_arith)
        requires
            num == t * s0,
            t > 0,
            s0 > 0,
    ;
    lemma_near_chain(x.plus(y).num(), s0, num, den, 1, t, s0, 0);
    lemma_near_chain(x.plus(y).num(), s0, t, s0, 1, a + c, d, n);
}

/// A value is a whole number of the least units in its range.
proof fn lemma_whole_units(x: Binary64, p: int) -> (u: nat)
    requires
        x.within(p),
        0 <= p <= 3700,
    ensures
        x.num() == u * scale(-p),
{
    let m = x.mantissa as nat;
    if m == 0 {
        assert(x.num() == 0 * scale(-p)) by (nonlinear_arith)
            requires
                x.num() == 0 * scale(0),
        ;
        0
    } else {
        let k = x.exponent as int;
        lemma_scale_adds(-p, (k + p) as nat);
        let w = pow2((k + p) as nat);
        let a = scale(-p);
        assert(m * (a * w) == (m * w) * a) by (nonlinear_arith);
        m * w
    }
}

/// The difference of two figures is below zero exactly if the first is the
/// smaller one, and is one rounding away from the exact difference.
pub proof fn lemma_minus_near(x: Binary64, y: Binary64, p: int)
    requires
        x.within(p),
        y.within(p),
        0 <= p <= 3700,
    ensures
        minus(x, y).negative <==> x.num() < y.num(),
        is_near(
            minus(x, y).magnitude,
            if x.num() >= y.num() {
                (x.num() - y.num()) as nat
            } else {
                (y.num() - x.num()) as nat
            },
            scale(0),
            1,
        ),
{
    let s0 = scale(0);
    let (a, b) = (x.num(), y.num());
    let t = if a >= b {
        (a - b) as nat
    } else {
        (b - a) as nat
    };
    let den = s0 * s0;
    let num = t * s0;
    lemma_scale_adds(0, 0);
    lemma_scale_adds(-p, 0);
    assert(den > 0) by (nonlinear_arith)
        requires
            den == s0 * s0,
            s0 > 0,
    ;
    assert(a * s0 >= b * s0 <==> a >= b) by (nonlinear_arith)
        requires
            s0 > 0,
    ;
    assert(a * s0 - b * s0 == (a - b) * s0 && b * s0 - a * s0 == (b - a) * s0)
        by (nonlinear_arith);
    let z = minus(x, y).magnitude;
    assert(z == nearest(num, den));
    if t == 0 {
        assert(num == 0) by (nonlinear_arith)
            requires
                num == t * s0,
                t == 0,
        ;
        assert((0 * s0) * 1 == 0 && (0 * den) * 1 == 0) by (nonlinear_arith);
        lemma_zero_stays(den, 0, s0, 0);
        return ;
    }
    let u = lemma_whole_units(x, p);
    let v = lemma_whole_units(y, p);
    let c = scale(-p);
    assert(t >= c) by (nonlinear_arith)
        requires
            t == (u * c) - (v * c) || t == (v * c) - (u * c),
            t > 0,
            c > 0,
    ;
    if x.mantissa > 0 {
        lemma_value_between(x, p);
    } else {
        assert(a == 0) by (nonlinear_arith)
            requires
                a == 0 * s0,
        ;
    }
    if y.mantissa > 0 {
        lemma_value_between(y, p);
    } else {
        assert(b == 0) by (nonlinear_arith)
            requires
                b == 0 * s0,
        ;
    }
    let top = scale(53 + p);
    assert(den * c <= num * s0 && num * s0 < den * top) by (nonlinear_arith)
        requires
            den == s0 * s0,
            num == t * s0,
            c <= t,
            t < top,
            s0 > 0,
    ;
    lemma_rounded_between(num, den, -p, 53 + p);
    assert(num > 0) by (nonlinear_arith)
        requires
            num == t * s0,
            t > 0,
            s0 > 0,
    ;
    assert(num * s0 == t * den) by (nonlinear_arith)
        requires
            num == t * s0,
            den == s0 * s0,
    ;
    lemma_near_same(z.num(), s0, num, den, 1, t, s0);
}

/// A whole number of at most 53 bits needs no rounding.
pub proof fn lemma_integer_exact(n: nat)
    requires
        n < 0x20_0000_0000_0000,
    ensures
        integer(n).num() == n * scale(0),
{
    let s0 = scale(0);
    if n == 0 {
        assert(integer(0).num() == 0 * s0);
        return ;
    }
    lemma2_to64();
    lemma2_to64_rest();
    lemma_scale_adds(-52, 52);
    assert(pow2(52) * (1 * scale(-52)) <= n * s0) by (nonlinear_arith)
        requires
            s0 == scale(-52) * pow2(52),
            n >= 1,
            s0 >= 0,
    ;
    lemma_unit_exists(n, 1, -52);
    let k = choose|k: int| has_unit(n, 1, k);
    if k > 0 {
        lemma_scale_adds(0, k as nat);
        lemma_pow2_adds((k - 1) as nat, 1);
        lemma_pow2_monotone(0, (k - 1) as nat);
        let p = pow2(k as nat);
        assert(p >= 2);
        assert(false) by (nonlinear_arith)
            requires
                pow2(52) * (1 * (s0 * p)) <= n * s0,
                p >= 2,
                pow2(52) == 0x10_0000_0000_0000,
                n < 0x20_0000_0000_0000,
                s0 > 0,
        ;
    }
    let w = pow2((-k) as nat);
    let c = scale(k);
    lemma_scale_adds(k, (-k) as nat);
    let d = 1 * c;
    let m = n * w;
    assert(n * s0 == m * d) by (nonlinear_arith)
        requires
            s0 == c * w,
            d == 1 * c,
            m == n * w,
    ;
    assert(d > 0) by (nonlinear_arith)
        requires
            d == 1 * c,
            c > 0,
    ;
    lemma_fundamental_div_mod_converse((n * s0) as int, d as int, m as int, 0);
    lemma_nearest_value(n, 1, k);
    assert(m * c == n * s0) by (nonlinear_arith)
        requires
            s0 == c * w,
            m == n * w,
    ;
}

/// Each operation is one rounding away from the exact result.
pub proof fn law_operations_round_once(x: Binary64, y: Binary64)
    requires
        x.within(1800),
        y.within(1800),
    ensures
        is_near(x.times(y), x.num() * y.num(), x.den() * y.den(), 1),
        is_near(x.plus(y), x.num() + y.num(), scale(0), 1),
        y.mantissa > 0 ==> is_near(x.over(y), x.num() * y.den(), x.den() * y.num(), 1),
        minus(x, y).negative <==> x.num() < y.num(),
        is_near(
            minus(x, y).magnitude,
            if x.num() >= y.num() {
                (x.num() - y.num()) as nat
            } else {
                (y.num() - x.num()) as nat
            },
            scale(0),
            1,
        ),
{
    let s0 = scale(0);
    lemma_near_equal(x.num(), s0, x.num(), s0);
    lemma_near_equal(y.num(), s0, y.num(), s0);
    lemma_times_near(x, 1800, x.num(), s0, 0, y, 1800, y.num(), s0, 0);
    lemma_plus_near(x, y, 1800, x.num(), y.num(), s0, 0);
    if y.mantissa > 0 {
        lemma_over_near(x, 1800, x.num(), s0, 0, y, 1800, y.num(), s0, 0);
    }
    lemma_minus_near(x, y, 1800);
}

/// A fraction is rounded to a value one rounding away, wherever the exponents
/// reach.
pub proof fn law_fractions_round_once(num: nat, den: nat, low: int, high: int)
    requires
        den > 0,
        -4000 <= low <= high <= 4000,
        den * scale(low) <= num * scale(0),
        num * scale(0) < den * scale(high),
    ensures
        is_near(nearest(num, den), num, den, 1),
{
    lemma_rounded_between(num, den, low, high);
}

} // verus!
