//! The shortest decimal notation that reads as a double-precision value.
use vstd::arithmetic::div_mod::{
    lemma_basic_div, lemma_fundamental_div_mod, lemma_fundamental_div_mod_converse,
};
use vstd::arithmetic::mul::lemma_mul_strictly_positive;
use vstd::arithmetic::power2::{
    lemma2_to64, lemma2_to64_rest, lemma_pow2_adds, lemma_pow2_pos, pow2,
};
use vstd::prelude::*;

use crate::binary64::{
    integer, lemma_common_factor, lemma_same_value, lemma_scale_adds, scale, Binary64,
};
use crate::decimal::{
    all_digits, from_u128, increment, lemma_pow10_adds, lemma_pow10_factors, lemma_pow10_monotone,
    lemma_pow10_positive, lemma_pow10_range, lemma_pow2_monotone, lemma_value_at_least,
    lemma_value_bound, lemma_value_splits, lowered, pow10, pow5, push_digits, push_padded_digits,
    raised, shift_left, times_fives, trim, value,
};
use crate::numeral::{
    below_zero, decimal_den, decimal_num, is_too_large, numeral, overflows, vanishes, Numeral,
};
use crate::rounding::{
    as_double, is_double, lemma_double_at_least, lemma_double_exact, lemma_double_is_double,
    lemma_double_rises, lemma_double_scales, lemma_double_vanishes, round_fraction,
};
use crate::text::{digits, padded_digits};

verus! {

/// Whether double precision reads `d * 10^e` as `x`.
pub open spec fn reads_back(d: nat, e: int, x: Binary64) -> bool {
    let num = decimal_num(d, e);
    let den = decimal_den(e);
    !overflows(num, den) && as_double(num, den) == x
}

/// How many times `10^e` goes into `x`.
pub open spec fn multiples(x: Binary64, e: int) -> nat {
    (x.num() * decimal_den(e)) / (x.den() * decimal_num(1, e))
}

/// Whether `x` lies in the lower half between the multiples of `10^e` next to
/// it.
pub open spec fn in_lower_half(x: Binary64, e: int) -> bool {
    2 * ((x.num() * decimal_den(e)) % (x.den() * decimal_num(1, e))) < x.den() * decimal_num(1, e)
}

/// Whether one of the multiples of `10^e` next to `x` reads as `x`.
pub open spec fn fits(x: Binary64, e: int) -> bool {
    reads_back(multiples(x, e), e, x) || reads_back(multiples(x, e) + 1, e, x)
}

/// The place of the last digit of `x` written out in full.
pub open spec fn full_place(x: Binary64) -> int {
    if x.exponent < 0 {
        x.exponent as int
    } else {
        0
    }
}

/// The first place, from `e` down, that [`fits`]; at most as far down as `x`
/// written out in full.
pub open spec fn last_place(x: Binary64, e: int) -> int
    decreases e - full_place(x),
{
    if e <= full_place(x) || fits(x, e) {
        e
    } else {
        last_place(x, e - 1)
    }
}

/// The multiple of `10^e` that stands for `x`: of the two next to it, the one
/// that reads as `x`; of two that do, the nearer, and the greater if neither
/// is.
pub open spec fn leading(x: Binary64, e: int) -> nat {
    let d = multiples(x, e);
    if reads_back(d + 1, e, x) && !(reads_back(d, e, x) && in_lower_half(x, e)) {
        d + 1
    } else {
        d
    }
}

/// `d * 10^e` in decimal notation.
pub open spec fn plain(d: nat, e: int) -> Seq<char> {
    if e >= 0 {
        digits(d * pow10(e as nat))
    } else {
        digits(d / pow10((-e) as nat)) + seq!['.'] + padded_digits(d, (-e) as nat)
    }
}

/// `x` with as few digits as read as `x`. No value reaches `10^400`.
pub open spec fn shortest(x: Binary64) -> Seq<char> {
    let e = last_place(x, 400);
    plain(leading(x, e), e)
}

/// Whether `v / 10^p` is exactly `x`.
spec fn is_exactly(x: Binary64, v: nat, p: nat) -> bool {
    v * x.den() == x.num() * pow10(p)
}

/// A value written out in full, and the number of its places.
fn in_full(x: Binary64) -> (r: (Vec<u8>, u32))
    requires
        x.within(1127),
        x.mantissa > 0,
    ensures
        all_digits(r.0@),
        r.1 <= 1127,
        r.1 == -full_place(x),
        is_exactly(x, value(r.0@), r.1 as nat),
        r.0@.len() > 0 && r.0@.last() > 0,
{
    let mut d: Vec<u8> = from_u128(x.mantissa as u128);
    let ghost m = x.mantissa as nat;
    let places: u32;
    if x.exponent >= 0 {
        places = 0;
        shift_left(&mut d, x.exponent as u32);
        proof {
            let s = x.exponent as nat;
            let p = pow2(s);
            lemma_scale_adds(0, s);
            let s0 = scale(0);
            assert((m * p) * s0 == (m * (s0 * p)) * 1) by (nonlinear_arith);
            assert(pow10(0) == 1);
        }
    } else {
        places = (-x.exponent) as u32;
        times_fives(&mut d, places);
        proof {
            let s = places as nat;
            let p = pow2(s);
            let f = pow5(s);
            let a = scale(x.exponent as int);
            lemma_scale_adds(x.exponent as int, s);
            lemma_pow10_factors(s);
            assert((m * f) * (a * p) == (m * a) * (p * f)) by (nonlinear_arith);
        }
    }
    trim(&mut d);
    proof {
        if d@.len() == 0 {
            lemma_scale_adds(x.exponent as int, 0);
            lemma_pow10_positive(places as nat);
            let a = scale(x.exponent as int);
            let t = pow10(places as nat);
            assert(value(d@) * x.den() == 0) by (nonlinear_arith)
                requires
                    value(d@) == 0,
            ;
            assert((m * a) * t > 0) by (nonlinear_arith)
                requires
                    m > 0,
                    a > 0,
                    t > 0,
            ;
        }
    }
    (d, places)
}

/// The multiples of `10^e` next to a value, off its digits in full.
proof fn lemma_place(x: Binary64, v: nat, p: nat, e: int)
    requires
        is_exactly(x, v, p),
        p + e >= 0,
    ensures
        ({
            let t = pow10((p + e) as nat);
            let n = x.num() * decimal_den(e);
            let d = x.den() * decimal_num(1, e);
            &&& t > 0
            &&& d > 0
            &&& multiples(x, e) == v / t
            &&& in_lower_half(x, e) <==> 2 * (v % t) < t
            &&& 10 * v < t ==> 10 * n < d
        }),
{
    let o = (p + e) as nat;
    let t = pow10(o);
    let s0 = scale(0);
    let a = x.num();
    let n = a * decimal_den(e);
    let one = decimal_num(1, e);
    let d = s0 * one;
    lemma_scale_adds(0, 0);
    lemma_pow10_positive(o);
    lemma_pow10_positive(p);
    let c = if e >= 0 {
        pow10(p)
    } else {
        t
    };
    if e >= 0 {
        lemma_pow10_adds(e as nat, p);
        lemma_pow10_positive(e as nat);
        assert(e as nat + p == o);
        assert(1 * pow10(e as nat) == pow10(e as nat)) by (nonlinear_arith);
        assert(n * c == v * s0) by (nonlinear_arith)
            requires
                n == a * 1,
                v * s0 == a * c,
        ;
        assert(d * c == t * s0) by (nonlinear_arith)
            requires
                d == s0 * one,
                t == one * c,
        ;
    } else {
        let f = (-e) as nat;
        lemma_pow10_adds(f, o);
        assert(f + o == p);
        assert(n * c == v * s0) by (nonlinear_arith)
            requires
                n == a * pow10(f),
                v * s0 == a * (pow10(f) * c),
        ;
        assert(d * c == t * s0) by (nonlinear_arith)
            requires
                d == s0 * one,
                one == 1,
                t == c,
        ;
    }
    assert(d > 0) by (nonlinear_arith)
        requires
            d == s0 * one,
            s0 > 0,
            one > 0,
    ;
    lemma_common_factor(n, d, c);
    lemma_common_factor(v, t, s0);
    let r = n % d;
    let u = v % t;
    assert(r * c == u * s0);
    assert(2 * r < d <==> 2 * u < t) by (nonlinear_arith)
        requires
            r * c == u * s0,
            d * c == t * s0,
            c > 0,
            s0 > 0,
    ;
    if 10 * v < t {
        assert(10 * n < d) by (nonlinear_arith)
            requires
                n * c == v * s0,
                d * c == t * s0,
                10 * v < t,
                c > 0,
                s0 > 0,
        ;
    }
}

/// A place more than ten times as high as the value does not fit.
proof fn lemma_too_high(x: Binary64, v: nat, p: nat, e: int)
    requires
        x.within(1127),
        x.mantissa > 0,
        is_exactly(x, v, p),
        p + e >= 0,
        10 * v < pow10((p + e) as nat),
        e <= 400,
    ensures
        !fits(x, e),
{
    lemma_place(x, v, p, e);
    lemma_pow10_positive((p + e) as nat);
    let t = pow10((p + e) as nat);
    lemma_basic_div(v as int, t as int);
    let num = decimal_num(1, e);
    let den = decimal_den(e);
    if e < 0 {
        lemma_pow10_positive((-e) as nat);
    } else {
        lemma_pow10_positive(e as nat);
    }
    // Nothing reads as zero.
    assert(decimal_num(0, e) == 0) by {
        assert(0 * pow10(e as nat) == 0) by (nonlinear_arith);
    }
    assert(0 * pow2(1075) == 0) by (nonlinear_arith);
    lemma_double_vanishes(0, den);
    assert(integer(0).mantissa == 0);
    // A one at the place reads as more than the value.
    let q = x.exponent as int;
    let a = scale(q);
    let s0 = scale(0);
    let m = x.mantissa as nat;
    lemma_scale_adds(q, 55);
    lemma_scale_adds(q, 53);
    lemma2_to64();
    lemma2_to64_rest();
    assert(den * scale(q + 55) <= num * s0) by (nonlinear_arith)
        requires
            10 * ((m * a) * den) < s0 * num,
            scale(q + 55) == a * 0x80_0000_0000_0000,
            m >= 0x10_0000_0000_0000,
            a >= 0,
            den >= 0,
    ;
    assert(num < den * pow2(2000)) by {
        lemma_pow10_range(400);
        lemma_pow2_monotone(1600, 1999);
        lemma_pow2_adds(1999, 1);
        lemma_pow2_pos(1999);
        if e >= 0 {
            lemma_pow10_monotone(e as nat, 400);
            assert(1 * pow10(e as nat) == pow10(e as nat)) by (nonlinear_arith);
            assert(den == 1);
            assert(den * pow2(2000) == pow2(2000)) by (nonlinear_arith)
                requires
                    den == 1,
            ;
        } else {
            assert(num == 1);
            assert(den * pow2(2000) >= pow2(2000)) by (nonlinear_arith)
                requires
                    den >= 1,
            ;
        }
    }
    lemma_double_at_least(num, den, q + 55);
    assert(x.num() < scale(q + 55)) by (nonlinear_arith)
        requires
            x.num() == m * a,
            m < 0x20_0000_0000_0000,
            scale(q + 55) == a * 0x80_0000_0000_0000,
            a > 0,
    ;
}

/// The search may start right above the value.
proof fn lemma_search_starts(x: Binary64, v: nat, p: nat, g: int, e: int)
    requires
        x.within(1127),
        x.mantissa > 0,
        is_exactly(x, v, p),
        p == -full_place(x),
        p + g >= 0,
        v < pow10((p + g) as nat),
        g <= e <= 400,
    ensures
        last_place(x, e) == last_place(x, g),
    decreases e - g,
{
    if e > g {
        let o = (p + g) as nat;
        lemma_pow10_monotone(o + 1, (p + e) as nat);
        assert(pow10(o + 1) == 10 * pow10(o));
        lemma_too_high(x, v, p, e);
        lemma_search_starts(x, v, p, g, e - 1);
    }
}

/// No value that is told apart here has more than 394 places before the point.
proof fn lemma_places_before_point(x: Binary64, d: Seq<u8>, p: nat)
    requires
        x.within(1127),
        x.mantissa > 0,
        all_digits(d),
        d.len() > 0,
        d.last() > 0,
        is_exactly(x, value(d), p),
    ensures
        d.len() <= p + 394,
{
    let v = value(d);
    let q = x.exponent as int;
    let s0 = scale(0);
    let m = x.mantissa as nat;
    let t = pow10(p);
    lemma_value_at_least(d);
    lemma_pow10_positive(p);
    lemma_scale_adds(q, (1127 - q) as nat);
    lemma_scale_adds(0, 1127);
    lemma_pow2_adds(53, 1127);
    lemma2_to64_rest();
    lemma_pow2_pos((1127 - q) as nat);
    let a = scale(q);
    let w = pow2(1127);
    assert(a <= s0 * w) by (nonlinear_arith)
        requires
            s0 * w == a * pow2((1127 - q) as nat),
            pow2((1127 - q) as nat) >= 1,
            a > 0,
    ;
    assert(m * a < 0x20_0000_0000_0000 * (s0 * w)) by (nonlinear_arith)
        requires
            a <= s0 * w,
            m < 0x20_0000_0000_0000,
            a > 0,
    ;
    assert(v < (0x20_0000_0000_0000 * w) * t) by (nonlinear_arith)
        requires
            v * s0 == (m * a) * t,
            m * a < 0x20_0000_0000_0000 * (s0 * w),
            t > 0,
            s0 > 0,
    ;
    lemma_pow10_range(394);
    lemma_pow2_monotone(1180, 1182);
    assert(v < pow10(394) * t) by (nonlinear_arith)
        requires
            v < pow2(1180) * t,
            pow2(1180) <= pow10(394),
            t > 0,
    ;
    lemma_pow10_adds(394, p);
    if d.len() > p + 394 {
        lemma_pow10_monotone(394 + p, (d.len() - 1) as nat);
    }
}

/// Whether double precision reads the digits, `e` places up, as `x`.
fn read_back(d: &Vec<u8>, e: i32, x: Binary64) -> (r: bool)
    requires
        all_digits(d@),
        -1127 <= e <= 400,
        x.within(1127),
    ensures
        r == reads_back(value(d@), e as int, x),
{
    let raise: usize = if e > 0 {
        e as usize
    } else {
        0
    };
    let places: u128 = if e < 0 {
        (-e) as u128
    } else {
        0
    };
    let number: Vec<u8> = raised(d, raise);
    proof {
        assert(pow10(0) == 1);
        assert(value(d@) * pow10(0) == value(d@)) by (nonlinear_arith)
            requires
                pow10(0) == 1,
        ;
    }
    if is_too_large(&number, places) {
        return false;
    }
    round_fraction(&number, places, x.exponent - 35) == x
}

/// Whether the places below `o` come to less than half of `10^o`.
fn is_low(d: &Vec<u8>, o: usize) -> (r: bool)
    requires
        all_digits(d@),
        o <= d@.len(),
    ensures
        r == (2 * (value(d@) % pow10(o as nat)) < pow10(o as nat)),
{
    proof {
        lemma_value_splits(d@, o as nat);
    }
    if o == 0 {
        assert(d@.take(0) =~= Seq::<u8>::empty());
        return true;
    }
    proof {
        let low = d@.take(o as int);
        let rest = low.drop_last();
        let p = pow10((o - 1) as nat);
        assert forall|i: int| 0 <= i < rest.len() implies #[trigger] rest[i] < 10 by {
            assert(rest[i] == d@[i]);
        }
        lemma_value_bound(rest);
        let x = d@[o - 1] as nat;
        assert(low.last() == d@[o - 1]);
        assert(value(low) == value(rest) + x * p);
        assert(pow10(o as nat) == 10 * p);
        if x < 5 {
            assert(x * p <= 4 * p) by (nonlinear_arith)
                requires
                    x <= 4,
            ;
        } else {
            assert(x * p >= 5 * p) by (nonlinear_arith)
                requires
                    x >= 5,
            ;
        }
    }
    d[o - 1] < 5
}

/// Appends the digits, `e` places up, in decimal notation.
fn push_plain(out: &mut String, d: &Vec<u8>, e: i32)
    requires
        all_digits(d@),
        -1127 <= e <= 400,
    ensures
        final(out)@ == old(out)@ + plain(value(d@), e as int),
{
    if e >= 0 {
        let number: Vec<u8> = raised(d, e as usize);
        push_digits(out, &number);
    } else {
        let f: usize = (-e) as usize;
        if f < d.len() {
            let whole: Vec<u8> = lowered(d, f);
            proof {
                lemma_value_splits(d@, f as nat);
            }
            push_digits(out, &whole);
        } else {
            proof {
                lemma_value_bound(d@);
                lemma_pow10_monotone(d@.len(), f as nat);
                lemma_basic_div(
                    value(d@) as int,
                    pow10(f as nat) as int,
                );
            }
            out.push('0');
            assert(out@ =~= old(out)@ + digits(0));
        }
        out.push('.');
        push_padded_digits(out, d, f);
        assert(out@ =~= old(out)@ + plain(value(d@), e as int));
    }
}

/// Appends `x` with as few digits as read as `x`.
pub fn push_shortest(out: &mut String, x: Binary64)
    requires
        x.within(1127),
        x.mantissa > 0,
    ensures
        final(out)@ == old(out)@ + shortest(x),
{
    let (full, places) = in_full(x);
    let ghost v = value(full@);
    let ghost p = places as nat;
    let mut o: usize = full.len();
    proof {
        lemma_places_before_point(x, full@, p);
        lemma_value_bound(full@);
        lemma_search_starts(x, v, p, full@.len() - p, 400);
    }
    loop
        invariant
            all_digits(full@),
            v == value(full@),
            p == places as nat,
            places <= 1127,
            o <= full@.len() <= p + 394,
            p == -full_place(x),
            x.within(1127),
            x.mantissa > 0,
            is_exactly(x, v, p),
            last_place(x, 400) == last_place(x, o - p),
            out@ == old(out)@,
        decreases o,
    {
        let e: i32 = o as i32 - places as i32;
        let below: Vec<u8> = lowered(&full, o);
        let mut above: Vec<u8> = lowered(&full, o);
        increment(&mut above);
        proof {
            lemma_place(x, v, p, e as int);
            lemma_value_splits(full@, o as nat);
        }
        let above_fits: bool = read_back(&above, e, x);
        let below_fits: bool = read_back(&below, e, x);
        if o == 0 || above_fits || below_fits {
            if above_fits && !(below_fits && is_low(&full, o)) {
                push_plain(out, &above, e);
            } else {
                push_plain(out, &below, e);
            }
            return ;
        }
        o -= 1;
    }
}

/// If any multiple of `10^e` reads as a value, one next to the value does.
proof fn lemma_neighbour_fits(x: Binary64, d: nat, e: int)
    requires
        is_double(x),
        reads_back(d, e, x),
    ensures
        fits(x, e),
{
    let s0 = scale(0);
    let a = x.num();
    let one = decimal_num(1, e);
    let den = decimal_den(e);
    let n = a * den;
    let unit = s0 * one;
    let t = pow2(1024) - pow2(970);
    let q = multiples(x, e);
    lemma_scale_adds(0, 0);
    lemma_pow2_pos(970);
    lemma_pow2_monotone(1024, 2000);
    if e >= 0 {
        lemma_pow10_positive(e as nat);
        assert(one == pow10(e as nat)) by (nonlinear_arith)
            requires
                one == 1 * pow10(e as nat),
        ;
    } else {
        lemma_pow10_positive((-e) as nat);
    }
    assert(unit > 0) by (nonlinear_arith)
        requires
            unit == s0 * one,
            s0 > 0,
            one > 0,
    ;
    lemma_fundamental_div_mod(n as int, unit as int);
    lemma_multiple(d, e);
    lemma_multiple(q, e);
    lemma_multiple(q + 1, e);
    let whole = den * s0;
    assert(whole > 0) by (nonlinear_arith)
        requires
            whole == den * s0,
            den > 0,
            s0 > 0,
    ;
    let own = d * one;
    lemma_double_scales(own, den, s0);
    assert(n * s0 == a * whole) by (nonlinear_arith)
        requires
            n == a * den,
            whole == den * s0,
    ;
    lemma_double_exact(n, whole, x);
    assert(n < t * whole) by (nonlinear_arith)
        requires
            n == a * den,
            a < t * s0,
            whole == den * s0,
            den > 0,
    ;
    assert(own * s0 < t * whole) by (nonlinear_arith)
        requires
            own < t * den,
            whole == den * s0,
            s0 > 0,
    ;
    let top = whole * pow2(2000);
    assert(t * whole <= top) by (nonlinear_arith)
        requires
            t <= pow2(2000),
            top == whole * pow2(2000),
            whole > 0,
    ;
    let c = if d <= q {
        q
    } else {
        q + 1
    };
    let near = c * one;
    if d <= q {
        assert(near * s0 <= n) by (nonlinear_arith)
            requires
                near == q * one,
                unit == s0 * one,
                n == unit * q + n % unit,
                n % unit >= 0,
        ;
        assert(own * s0 <= near * s0) by (nonlinear_arith)
            requires
                own == d * one,
                near == q * one,
                d <= q,
                one >= 0,
                s0 >= 0,
        ;
        lemma_double_rises(own * s0, near * s0, whole);
        lemma_double_rises(near * s0, n, whole);
    } else {
        assert(near * s0 == unit * q + unit) by (nonlinear_arith)
            requires
                near == (q + 1) * one,
                unit == s0 * one,
        ;
        assert(n <= near * s0);
        assert(near * s0 <= own * s0) by (nonlinear_arith)
            requires
                own == d * one,
                near == (q + 1) * one,
                q + 1 <= d,
                one >= 0,
                s0 >= 0,
        ;
        lemma_double_rises(n, near * s0, whole);
        lemma_double_rises(near * s0, own * s0, whole);
    }
    assert(near < t * den) by (nonlinear_arith)
        requires
            near * s0 < t * whole,
            whole == den * s0,
            s0 > 0,
    ;
    lemma_double_scales(near, den, s0);
    let y = as_double(near, den);
    assert(y.num() == x.num());
    lemma_scale_adds(x.exponent as int, 0);
    lemma_mul_strictly_positive(x.mantissa as int, scale(x.exponent as int) as int);
    if near * pow2(1075) <= den {
        lemma_double_vanishes(near, den);
        assert(integer(0).num() == 0) by (nonlinear_arith)
            requires
                integer(0).num() == 0 * scale(0),
        ;
    }
    lemma_double_is_double(near, den);
    lemma_same_value(x, y);
    assert(reads_back(c, e, x));
}

/// The numerator of a multiple of `10^e`.
proof fn lemma_multiple(d: nat, e: int)
    ensures
        decimal_num(d, e) == d * decimal_num(1, e),
{
    if e >= 0 {
        assert(1 * pow10(e as nat) == pow10(e as nat)) by (nonlinear_arith);
    } else {
        assert(d * 1 == d) by (nonlinear_arith);
    }
}

/// A value written out in full reads as itself.
proof fn lemma_full_place_fits(x: Binary64)
    requires
        is_double(x),
    ensures
        fits(x, full_place(x)),
{
    let e = full_place(x);
    let s0 = scale(0);
    let m = x.mantissa as nat;
    let one = decimal_num(1, e);
    let den = decimal_den(e);
    let n = x.num() * den;
    let unit = s0 * one;
    let t = pow2(1024) - pow2(970);
    let f: nat;
    lemma_scale_adds(0, 0);
    if x.exponent < 0 {
        let s = (-x.exponent) as nat;
        let p = pow2(s);
        let a = scale(x.exponent as int);
        lemma_scale_adds(x.exponent as int, s);
        lemma_pow10_factors(s);
        lemma_pow10_positive(s);
        f = m * pow5(s);
        assert(n == f * unit) by (nonlinear_arith)
            requires
                n == (m * a) * (p * pow5(s)),
                f == m * pow5(s),
                unit == (a * p) * 1,
        ;
    } else {
        let s = x.exponent as nat;
        let p = pow2(s);
        lemma_scale_adds(0, s);
        f = m * p;
        assert(pow10(0) == 1);
        assert(one == 1) by (nonlinear_arith)
            requires
                one == 1 * pow10(0),
                pow10(0) == 1,
        ;
        assert(n == f * unit) by (nonlinear_arith)
            requires
                n == (m * (s0 * p)) * 1,
                f == m * p,
                unit == s0 * 1,
        ;
    }
    assert(unit > 0) by (nonlinear_arith)
        requires
            unit == s0 * one,
            s0 > 0,
            one > 0,
    ;
    lemma_fundamental_div_mod_converse(n as int, unit as int, f as int, 0);
    assert(multiples(x, e) == f);
    lemma_multiple(f, e);
    let near = f * one;
    assert(near * s0 == n) by (nonlinear_arith)
        requires
            near == f * one,
            unit == s0 * one,
            n == f * unit,
    ;
    lemma_double_exact(near, den, x);
    assert(near < t * den) by (nonlinear_arith)
        requires
            near * s0 == x.num() * den,
            x.num() < t * s0,
            s0 > 0,
            den > 0,
    ;
}

/// What the search passes over does not fit, and where it ends fits.
proof fn lemma_search_ends(x: Binary64, top: int, e: int)
    requires
        is_double(x),
        full_place(x) <= top,
    ensures
        full_place(x) <= last_place(x, top) <= top,
        fits(x, last_place(x, top)),
        last_place(x, top) < e <= top ==> !fits(x, e),
    decreases top - full_place(x),
{
    if top <= full_place(x) {
        lemma_full_place_fits(x);
    } else if !fits(x, top) {
        lemma_search_ends(x, top - 1, e);
    }
}

/// The notation of a double-precision value reads as that value, and nothing
/// with fewer places does: no multiple of a higher power of ten reads as it.
pub proof fn law_notation_is_shortest(x: Binary64, d: nat, e: int)
    requires
        is_double(x),
    ensures
        ({
            let place = last_place(x, 400);
            &&& shortest(x) == plain(leading(x, place), place)
            &&& reads_back(leading(x, place), place, x)
            &&& e > place ==> !reads_back(d, e, x)
        }),
{
    lemma_search_ends(x, 400, e);
    if reads_back(d, e, x) {
        if e <= 400 {
            lemma_neighbour_fits(x, d, e);
        } else {
            lemma_multiple(d, e);
            lemma_pow10_positive(e as nat);
            lemma_pow10_monotone(400, e as nat);
            lemma_pow10_range(400);
            lemma_pow2_monotone(1024, 1200);
            lemma_pow2_pos(970);
            let one = pow10(e as nat);
            assert(1 * one == one) by (nonlinear_arith);
            if d == 0 {
                assert(d * one == 0) by (nonlinear_arith)
                    requires
                        d == 0,
                ;
                assert(0 * pow2(1075) == 0) by (nonlinear_arith);
                lemma_double_vanishes(0, 1);
                assert(integer(0).mantissa == 0);
            } else {
                assert(d * one >= one) by (nonlinear_arith)
                    requires
                        d >= 1,
                        one >= 0,
                ;
                let t = pow2(1024) - pow2(970);
                assert(t * 1 == t) by (nonlinear_arith);
                assert(t <= d * one);
                assert(overflows(d * one, 1));
            }
        }
    }
}

/// The number below zero that a text gives is a double-precision value, so that
/// its notation is the shortest.
pub proof fn law_below_zero_is_a_double(s: Seq<char>)
    ensures
        below_zero(s) matches Some(x) ==> is_double(x),
{
    match numeral(s) {
        Some(Numeral::Decimal { negative, significand, exponent }) => {
            let num = decimal_num(significand, exponent);
            let den = decimal_den(exponent);
            if exponent < 0 {
                lemma_pow10_positive((-exponent) as nat);
            }
            if negative && !overflows(num, den) && !vanishes(num, den) {
                lemma_double_is_double(num, den);
            }
        },
        _ => {},
    }
}

} // verus!
