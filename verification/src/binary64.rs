//! Non-negative binary floating-point values with a 53-bit significand, kept
//! as a pair of integers.
//!
//! The value of a [`Binary64`] is `mantissa * 2^exponent`. Every operation
//! returns the representable value nearest to the exact result, ties going to
//! the even mantissa, so a figure computed here is the figure that IEEE 754
//! double precision gives for the same expression. Exponents are not bounded
//! by the double-precision range: nothing overflows to infinity and nothing
//! loses precision to subnormals.
use vstd::arithmetic::div_mod::{
    lemma_fundamental_div_mod, lemma_fundamental_div_mod_converse,
};
use vstd::arithmetic::mul::lemma_mul_strictly_positive;
use vstd::arithmetic::power2::{
    lemma2_to64, lemma2_to64_rest, lemma_pow2_adds, lemma_pow2_pos, lemma_pow2_strictly_increases,
    pow2,
};
use vstd::prelude::*;

use crate::decimal::{from_u128, pow10, push_digits, shift_left};
use crate::text::{digits, padded_digits, push_decimal, push_padded_decimal};

verus! {

/// A value `mantissa * 2^exponent`. Zero is `(0, 0)`; every other value that
/// an operation returns has a mantissa of exactly 53 bits.
#[derive(Debug, Clone, Copy, PartialEq, Eq, Structural)]
pub struct Binary64 {
    /// The significand.
    pub mantissa: u64,
    /// The power of two that scales it.
    pub exponent: i32,
}

/// Powers of two with an exponent as low as `-bias()` are written as the
/// fraction `scale(k) / scale(0)`.
pub open spec fn bias() -> int {
    8192
}

/// `2^(k + bias())`; zero below the range that [`bias`] covers.
pub open spec fn scale(k: int) -> nat {
    if k + bias() >= 0 {
        pow2((k + bias()) as nat)
    } else {
        0
    }
}

/// `num / den` rounded to an integer, a half going to the even neighbour.
pub open spec fn half_even(num: nat, den: nat) -> nat {
    let q = num / den;
    let twice = 2 * (num % den);
    if twice > den || (twice == den && q % 2 == 1) {
        q + 1
    } else {
        q
    }
}

/// Whether `num / den` lies between `2^52` and `2^53` units of `2^k`.
pub open spec fn has_unit(num: nat, den: nat, k: int) -> bool {
    &&& -bias() <= k
    &&& pow2(52) * (den * scale(k)) <= num * scale(0)
    &&& num * scale(0) < pow2(53) * (den * scale(k))
}

/// The representable value nearest to `num / den`.
pub open spec fn nearest(num: nat, den: nat) -> Binary64 {
    if num == 0 {
        Binary64 { mantissa: 0, exponent: 0 }
    } else {
        let k = choose|k: int| has_unit(num, den, k);
        let m = half_even(num * scale(0), den * scale(k));
        if m == pow2(53) {
            Binary64 { mantissa: pow2(52) as u64, exponent: (k + 1) as i32 }
        } else {
            Binary64 { mantissa: m as u64, exponent: k as i32 }
        }
    }
}

impl Binary64 {
    /// Numerator of the value, over [`Binary64::den`].
    pub open spec fn num(self) -> nat {
        self.mantissa as nat * scale(self.exponent as int)
    }

    /// Denominator of the value.
    pub open spec fn den(self) -> nat {
        scale(0)
    }

    /// Whether the value is zero or has a 53-bit mantissa, with an exponent
    /// no further than `limit` from zero.
    pub open spec fn within(self, limit: int) -> bool {
        ||| self.mantissa == 0 && self.exponent == 0
        ||| 0x10_0000_0000_0000 <= self.mantissa < 0x20_0000_0000_0000 && -limit <= self.exponent
            <= limit
    }

    /// The product of two values.
    pub open spec fn times(self, other: Binary64) -> Binary64 {
        nearest(self.num() * other.num(), self.den() * other.den())
    }

    /// The quotient of two values.
    pub open spec fn over(self, other: Binary64) -> Binary64 {
        nearest(self.num() * other.den(), self.den() * other.num())
    }

    /// The sum of two values.
    pub open spec fn plus(self, other: Binary64) -> Binary64 {
        nearest(
            self.num() * other.den() + other.num() * self.den(),
            self.den() * other.den(),
        )
    }
}

/// The integer `n` as a value.
pub open spec fn integer(n: nat) -> Binary64 {
    nearest(n, 1)
}

/// Scales multiply as their exponents add.
pub proof fn lemma_scale_adds(k: int, s: nat)
    requires
        -bias() <= k,
    ensures
        scale(k + s) == scale(k) * pow2(s),
        scale(k) > 0,
{
    lemma_pow2_adds((k + bias()) as nat, s);
    lemma_pow2_pos((k + bias()) as nat);
}

proof fn lemma_pow2_small()
    ensures
        pow2(0) == 1,
        pow2(1) == 2,
        pow2(52) == 0x10_0000_0000_0000,
        pow2(53) == 0x20_0000_0000_0000,
        pow2(64) == 0x1_0000_0000_0000_0000,
{
    lemma2_to64();
    lemma2_to64_rest();
}

/// The denominator of a value is positive.
pub proof fn lemma_den_positive(value: Binary64)
    ensures
        value.den() > 0,
{
    lemma_scale_adds(0, 0);
}

/// Scaling numerator and denominator alike changes neither quotient nor the
/// proportion of the remainder.
pub proof fn lemma_common_factor(num: nat, den: nat, c: nat)
    requires
        den > 0,
        c > 0,
    ensures
        (num * c) / (den * c) == num / den,
        (num * c) % (den * c) == (num % den) * c,
{
    let q = (num / den) as int;
    let r = (num % den) as int;
    lemma_fundamental_div_mod(num as int, den as int);
    assert(num * c == q * (den * c) + r * c) by (nonlinear_arith)
        requires
            num == den * q + r,
    ;
    assert(0 <= r * c < den * c) by (nonlinear_arith)
        requires
            0 <= r < den,
            c > 0,
    ;
    lemma_fundamental_div_mod_converse((num * c) as int, (den * c) as int, q, r * c);
}

/// No value lies in two binades.
pub proof fn lemma_unit_unique(num: nat, den: nat, k1: int, k2: int)
    requires
        den > 0,
        has_unit(num, den, k1),
        has_unit(num, den, k2),
    ensures
        k1 == k2,
{
    if k1 < k2 {
        lemma_unit_not_higher(num, den, k1, k2);
    } else if k2 < k1 {
        lemma_unit_not_higher(num, den, k2, k1);
    }
}

proof fn lemma_unit_not_higher(num: nat, den: nat, k1: int, k2: int)
    requires
        den > 0,
        has_unit(num, den, k1),
        k1 < k2,
    ensures
        !has_unit(num, den, k2),
{
    let s = (k2 - k1) as nat;
    lemma_scale_adds(k1, s);
    lemma_pow2_small();
    lemma_pow2_adds(1, (s - 1) as nat);
    lemma_pow2_pos((s - 1) as nat);
    let d1 = den * scale(k1);
    let p = pow2((s - 1) as nat);
    assert(den * scale(k2) == d1 * (2 * p)) by (nonlinear_arith)
        requires
            scale(k2) == scale(k1) * (2 * p),
            d1 == den * scale(k1),
    ;
    let top = pow2(53);
    let low = pow2(52);
    assert(low * (d1 * (2 * p)) >= top * d1) by (nonlinear_arith)
        requires
            top == 2 * low,
            p >= 1,
            d1 >= 0,
    ;
}

/// The exact value `(q + fraction) * 2^k0`, cut to 53 bits: shared by every
/// operation. `num / den` is the exact value; `sticky` says whether the
/// fraction is non-zero.
pub(crate) fn round(q: u128, sticky: bool, k0: i32, Ghost(num): Ghost<nat>, Ghost(den): Ghost<nat>) -> (r:
    Binary64)
    requires
        den > 0,
        -6000 <= k0 <= 6000,
        q >= 0x20_0000_0000_0000,
        q == (num * scale(0)) / (den * scale(k0 as int)),
        sticky == ((num * scale(0)) % (den * scale(k0 as int)) != 0),
    ensures
        r == nearest(num, den),
        0x10_0000_0000_0000 <= r.mantissa < 0x20_0000_0000_0000,
        k0 <= r.exponent <= k0 + 77,
{
    let ghost n0 = num * scale(0);
    let ghost d0 = den * scale(k0 as int);
    proof {
        lemma_pow2_small();
        lemma_scale_adds(k0 as int, 0);
        lemma_mul_strictly_positive(den as int, scale(k0 as int) as int);
        lemma_fundamental_div_mod(n0 as int, d0 as int);
    }
    let mut p: u128 = 1;
    let mut s: i32 = 0;
    assert(q / 1 == q);
    while q / p >= 0x20_0000_0000_0000
        invariant
            0 <= s <= 76,
            p == pow2(s as nat),
            1 <= p,
            q >= 0x20_0000_0000_0000,
            q / p >= 0x10_0000_0000_0000,
            p <= q / 0x10_0000_0000_0000,
            s == 0 ==> q / p >= 0x20_0000_0000_0000,
        ensures
            0 < s <= 76,
            p == pow2(s as nat),
            0x10_0000_0000_0000 <= q / p < 0x20_0000_0000_0000,
        decreases q / p,
    {
        let ghost before = q / p;
        proof {
            lemma_fundamental_div_mod(q as int, p as int);
            let m = q / p;
            assert(q >= m * p);
            assert(p <= q / 0x20_0000_0000_0000) by (nonlinear_arith)
                requires
                    q >= m * p,
                    m >= 0x20_0000_0000_0000,
                    p >= 0,
                    q >= 0,
            ;
            lemma_pow2_small();
            lemma_pow2_adds(s as nat, 1);
            if s >= 76 {
                lemma_pow2_strictly_increases(75, 76);
                lemma_pow2_adds(64, 12);
                lemma2_to64();
                assert(false);
            }
        }
        p = p * 2;
        s = s + 1;
        proof {
            let m = before;
            assert(q / p == m / 2) by (nonlinear_arith)
                requires
                    m == q / ((p / 2) as u128),
                    p % 2 == 0,
                    p >= 2,
            ;
        }
    }
    let m: u128 = q / p;
    let rem: u128 = q % p;
    let ghost k = k0 + s;
    proof {
        lemma_fundamental_div_mod(q as int, p as int);
        lemma_scale_adds(k0 as int, s as nat);
        lemma_pow2_adds(1, (s - 1) as nat);
    }
    let ghost d = den * scale(k);
    let ghost r0 = n0 % d0;
    let ghost half_p = pow2((s - 1) as nat);
    proof {
        assert(d == d0 * p) by (nonlinear_arith)
            requires
                d == den * scale(k),
                d0 == den * scale(k0 as int),
                scale(k) == scale(k0 as int) * p,
        ;
        let whole = rem * d0 + r0;
        assert(n0 == m * d + whole) by (nonlinear_arith)
            requires
                n0 == d0 * q + r0,
                q == p * m + rem,
                d == d0 * p,
                whole == rem * d0 + r0,
        ;
        assert(0 <= whole < d) by (nonlinear_arith)
            requires
                whole == rem * d0 + r0,
                0 <= rem < p,
                0 <= r0 < d0,
                d == d0 * p,
        ;
        lemma_fundamental_div_mod_converse(n0 as int, d as int, m as int, whole);
        assert(n0 / d == m);
        assert(n0 % d == whole);
        // Where the discarded part stands against one half.
        assert(2 * rem > p ==> 2 * whole > d) by (nonlinear_arith)
            requires
                whole == rem * d0 + r0,
                d == d0 * p,
                r0 >= 0,
                d0 > 0,
        ;
        if 2 * rem < p {
            assert(rem * d0 + d0 <= half_p * d0) by (nonlinear_arith)
                requires
                    rem + 1 <= half_p,
                    d0 > 0,
            ;
            assert(d == 2 * (half_p * d0)) by (nonlinear_arith)
                requires
                    d == d0 * p,
                    p == 2 * half_p,
            ;
            assert(2 * whole < d);
        }
        assert(2 * rem == p ==> 2 * whole == d + 2 * r0) by (nonlinear_arith)
            requires
                whole == rem * d0 + r0,
                d == d0 * p,
        ;
        assert(has_unit(num, den, k)) by {
            assert(pow2(52) * d <= n0) by (nonlinear_arith)
                requires
                    n0 == m * d + whole,
                    whole >= 0,
                    d >= 0,
                    m >= pow2(52),
            ;
            assert(n0 < pow2(53) * d) by (nonlinear_arith)
                requires
                    n0 == m * d + whole,
                    whole < d,
                    m + 1 <= pow2(53),
                    d > 0,
            ;
        }
        let chosen = choose|k: int| has_unit(num, den, k);
        lemma_unit_unique(num, den, k, chosen);
        if num == 0 {
            assert(n0 == 0) by (nonlinear_arith)
                requires
                    n0 == num * scale(0),
                    num == 0,
            ;
            assert(false);
        }
    }
    assert(p == 2 * half_p);
    let up: bool = rem > p / 2 || (rem == p / 2 && (sticky || m % 2 == 1));
    let m: u64 = m as u64;
    assert(half_even(n0, d) == if up {
        m + 1
    } else {
        m as int
    });
    if up {
        if m == 0x1f_ffff_ffff_ffff {
            Binary64 { mantissa: 0x10_0000_0000_0000, exponent: k0 + s + 1 }
        } else {
            Binary64 { mantissa: m + 1, exponent: k0 + s }
        }
    } else {
        Binary64 { mantissa: m, exponent: k0 + s }
    }
}

/// A common factor of the scaled numerator and denominator drops out of what
/// [`round`] asks for.
pub proof fn lemma_reduced(num: nat, den: nat, c: nat, k0: int, x: nat, y: nat)
    requires
        den > 0,
        c > 0,
        y > 0,
        num * scale(0) == x * c,
        den * scale(k0) == y * c,
    ensures
        (num * scale(0)) / (den * scale(k0)) == x / y,
        ((num * scale(0)) % (den * scale(k0)) != 0) == (x % y != 0),
{
    lemma_common_factor(x, y, c);
    assert((x % y) * c != 0 <==> x % y != 0) by (nonlinear_arith)
        requires
            c > 0,
            x % y >= 0,
    ;
}

impl Binary64 {
    /// The integer `n`, rounded to 53 bits.
    pub fn from_u64(n: u64) -> (r: Binary64)
        ensures
            r == integer(n as nat),
            r.within(64),
            n > 0 ==> r.mantissa > 0,
    {
        if n == 0 {
            return Binary64 { mantissa: 0, exponent: 0 };
        }
        let q: u128 = n as u128 * 0x20_0000_0000_0000;
        proof {
            lemma_pow2_small();
            lemma_scale_adds(-53, 53);
            let c = scale(-53);
            assert(n * scale(0) == q as nat * c) by (nonlinear_arith)
                requires
                    q == n * 0x20_0000_0000_0000,
                    scale(0) == c * 0x20_0000_0000_0000,
            ;
            assert(1 * scale(-53) == 1 * c) by (nonlinear_arith)
                requires
                    c == scale(-53),
            ;
            lemma_reduced(n as nat, 1, c, -53, q as nat, 1);
        }
        round(q, false, -53, Ghost(n as nat), Ghost(1))
    }

    /// The product of two values.
    pub fn product(self, other: Binary64) -> (r: Binary64)
        requires
            self.within(2900),
            other.within(2900),
        ensures
            r == self.times(other),
            r.within(5900),
            self.mantissa > 0 && other.mantissa > 0 ==> r.mantissa > 0 && self.exponent
                + other.exponent <= r.exponent <= self.exponent + other.exponent + 77,
            self.mantissa == 0 || other.mantissa == 0 ==> r.mantissa == 0,
    {
        let ghost num = self.num() * other.num();
        let ghost den = self.den() * other.den();
        if self.mantissa == 0 || other.mantissa == 0 {
            proof {
                assert(num == 0) by (nonlinear_arith)
                    requires
                        self.mantissa == 0 || other.mantissa == 0,
                        num == (self.mantissa as nat * scale(self.exponent as int)) * (
                        other.mantissa as nat * scale(other.exponent as int)),
                ;
            }
            return Binary64 { mantissa: 0, exponent: 0 };
        }
        assert(self.mantissa as nat * other.mantissa as nat
            <= 0x1f_ffff_ffff_ffff * 0x1f_ffff_ffff_ffff) by (nonlinear_arith)
            requires
                self.mantissa < 0x20_0000_0000_0000,
                other.mantissa < 0x20_0000_0000_0000,
        ;
        let q: u128 = self.mantissa as u128 * other.mantissa as u128;
        let k0: i32 = self.exponent + other.exponent;
        proof {
            assert(q >= 0x10_0000_0000_0000 * 0x10_0000_0000_0000) by (nonlinear_arith)
                requires
                    q == self.mantissa as nat * other.mantissa as nat,
                    self.mantissa >= 0x10_0000_0000_0000,
                    other.mantissa >= 0x10_0000_0000_0000,
            ;
            let sa = scale(self.exponent as int);
            let sb = scale(other.exponent as int);
            let s0 = scale(0);
            let c = sa * sb * s0;
            let a = (self.exponent + bias()) as nat;
            let b = (other.exponent + bias()) as nat;
            lemma_pow2_adds(a, b);
            lemma_pow2_adds(bias() as nat, (k0 + bias()) as nat);
            lemma_pow2_pos(a);
            lemma_pow2_pos(b);
            lemma_pow2_pos(bias() as nat);
            assert(sa * sb == s0 * scale(k0 as int));
            assert(c > 0) by (nonlinear_arith)
                requires
                    sa > 0,
                    sb > 0,
                    s0 > 0,
                    c == sa * sb * s0,
            ;
            assert(num * s0 == q as nat * c) by (nonlinear_arith)
                requires
                    num == (self.mantissa as nat * sa) * (other.mantissa as nat * sb),
                    q == self.mantissa as nat * other.mantissa as nat,
                    c == sa * sb * s0,
            ;
            assert(den * scale(k0 as int) == 1 * c) by (nonlinear_arith)
                requires
                    den == s0 * s0,
                    sa * sb == s0 * scale(k0 as int),
                    c == sa * sb * s0,
            ;
            assert(den > 0) by (nonlinear_arith)
                requires
                    den == s0 * s0,
                    s0 > 0,
            ;
            lemma_reduced(num, den, c, k0 as int, q as nat, 1);
        }
        round(q, false, k0, Ghost(num), Ghost(den))
    }

    /// The quotient of two values.
    pub fn quotient(self, other: Binary64) -> (r: Binary64)
        requires
            self.within(2900),
            other.within(2900),
            other.mantissa > 0,
        ensures
            r == self.over(other),
            r.within(5900),
            self.mantissa > 0 ==> r.mantissa > 0 && self.exponent - other.exponent - 64
                <= r.exponent <= self.exponent - other.exponent + 13,
            self.mantissa == 0 ==> r.mantissa == 0,
    {
        let ghost num = self.num() * other.den();
        let ghost den = self.den() * other.num();
        if self.mantissa == 0 {
            proof {
                assert(num == 0) by (nonlinear_arith)
                    requires
                        self.mantissa == 0,
                        num == (self.mantissa as nat * scale(self.exponent as int)) * scale(0),
                ;
            }
            return Binary64 { mantissa: 0, exponent: 0 };
        }
        let x: u128 = self.mantissa as u128 * 0x1_0000_0000_0000_0000;
        let y: u128 = other.mantissa as u128;
        let q: u128 = x / y;
        let sticky: bool = x % y != 0;
        let k0: i32 = self.exponent - other.exponent - 64;
        proof {
            assert(q >= 0x20_0000_0000_0000) by (nonlinear_arith)
                requires
                    q == x / y,
                    x >= 0x10_0000_0000_0000 * 0x1_0000_0000_0000_0000,
                    0 < y < 0x20_0000_0000_0000,
            ;
            lemma_pow2_small();
            let sa = scale(self.exponent as int);
            let sb = scale(other.exponent as int);
            let s0 = scale(0);
            let sk = scale(k0 as int);
            let c = s0 * sb * sk;
            let b = (other.exponent + bias()) as nat;
            let e = (k0 + bias()) as nat;
            lemma_pow2_pos(b);
            lemma_pow2_pos(e);
            lemma_pow2_pos(bias() as nat);
            lemma_pow2_adds(b, e);
            lemma_pow2_adds(b + e, 64);
            lemma_pow2_adds((self.exponent + bias()) as nat, bias() as nat);
            assert(sb * sk * pow2(64) == sa * s0);
            assert(c > 0) by (nonlinear_arith)
                requires
                    sb > 0,
                    sk > 0,
                    s0 > 0,
                    c == s0 * sb * sk,
            ;
            assert(num * s0 == x as nat * c) by (nonlinear_arith)
                requires
                    num == (self.mantissa as nat * sa) * s0,
                    x == self.mantissa as nat * pow2(64),
                    sb * sk * pow2(64) == sa * s0,
                    c == s0 * sb * sk,
            ;
            assert(den * sk == y as nat * c) by (nonlinear_arith)
                requires
                    den == s0 * (other.mantissa as nat * sb),
                    y == other.mantissa as nat,
                    c == s0 * sb * sk,
            ;
            assert(den > 0) by (nonlinear_arith)
                requires
                    den == s0 * (other.mantissa as nat * sb),
                    s0 > 0,
                    sb > 0,
                    other.mantissa as nat > 0,
            ;
            lemma_reduced(num, den, c, k0 as int, x as nat, y as nat);
        }
        round(q, sticky, k0, Ghost(num), Ghost(den))
    }
}

/// Twice the smaller of two values that lie at least 64 binades apart does
/// not reach one unit of the larger: the sum rounds back to the larger.
proof fn lemma_sum_absorbs(a: Binary64, b: Binary64)
    requires
        0x10_0000_0000_0000 <= a.mantissa < 0x20_0000_0000_0000,
        b.mantissa < 0x20_0000_0000_0000,
        -bias() <= b.exponent,
        b.exponent + 64 <= a.exponent < i32::MAX,
    ensures
        a.plus(b) == a,
        b.plus(a) == a,
{
    let num = a.num() * b.den() + b.num() * a.den();
    let den = a.den() * b.den();
    let k = a.exponent as int;
    let s0 = scale(0);
    let sa = scale(k);
    let sb = scale(b.exponent as int);
    let s = (a.exponent - b.exponent) as nat;
    lemma_pow2_small();
    lemma_scale_adds(b.exponent as int, s);
    lemma_scale_adds(0, 0);
    lemma_pow2_adds(64, (s - 64) as nat);
    lemma_pow2_pos((s - 64) as nat);
    let p = pow2(s);
    assert(p >= pow2(64)) by (nonlinear_arith)
        requires
            p == pow2(64) * pow2((s - 64) as nat),
            pow2((s - 64) as nat) >= 1,
    ;
    // num * s0 == a.mantissa * (den * sa) + rest, with rest below half of den * sa.
    let d = den * sa;
    let rest = b.mantissa as nat * sb * s0 * s0;
    assert(num * s0 == a.mantissa as nat * d + rest) by (nonlinear_arith)
        requires
            num == (a.mantissa as nat * sa) * s0 + (b.mantissa as nat * sb) * s0,
            d == (s0 * s0) * sa,
            rest == b.mantissa as nat * sb * s0 * s0,
    ;
    assert(d == p * (sb * s0 * s0)) by (nonlinear_arith)
        requires
            d == (s0 * s0) * sa,
            sa == sb * p,
    ;
    let w = sb * s0 * s0;
    assert(w > 0) by (nonlinear_arith)
        requires
            w == sb * s0 * s0,
            sb > 0,
            s0 > 0,
    ;
    assert(rest == b.mantissa as nat * w) by (nonlinear_arith)
        requires
            rest == b.mantissa as nat * sb * s0 * s0,
            w == sb * s0 * s0,
    ;
    assert(2 * rest < d) by (nonlinear_arith)
        requires
            rest == b.mantissa as nat * w,
            d == p * w,
            w > 0,
            b.mantissa < 0x20_0000_0000_0000,
            p >= 0x1_0000_0000_0000_0000,
    ;
    lemma_fundamental_div_mod_converse(
        (num * s0) as int,
        d as int,
        a.mantissa as int,
        rest as int,
    );
    assert(has_unit(num, den, k)) by {
        assert(pow2(52) * d <= num * s0) by (nonlinear_arith)
            requires
                num * s0 == a.mantissa as nat * d + rest,
                a.mantissa >= pow2(52),
                d >= 0,
                rest >= 0,
        ;
        assert(num * s0 < pow2(53) * d) by (nonlinear_arith)
            requires
                num * s0 == a.mantissa as nat * d + rest,
                a.mantissa + 1 <= pow2(53),
                d > 0,
                rest < d,
        ;
    }
    assert(den > 0) by (nonlinear_arith)
        requires
            den == s0 * s0,
            s0 > 0,
    ;
    lemma_unit_unique(num, den, k, choose|k: int| has_unit(num, den, k));
    assert(num > 0) by (nonlinear_arith)
        requires
            num * s0 >= pow2(52) * d,
            pow2(52) > 0,
            d > 0,
    ;
    assert(a.plus(b) == a);
    assert(b.num() * a.den() + a.num() * b.den() == num);
    assert(b.den() * a.den() == den);
}

/// Adding zero changes nothing.
proof fn lemma_sum_zero(a: Binary64, b: Binary64)
    requires
        a.within(2900),
        b.mantissa == 0 && b.exponent == 0,
    ensures
        a.plus(b) == a,
        b.plus(a) == a,
{
    if a.mantissa == 0 {
        assert(a.num() * b.den() + b.num() * a.den() == 0) by (nonlinear_arith)
            requires
                a.num() == 0 * scale(0),
                b.num() == 0 * scale(0),
        ;
        assert(b.num() * a.den() + a.num() * b.den() == 0) by (nonlinear_arith)
            requires
                a.num() == 0 * scale(0),
                b.num() == 0 * scale(0),
        ;
    } else {
        let low = Binary64 { mantissa: 0, exponent: (a.exponent - 64) as i32 };
        lemma_sum_absorbs(a, low);
        assert(low.num() == 0) by (nonlinear_arith)
            requires
                low.num() == 0 * scale(low.exponent as int),
        ;
        assert(b.num() == 0) by (nonlinear_arith)
            requires
                b.num() == 0 * scale(0),
        ;
    }
}

/// The sum of two values less than 64 binades apart, the first no smaller in
/// exponent than the second.
fn sum_aligned(a: Binary64, b: Binary64) -> (r: Binary64)
    requires
        0x10_0000_0000_0000 <= a.mantissa < 0x20_0000_0000_0000,
        0x10_0000_0000_0000 <= b.mantissa < 0x20_0000_0000_0000,
        -5800 <= b.exponent <= a.exponent <= 5800,
        a.exponent - b.exponent < 64,
    ensures
        r == a.plus(b),
        r == b.plus(a),
        0x10_0000_0000_0000 <= r.mantissa < 0x20_0000_0000_0000,
        b.exponent <= r.exponent <= b.exponent + 77,
{
    let ghost num = a.num() * b.den() + b.num() * a.den();
    let ghost den = a.den() * b.den();
    let s: i32 = a.exponent - b.exponent;
    let mut p: u128 = 1;
    let mut i: i32 = 0;
    proof {
        lemma_pow2_small();
    }
    while i < s
        invariant
            0 <= i <= s < 64,
            p == pow2(i as nat),
            1 <= p <= 0x8000_0000_0000_0000,
        decreases s - i,
    {
        proof {
            lemma_pow2_small();
            lemma_pow2_adds(i as nat, 1);
            lemma2_to64_rest();
            lemma2_to64();
            if i + 1 < 63 {
                lemma_pow2_strictly_increases((i + 1) as nat, 63);
            }
        }
        p = p * 2;
        i = i + 1;
    }
    assert(a.mantissa as nat * p <= 0x1f_ffff_ffff_ffff * 0x8000_0000_0000_0000)
        by (nonlinear_arith)
        requires
            a.mantissa < 0x20_0000_0000_0000,
            1 <= p <= 0x8000_0000_0000_0000,
    ;
    assert(a.mantissa as nat * p >= a.mantissa) by (nonlinear_arith)
        requires
            p >= 1,
            a.mantissa >= 0,
    ;
    let q: u128 = a.mantissa as u128 * p + b.mantissa as u128;
    proof {
        let sa = scale(a.exponent as int);
        let sb = scale(b.exponent as int);
        let s0 = scale(0);
        lemma_scale_adds(b.exponent as int, s as nat);
        lemma_scale_adds(0, 0);
        let c = sb * s0 * s0;
        assert(c > 0) by (nonlinear_arith)
            requires
                sb > 0,
                s0 > 0,
                c == sb * s0 * s0,
        ;
        assert(num * s0 == q as nat * c) by (nonlinear_arith)
            requires
                num == (a.mantissa as nat * sa) * s0 + (b.mantissa as nat * sb) * s0,
                q == a.mantissa as nat * p + b.mantissa,
                sa == sb * p,
                c == sb * s0 * s0,
        ;
        assert(den * sb == 1 * c) by (nonlinear_arith)
            requires
                den == s0 * s0,
                c == sb * s0 * s0,
        ;
        assert(den > 0) by (nonlinear_arith)
            requires
                den == s0 * s0,
                s0 > 0,
        ;
        lemma_reduced(num, den, c, b.exponent as int, q as nat, 1);
        assert(b.num() * a.den() + a.num() * b.den() == num);
        assert(b.den() * a.den() == den);
    }
    round(q, false, b.exponent, Ghost(num), Ghost(den))
}

impl Binary64 {
    /// The sum of two values.
    pub fn sum(self, other: Binary64) -> (r: Binary64)
        requires
            self.within(2900),
            other.within(2900),
        ensures
            r == self.plus(other),
            r.within(2977),
            self.mantissa == 0 ==> r == other,
            other.mantissa == 0 ==> r == self,
            self.mantissa > 0 && other.mantissa > 0 ==> r.mantissa > 0 && (r.exponent
                >= self.exponent || r.exponent >= other.exponent) && (r.exponent <= self.exponent
                + 77 || r.exponent <= other.exponent + 77),
    {
        if other.mantissa == 0 {
            proof {
                lemma_sum_zero(self, other);
            }
            self
        } else if self.mantissa == 0 {
            proof {
                lemma_sum_zero(other, self);
            }
            other
        } else if self.exponent >= other.exponent {
            if self.exponent - other.exponent >= 64 {
                proof {
                    lemma_sum_absorbs(self, other);
                }
                self
            } else {
                sum_aligned(self, other)
            }
        } else {
            if other.exponent - self.exponent >= 64 {
                proof {
                    lemma_sum_absorbs(other, self);
                }
                other
            } else {
                sum_aligned(other, self)
            }
        }
    }
}

/// A value with a sign.
#[derive(Debug, Clone, Copy, PartialEq, Eq, Structural)]
pub struct SignedBinary64 {
    /// Whether the value is below zero.
    pub negative: bool,
    /// The absolute value.
    pub magnitude: Binary64,
}

/// The difference of two values.
pub open spec fn minus(a: Binary64, b: Binary64) -> SignedBinary64 {
    let x = a.num() * b.den();
    let y = b.num() * a.den();
    let d = a.den() * b.den();
    if x >= y {
        SignedBinary64 { negative: false, magnitude: nearest((x - y) as nat, d) }
    } else {
        SignedBinary64 { negative: true, magnitude: nearest((y - x) as nat, d) }
    }
}

/// Taking a value at least 64 binades lower away rounds back to the larger.
proof fn lemma_difference_absorbs(a: Binary64, b: Binary64)
    requires
        0x10_0000_0000_0000 <= a.mantissa < 0x20_0000_0000_0000,
        0 < b.mantissa < 0x20_0000_0000_0000,
        -bias() <= b.exponent,
        b.exponent + 64 <= a.exponent <= 5000,
    ensures
        a.num() * b.den() > b.num() * a.den(),
        nearest((a.num() * b.den() - b.num() * a.den()) as nat, a.den() * b.den()) == a,
{
    let s0 = scale(0);
    let sa = scale(a.exponent as int);
    let sb = scale(b.exponent as int);
    let s = (a.exponent - b.exponent) as nat;
    let m = a.mantissa as nat;
    let x = a.num() * s0;
    let y = b.num() * s0;
    let den = s0 * s0;
    lemma_pow2_small();
    lemma_scale_adds(b.exponent as int, s);
    lemma_scale_adds(0, 0);
    lemma_pow2_adds(64, (s - 64) as nat);
    lemma_pow2_pos((s - 64) as nat);
    let p = pow2(s);
    assert(p >= pow2(64)) by (nonlinear_arith)
        requires
            p == pow2(64) * pow2((s - 64) as nat),
            pow2((s - 64) as nat) >= 1,
    ;
    let w = sb * s0 * s0;
    let d = den * sa;
    let rest = b.mantissa as nat * w;
    assert(w > 0) by (nonlinear_arith)
        requires
            w == sb * s0 * s0,
            sb > 0,
            s0 > 0,
    ;
    assert(d == p * w) by (nonlinear_arith)
        requires
            d == (s0 * s0) * sa,
            sa == sb * p,
            w == sb * s0 * s0,
    ;
    assert(4 * rest < d) by (nonlinear_arith)
        requires
            rest == b.mantissa as nat * w,
            d == p * w,
            w > 0,
            b.mantissa < 0x20_0000_0000_0000,
            p >= 0x1_0000_0000_0000_0000,
    ;
    assert(x * s0 == m * d) by (nonlinear_arith)
        requires
            x == (m * sa) * s0,
            d == (s0 * s0) * sa,
    ;
    assert(y * s0 == rest) by (nonlinear_arith)
        requires
            y == (b.mantissa as nat * sb) * s0,
            rest == b.mantissa as nat * w,
            w == sb * s0 * s0,
    ;
    assert(rest > 0) by (nonlinear_arith)
        requires
            rest == b.mantissa as nat * w,
            b.mantissa > 0,
            w > 0,
    ;
    assert(d > 0);
    assert(m * d >= d) by (nonlinear_arith)
        requires
            m >= 1,
            d >= 0,
    ;
    assert(x > y) by (nonlinear_arith)
        requires
            x * s0 > y * s0,
            s0 > 0,
    ;
    let num = (x - y) as nat;
    let n = num * s0;
    assert(n == m * d - rest) by (nonlinear_arith)
        requires
            n == (x - y) * s0,
            x * s0 == m * d,
            y * s0 == rest,
    ;
    assert(den > 0) by (nonlinear_arith)
        requires
            den == s0 * s0,
            s0 > 0,
    ;
    if m > 0x10_0000_0000_0000 {
        let k = a.exponent as int;
        assert(n == (m - 1) * d + (d - rest)) by (nonlinear_arith)
            requires
                n == m * d - rest,
        ;
        lemma_fundamental_div_mod_converse(n as int, d as int, m - 1, d - rest);
        assert(half_even(n, d) == m);
        assert(pow2(52) * d <= n) by (nonlinear_arith)
            requires
                n == (m - 1) * d + (d - rest),
                d - rest >= 0,
                m - 1 >= pow2(52),
                d >= 0,
        ;
        assert(n < pow2(53) * d) by (nonlinear_arith)
            requires
                n == m * d - rest,
                rest > 0,
                m <= pow2(53),
                d >= 0,
        ;
        assert(has_unit(num, den, k));
        lemma_unit_unique(num, den, k, choose|k: int| has_unit(num, den, k));
    } else {
        let k = a.exponent - 1;
        lemma_scale_adds(k, 1);
        let h = den * scale(k);
        assert(d == 2 * h) by (nonlinear_arith)
            requires
                d == den * sa,
                h == den * scale(k),
                sa == scale(k) * 2,
        ;
        let top = pow2(53);
        assert(n == (top - 1) * h + (h - rest)) by (nonlinear_arith)
            requires
                n == m * d - rest,
                d == 2 * h,
                top == 2 * m,
        ;
        lemma_fundamental_div_mod_converse(n as int, h as int, top - 1, h - rest);
        assert(half_even(n, h) == top);
        assert(pow2(52) * h <= n) by (nonlinear_arith)
            requires
                n == (top - 1) * h + (h - rest),
                h - rest >= 0,
                top - 1 >= pow2(52),
                h >= 0,
        ;
        assert(n < pow2(53) * h) by (nonlinear_arith)
            requires
                n == (top - 1) * h + (h - rest),
                rest > 0,
                top == pow2(53),
        ;
        assert(has_unit(num, den, k));
        lemma_unit_unique(num, den, k, choose|k: int| has_unit(num, den, k));
    }
    assert(num > 0);
}

/// The difference of two values less than 64 binades apart, the first no
/// smaller in exponent than the second. The sign says whether the second is
/// the larger.
fn difference_aligned(a: Binary64, b: Binary64) -> (r: SignedBinary64)
    requires
        0x10_0000_0000_0000 <= a.mantissa < 0x20_0000_0000_0000,
        0x10_0000_0000_0000 <= b.mantissa < 0x20_0000_0000_0000,
        -5800 <= b.exponent <= a.exponent <= 5800,
        a.exponent - b.exponent < 64,
    ensures
        r == minus(a, b),
        r.magnitude.mantissa == 0 <==> a.num() * b.den() == b.num() * a.den(),
{
    let ghost x = a.num() * b.den();
    let ghost y = b.num() * a.den();
    let ghost den = a.den() * b.den();
    let s: i32 = a.exponent - b.exponent;
    let mut p: u128 = 1;
    let mut i: i32 = 0;
    proof {
        lemma_pow2_small();
    }
    while i < s
        invariant
            0 <= i <= s < 64,
            p == pow2(i as nat),
            1 <= p <= 0x8000_0000_0000_0000,
        decreases s - i,
    {
        proof {
            lemma_pow2_small();
            lemma_pow2_adds(i as nat, 1);
            lemma2_to64_rest();
            lemma2_to64();
            if i + 1 < 63 {
                lemma_pow2_strictly_increases((i + 1) as nat, 63);
            }
        }
        p = p * 2;
        i = i + 1;
    }
    assert(a.mantissa as nat * p <= 0x1f_ffff_ffff_ffff * 0x8000_0000_0000_0000)
        by (nonlinear_arith)
        requires
            a.mantissa < 0x20_0000_0000_0000,
            1 <= p <= 0x8000_0000_0000_0000,
    ;
    let big: u128 = a.mantissa as u128 * p;
    let small: u128 = b.mantissa as u128;
    let negative: bool = big < small;
    let q: u128 = if negative {
        small - big
    } else {
        big - small
    };
    let ghost num: nat = if x >= y {
        (x - y) as nat
    } else {
        (y - x) as nat
    };
    let ghost s0 = scale(0);
    let ghost sb = scale(b.exponent as int);
    let ghost c = sb * s0 * s0;
    proof {
        let sa = scale(a.exponent as int);
        lemma_scale_adds(b.exponent as int, s as nat);
        lemma_scale_adds(0, 0);
        assert(c > 0) by (nonlinear_arith)
            requires
                sb > 0,
                s0 > 0,
                c == sb * s0 * s0,
        ;
        let u = sb * s0;
        assert(u > 0) by (nonlinear_arith)
            requires
                sb > 0,
                s0 > 0,
                u == sb * s0,
        ;
        assert(x == big as nat * u) by (nonlinear_arith)
            requires
                x == (a.mantissa as nat * sa) * s0,
                big == a.mantissa as nat * p,
                sa == sb * p,
                u == sb * s0,
        ;
        assert(y == small as nat * u) by (nonlinear_arith)
            requires
                y == (b.mantissa as nat * sb) * s0,
                small == b.mantissa as nat,
                u == sb * s0,
        ;
        assert(x >= y <==> big >= small) by (nonlinear_arith)
            requires
                x == big as nat * u,
                y == small as nat * u,
                u > 0,
        ;
        assert(num == q as nat * u) by (nonlinear_arith)
            requires
                x == big as nat * u,
                y == small as nat * u,
                num == if x >= y {
                    x - y
                } else {
                    y - x
                },
                q == if big >= small {
                    big - small
                } else {
                    small - big
                },
                x >= y <==> big >= small,
        ;
        assert(num * s0 == q as nat * c) by (nonlinear_arith)
            requires
                num == q as nat * u,
                u == sb * s0,
                c == sb * s0 * s0,
        ;
        assert(den * sb == 1 * c) by (nonlinear_arith)
            requires
                den == s0 * s0,
                c == sb * s0 * s0,
        ;
        assert(den > 0) by (nonlinear_arith)
            requires
                den == s0 * s0,
                s0 > 0,
        ;
    }
    if q == 0 {
        proof {
            assert(num == 0) by (nonlinear_arith)
                requires
                    num * s0 == 0 * c,
                    s0 > 0,
            ;
        }
        return SignedBinary64 { negative, magnitude: Binary64 { mantissa: 0, exponent: 0 } };
    }
    assert(num > 0) by (nonlinear_arith)
        requires
            num * s0 == q as nat * c,
            q > 0,
            c > 0,
    ;
    if q >= 0x20_0000_0000_0000 {
        proof {
            lemma_reduced(num, den, c, b.exponent as int, q as nat, 1);
        }
        SignedBinary64 { negative, magnitude: round(q, false, b.exponent, Ghost(num), Ghost(den)) }
    } else {
        let wide: u128 = q * 0x20_0000_0000_0000;
        let k0: i32 = b.exponent - 53;
        proof {
            lemma_pow2_small();
            lemma_scale_adds(k0 as int, 53);
            let sk = scale(k0 as int);
            let g = sk * s0 * s0;
            assert(g > 0) by (nonlinear_arith)
                requires
                    sk > 0,
                    s0 > 0,
                    g == sk * s0 * s0,
            ;
            assert(num * s0 == wide as nat * g) by (nonlinear_arith)
                requires
                    num * s0 == q as nat * c,
                    c == sb * s0 * s0,
                    sb == sk * 0x20_0000_0000_0000,
                    g == sk * s0 * s0,
                    wide == q * 0x20_0000_0000_0000,
            ;
            assert(den * sk == 1 * g) by (nonlinear_arith)
                requires
                    den == s0 * s0,
                    g == sk * s0 * s0,
            ;
            lemma_reduced(num, den, g, k0 as int, wide as nat, 1);
        }
        SignedBinary64 { negative, magnitude: round(wide, false, k0, Ghost(num), Ghost(den)) }
    }
}

impl Binary64 {
    /// The difference of two values.
    pub fn difference(self, other: Binary64) -> (r: SignedBinary64)
        requires
            self.within(2900),
            other.within(2900),
        ensures
            r == minus(self, other),
    {
        let ghost x = self.num() * other.den();
        let ghost y = other.num() * self.den();
        proof {
            lemma_scale_adds(0, 0);
            lemma_scale_adds(self.exponent as int, 0);
            lemma_scale_adds(other.exponent as int, 0);
            if other.mantissa == 0 {
                lemma_sum_zero(self, other);
                assert(y == 0) by (nonlinear_arith)
                    requires
                        y == (0 * scale(0)) * scale(0),
                ;
            }
            if self.mantissa == 0 {
                lemma_sum_zero(other, self);
                assert(x == 0) by (nonlinear_arith)
                    requires
                        x == (0 * scale(0)) * scale(0),
                ;
                if other.mantissa > 0 {
                    assert(y > 0) by (nonlinear_arith)
                        requires
                            y == (other.mantissa as nat * scale(other.exponent as int)) * scale(0),
                            other.mantissa > 0,
                            scale(other.exponent as int) > 0,
                            scale(0) > 0,
                    ;
                }
            }
        }
        if other.mantissa == 0 {
            SignedBinary64 { negative: false, magnitude: self }
        } else if self.mantissa == 0 {
            SignedBinary64 { negative: true, magnitude: other }
        } else if self.exponent >= other.exponent {
            if self.exponent - other.exponent >= 64 {
                proof {
                    lemma_difference_absorbs(self, other);
                }
                SignedBinary64 { negative: false, magnitude: self }
            } else {
                difference_aligned(self, other)
            }
        } else {
            if other.exponent - self.exponent >= 64 {
                proof {
                    lemma_difference_absorbs(other, self);
                    assert(self.den() * other.den() == other.den() * self.den());
                }
                SignedBinary64 { negative: true, magnitude: other }
            } else {
                let r: SignedBinary64 = difference_aligned(other, self);
                proof {
                    assert(self.den() * other.den() == other.den() * self.den());
                }
                SignedBinary64 {
                    negative: !r.negative && r.magnitude.mantissa != 0,
                    magnitude: r.magnitude,
                }
            }
        }
    }
}

/// A positive value lies in some binade.
pub proof fn lemma_unit_exists(num: nat, den: nat, k: int)
    requires
        den > 0,
        -bias() <= k,
        pow2(52) * (den * scale(k)) <= num * scale(0),
    ensures
        exists|k: int| has_unit(num, den, k),
    decreases num * scale(0) - den * scale(k),
{
    let n = num * scale(0);
    let d = den * scale(k);
    lemma_pow2_small();
    lemma_scale_adds(k, 1);
    assert(d > 0) by (nonlinear_arith)
        requires
            d == den * scale(k),
            den > 0,
            scale(k) > 0,
    ;
    if n < pow2(53) * d {
        assert(has_unit(num, den, k));
    } else {
        assert(den * scale(k + 1) == 2 * d) by (nonlinear_arith)
            requires
                scale(k + 1) == scale(k) * 2,
                d == den * scale(k),
        ;
        assert(pow2(52) * (2 * d) <= n) by (nonlinear_arith)
            requires
                pow2(53) * d <= n,
                pow2(53) == 2 * pow2(52),
        ;
        assert(n >= 2 * d) by (nonlinear_arith)
            requires
                pow2(52) * (2 * d) <= n,
                pow2(52) >= 1,
                d >= 0,
        ;
        lemma_unit_exists(num, den, k + 1);
    }
}

/// Rounding does not carry a value past `c * 2^e` where that bound itself
/// needs no more than 53 bits.
pub proof fn lemma_nearest_bounded(num: nat, den: nat, c: nat, e: int)
    requires
        den > 0,
        c < 0x20_0000_0000_0000,
        -bias() <= e <= 6000,
        num * scale(0) <= c * (den * scale(e)),
        exists|k: int| has_unit(num, den, k),
    ensures
        nearest(num, den).num() <= c * scale(e),
{
    lemma_pow2_small();
    let k = choose|k: int| has_unit(num, den, k);
    lemma_scale_adds(0, 0);
    if num == 0 {
        assert(nearest(num, den).num() == 0) by (nonlinear_arith)
            requires
                nearest(num, den).num() == 0 * scale(0),
        ;
        assert(0 <= c * scale(e)) by (nonlinear_arith)
            requires
                c >= 0,
                scale(e) >= 0,
        ;
        return ;
    }
    let n = num * scale(0);
    let d = den * scale(k);
    lemma_scale_adds(k, 0);
    lemma_scale_adds(e, 0);
    if k > e {
        let s = (k - e) as nat;
        lemma_scale_adds(e, s);
        lemma_pow2_adds(1, (s - 1) as nat);
        lemma_pow2_pos((s - 1) as nat);
        let w = den * scale(e);
        let p = pow2((s - 1) as nat);
        assert(w > 0) by (nonlinear_arith)
            requires
                w == den * scale(e),
                den > 0,
                scale(e) > 0,
        ;
        assert(d == w * (2 * p)) by (nonlinear_arith)
            requires
                d == den * scale(k),
                w == den * scale(e),
                scale(k) == scale(e) * (2 * p),
        ;
        assert(pow2(52) * d > c * w) by (nonlinear_arith)
            requires
                d == w * (2 * p),
                p >= 1,
                w > 0,
                c < 2 * pow2(52),
        ;
        assert(false);
    }
    let s = (e - k) as nat;
    lemma_scale_adds(k, s);
    let z = c * pow2(s);
    assert(n <= z * d) by (nonlinear_arith)
        requires
            n <= c * (den * scale(e)),
            scale(e) == scale(k) * pow2(s),
            z == c * pow2(s),
            d == den * scale(k),
    ;
    assert(d > 0) by (nonlinear_arith)
        requires
            d == den * scale(k),
            den > 0,
            scale(k) > 0,
    ;
    lemma_fundamental_div_mod(n as int, d as int);
    let q = n / d;
    let r = n % d;
    assert(q < z || (q == z && r == 0)) by (nonlinear_arith)
        requires
            n == d * q + r,
            0 <= r < d,
            n <= z * d,
    ;
    let m = half_even(n, d);
    assert(m <= z);
    lemma_scale_adds(k, 1);
    assert(m <= pow2(53)) by {
        assert(q < pow2(53)) by (nonlinear_arith)
            requires
                n == d * q + r,
                0 <= r,
                n < pow2(53) * d,
                d > 0,
        ;
    }
    assert(pow2(52) * scale(k + 1) == pow2(53) * scale(k)) by (nonlinear_arith)
        requires
            scale(k + 1) == scale(k) * pow2(1),
            pow2(53) == pow2(52) * pow2(1),
    ;
    assert(nearest(num, den).num() == m * scale(k));
    assert(m * scale(k) <= c * scale(e)) by (nonlinear_arith)
        requires
            m <= z,
            z == c * pow2(s),
            scale(e) == scale(k) * pow2(s),
            scale(k) >= 0,
    ;
}

/// Rounding does not carry a value below a power of two that it reaches.
pub proof fn lemma_nearest_at_least(num: nat, den: nat, e: int, limit: nat)
    requires
        den > 0,
        -bias() <= e,
        limit <= 5000,
        den * scale(e) <= num * scale(0),
        num < den * pow2(limit),
        exists|k: int| has_unit(num, den, k),
    ensures
        nearest(num, den).num() >= scale(e),
{
    lemma_pow2_small();
    let k = choose|k: int| has_unit(num, den, k);
    let n = num * scale(0);
    let d = den * scale(k);
    lemma_scale_adds(0, 0);
    lemma_scale_adds(k, 0);
    lemma_scale_adds(e, 0);
    assert(d > 0) by (nonlinear_arith)
        requires
            d == den * scale(k),
            den > 0,
            scale(k) > 0,
    ;
    assert(num > 0) by (nonlinear_arith)
        requires
            den * scale(e) <= num * scale(0),
            den > 0,
            scale(e) > 0,
    ;
    if k > limit {
        lemma_scale_adds(0, limit);
        lemma_scale_adds(limit as int, (k - limit) as nat);
        lemma_pow2_pos((k - limit) as nat);
        let p = pow2((k - limit) as nat);
        assert(d >= den * pow2(limit) * scale(0)) by (nonlinear_arith)
            requires
                d == den * scale(k),
                scale(k) == scale(limit as int) * p,
                scale(limit as int) == scale(0) * pow2(limit),
                p >= 1,
                den >= 0,
        ;
        assert(n < den * pow2(limit) * scale(0)) by (nonlinear_arith)
            requires
                n == num * scale(0),
                num < den * pow2(limit),
                scale(0) > 0,
        ;
        assert(pow2(52) * d >= d) by (nonlinear_arith)
            requires
                pow2(52) >= 1,
                d >= 0,
        ;
        assert(false);
    }
    lemma_fundamental_div_mod(n as int, d as int);
    let q = n / d;
    let r = n % d;
    let m = half_even(n, d);
    assert(m <= pow2(53)) by {
        assert(q < pow2(53)) by (nonlinear_arith)
            requires
                n == d * q + r,
                0 <= r,
                n < pow2(53) * d,
                d > 0,
        ;
    }
    lemma_scale_adds(k, 1);
    assert(pow2(52) * scale(k + 1) == pow2(53) * scale(k)) by (nonlinear_arith)
        requires
            scale(k + 1) == scale(k) * pow2(1),
            pow2(53) == pow2(52) * pow2(1),
    ;
    assert(nearest(num, den).num() == m * scale(k));
    if k >= e {
        lemma_scale_adds(e, (k - e) as nat);
        lemma_pow2_pos((k - e) as nat);
        let p = pow2((k - e) as nat);
        assert(q >= 1) by (nonlinear_arith)
            requires
                n == d * q + r,
                0 <= r < d,
                n >= pow2(52) * d,
                pow2(52) >= 1,
                d > 0,
        ;
        assert(m * scale(k) >= scale(e)) by (nonlinear_arith)
            requires
                m >= 1,
                scale(k) == scale(e) * p,
                p >= 1,
                scale(e) >= 0,
        ;
    } else {
        let s = (e - k) as nat;
        lemma_scale_adds(k, s);
        let z = pow2(s);
        assert(q >= z) by (nonlinear_arith)
            requires
                n == d * q + r,
                0 <= r < d,
                n >= den * scale(e),
                scale(e) == scale(k) * z,
                d == den * scale(k),
        ;
        assert(m * scale(k) >= scale(e)) by (nonlinear_arith)
            requires
                m >= z,
                scale(e) == scale(k) * z,
                scale(k) >= 0,
        ;
    }
}

/// The rounded value in units of the binade that holds the exact one.
pub proof fn lemma_nearest_value(num: nat, den: nat, k: int)
    requires
        den > 0,
        num > 0,
        has_unit(num, den, k),
        k <= 6000,
    ensures
        nearest(num, den).num() == half_even(num * scale(0), den * scale(k)) * scale(k),
        pow2(52) <= half_even(num * scale(0), den * scale(k)) <= pow2(53),
{
    lemma_pow2_small();
    lemma_unit_unique(num, den, k, choose|k: int| has_unit(num, den, k));
    let n = num * scale(0);
    let d = den * scale(k);
    lemma_scale_adds(k, 1);
    assert(d > 0) by (nonlinear_arith)
        requires
            d == den * scale(k),
            den > 0,
            scale(k) > 0,
    ;
    lemma_fundamental_div_mod(n as int, d as int);
    let q = n / d;
    let r = n % d;
    assert(pow2(52) <= q < pow2(53)) by (nonlinear_arith)
        requires
            n == d * q + r,
            0 <= r < d,
            pow2(52) * d <= n < pow2(53) * d,
            d > 0,
    ;
    assert(pow2(52) * scale(k + 1) == pow2(53) * scale(k)) by (nonlinear_arith)
        requires
            scale(k + 1) == scale(k) * pow2(1),
            pow2(53) == pow2(52) * pow2(1),
    ;
}

/// The rounded value does not depend on how the fraction is written.
pub proof fn lemma_nearest_scales(num: nat, den: nat, c: nat)
    requires
        den > 0,
        c > 0,
        exists|k: int| has_unit(num, den, k),
    ensures
        nearest(num * c, den * c) == nearest(num, den),
{
    let k = choose|k: int| has_unit(num, den, k);
    let n = num * scale(0);
    let d = den * scale(k);
    lemma_pow2_small();
    lemma_scale_adds(k, 0);
    assert((num * c) * scale(0) == n * c) by (nonlinear_arith)
        requires
            n == num * scale(0),
    ;
    assert((den * c) * scale(k) == d * c) by (nonlinear_arith)
        requires
            d == den * scale(k),
    ;
    assert(pow2(52) * (d * c) <= n * c && n * c < pow2(53) * (d * c)) by (nonlinear_arith)
        requires
            pow2(52) * d <= n,
            n < pow2(53) * d,
            c > 0,
    ;
    assert(den * c > 0 && d > 0) by (nonlinear_arith)
        requires
            den > 0,
            c > 0,
            d == den * scale(k),
            scale(k) > 0,
    ;
    let (top, bottom) = (num * c, den * c);
    assert(has_unit(top, bottom, k));
    lemma_unit_unique(top, bottom, k, choose|k: int| has_unit(top, bottom, k));
    lemma_half_even_scales(n, d, c);
    assert(num * c == 0 <==> num == 0) by (nonlinear_arith)
        requires
            c > 0,
    ;
}

/// A value of exactly 53 bits is its own rounding.
pub proof fn lemma_nearest_exact(num: nat, den: nat, x: Binary64)
    requires
        den > 0,
        0x10_0000_0000_0000 <= x.mantissa < 0x20_0000_0000_0000,
        -bias() <= x.exponent,
        num * x.den() == x.num() * den,
    ensures
        nearest(num, den) == x,
{
    let m = x.mantissa as nat;
    let k = x.exponent as int;
    let a = scale(k);
    let n = num * scale(0);
    let d = den * a;
    lemma_pow2_small();
    lemma_scale_adds(k, 0);
    assert(d > 0) by (nonlinear_arith)
        requires
            d == den * a,
            den > 0,
            a > 0,
    ;
    assert(n == m * d) by (nonlinear_arith)
        requires
            n == (m * a) * den,
            d == den * a,
    ;
    lemma_fundamental_div_mod_converse(n as int, d as int, m as int, 0);
    assert(pow2(52) * d <= m * d && m * d < pow2(53) * d) by (nonlinear_arith)
        requires
            pow2(52) <= m < pow2(53),
            d > 0,
    ;
    assert(has_unit(num, den, k));
    lemma_unit_unique(num, den, k, choose|k: int| has_unit(num, den, k));
    assert(m * d > 0) by (nonlinear_arith)
        requires
            m > 0,
            d > 0,
    ;
    assert(num > 0) by (nonlinear_arith)
        requires
            num * scale(0) > 0,
    ;
}

/// A rounded value has 53 bits, and an exponent that the exact value bounds.
pub proof fn lemma_nearest_within(num: nat, den: nat, low: int, high: int)
    requires
        den > 0,
        -4000 <= low <= high <= 4000,
        den * scale(low) <= num * scale(0),
        num * scale(0) < den * scale(high),
        exists|k: int| has_unit(num, den, k),
    ensures
        0x10_0000_0000_0000 <= nearest(num, den).mantissa < 0x20_0000_0000_0000,
        low - 53 < nearest(num, den).exponent <= high - 51,
{
    let k = choose|k: int| has_unit(num, den, k);
    let n = num * scale(0);
    lemma_pow2_small();
    lemma_scale_adds(low, 0);
    lemma_scale_adds(k, 52);
    lemma_scale_adds(k, 53);
    if k + 53 <= low {
        lemma_scale_adds(k + 53, (low - k - 53) as nat);
        lemma_pow2_pos((low - k - 53) as nat);
        let p = pow2((low - k - 53) as nat);
        assert(false) by (nonlinear_arith)
            requires
                n < pow2(53) * (den * scale(k)),
                scale(low) == (scale(k) * pow2(53)) * p,
                den * scale(low) <= n,
                p >= 1,
                den > 0,
                scale(k) > 0,
                pow2(53) > 0,
        ;
    }
    if k + 52 >= high {
        lemma_scale_adds(high, (k + 52 - high) as nat);
        lemma_pow2_pos((k + 52 - high) as nat);
        let p = pow2((k + 52 - high) as nat);
        assert(false) by (nonlinear_arith)
            requires
                pow2(52) * (den * scale(k)) <= n,
                scale(k) * pow2(52) == scale(high) * p,
                n < den * scale(high),
                p >= 1,
                den > 0,
                scale(high) >= 0,
        ;
    }
    assert(num > 0) by (nonlinear_arith)
        requires
            num * scale(0) >= den * scale(low),
            den > 0,
            scale(low) > 0,
    ;
    lemma_nearest_value(num, den, k);
}

/// Values of 53 bits that are equal are the same.
pub proof fn lemma_same_value(a: Binary64, b: Binary64)
    requires
        a.within(2900),
        b.within(2900),
        a.num() == b.num(),
    ensures
        a == b,
{
    if a.mantissa == 0 || b.mantissa == 0 {
        lemma_zero_or_positive(a);
        lemma_zero_or_positive(b);
    } else if a.exponent < b.exponent {
        lemma_lower_binade(a, b);
    } else if b.exponent < a.exponent {
        lemma_lower_binade(b, a);
    } else {
        let s = scale(a.exponent as int);
        lemma_scale_adds(a.exponent as int, 0);
        let (m, n) = (a.mantissa as nat, b.mantissa as nat);
        assert(m == n) by (nonlinear_arith)
            requires
                m * s == n * s,
                s > 0,
        ;
    }
}

/// Rounding keeps the order of values.
pub proof fn lemma_nearest_rises(low: nat, high: nat, den: nat)
    requires
        den > 0,
        low <= high < den * pow2(5000),
        low > 0 ==> exists|k: int| has_unit(low, den, k),
        high > 0 ==> exists|k: int| has_unit(high, den, k),
    ensures
        nearest(low, den).num() <= nearest(high, den).num(),
{
    if low == 0 {
        assert(nearest(low, den).num() == 0) by (nonlinear_arith)
            requires
                nearest(low, den).num() == 0 * scale(0),
        ;
        return ;
    }
    let j = choose|k: int| has_unit(low, den, k);
    let k = choose|k: int| has_unit(high, den, k);
    lemma_pow2_small();
    lemma_scale_adds(0, 5000);
    lemma_scale_adds(j, 0);
    lemma_scale_adds(k, 0);
    let a = low * scale(0);
    let b = high * scale(0);
    let dj = den * scale(j);
    let dk = den * scale(k);
    assert(a <= b) by (nonlinear_arith)
        requires
            a == low * scale(0),
            b == high * scale(0),
            low <= high,
            scale(0) >= 0,
    ;
    assert(dj > 0 && dk > 0) by (nonlinear_arith)
        requires
            dj == den * scale(j),
            dk == den * scale(k),
            den > 0,
            scale(j) > 0,
            scale(k) > 0,
    ;
    assert(b < den * scale(5000)) by (nonlinear_arith)
        requires
            b == high * scale(0),
            high < den * pow2(5000),
            scale(5000) == scale(0) * pow2(5000),
            scale(0) > 0,
    ;
    lemma_unit_below(high, den, k);
    lemma_unit_below(low, den, j);
    lemma_nearest_value(low, den, j);
    lemma_nearest_value(high, den, k);
    let mj = half_even(a, dj);
    let mk = half_even(b, dk);
    if j == k {
        lemma_half_even_rises(a, b, dk);
        assert(mj * scale(j) <= mk * scale(k)) by (nonlinear_arith)
            requires
                mj <= mk,
                j == k,
                scale(k) >= 0,
        ;
    } else if j < k {
        lemma_scale_adds(j, (k - j) as nat);
        lemma_pow2_adds(1, (k - j - 1) as nat);
        lemma_pow2_pos((k - j - 1) as nat);
        let p = pow2((k - j - 1) as nat);
        assert(mj * scale(j) <= mk * scale(k)) by (nonlinear_arith)
            requires
                mj <= pow2(53),
                pow2(52) <= mk,
                pow2(53) == 2 * pow2(52),
                scale(k) == scale(j) * (2 * p),
                p >= 1,
                scale(j) >= 0,
        ;
    } else {
        lemma_scale_adds(k, (j - k) as nat);
        lemma_pow2_adds(1, (j - k - 1) as nat);
        lemma_pow2_pos((j - k - 1) as nat);
        let p = pow2((j - k - 1) as nat);
        assert(dj == dk * (2 * p)) by (nonlinear_arith)
            requires
                dj == den * scale(j),
                dk == den * scale(k),
                scale(j) == scale(k) * (2 * p),
        ;
        assert(false) by (nonlinear_arith)
            requires
                pow2(52) * dj <= a,
                a <= b,
                b < pow2(53) * dk,
                pow2(53) == 2 * pow2(52),
                dj == dk * (2 * p),
                p >= 1,
                dk > 0,
        ;
    }
}

/// A value below `2^5000` lies in a binade below it.
proof fn lemma_unit_below(num: nat, den: nat, k: int)
    requires
        den > 0,
        has_unit(num, den, k),
        num * scale(0) < den * scale(5000),
    ensures
        k <= 5000,
{
    if k > 5000 {
        lemma_pow2_small();
        lemma_scale_adds(5000, (k - 5000) as nat);
        lemma_pow2_pos((k - 5000) as nat);
        let p = pow2((k - 5000) as nat);
        assert(false) by (nonlinear_arith)
            requires
                pow2(52) * (den * scale(k)) <= num * scale(0),
                num * scale(0) < den * scale(5000),
                scale(k) == scale(5000) * p,
                p >= 1,
                pow2(52) >= 1,
                den >= 0,
                scale(5000) >= 0,
        ;
    }
}

pub proof fn lemma_half_even_rises(a: nat, b: nat, den: nat)
    requires
        a <= b,
        den > 0,
    ensures
        half_even(a, den) <= half_even(b, den),
{
    lemma_fundamental_div_mod(a as int, den as int);
    lemma_fundamental_div_mod(b as int, den as int);
    let (qa, ra) = (a / den, a % den);
    let (qb, rb) = (b / den, b % den);
    assert(qa < qb || (qa == qb && ra <= rb)) by (nonlinear_arith)
        requires
            a == den * qa + ra,
            b == den * qb + rb,
            0 <= ra < den,
            0 <= rb < den,
            a <= b,
    ;
}

/// A whole number from one on, as a value: it keeps its order of magnitude.
pub proof fn lemma_integer_bounds(n: nat)
    requires
        1 <= n <= u64::MAX,
    ensures
        scale(0) <= integer(n).num() <= scale(64),
{
    lemma_pow2_small();
    lemma_integer_unit(n);
    lemma_scale_adds(0, 64);
    assert(n * scale(0) <= 1 * (1 * scale(64))) by (nonlinear_arith)
        requires
            n <= u64::MAX,
            scale(64) == scale(0) * pow2(64),
            pow2(64) == 0x1_0000_0000_0000_0000,
            scale(0) >= 0,
    ;
    lemma_nearest_bounded(n, 1, 1, 64);
    assert(1 * scale(0) <= n * scale(0)) by (nonlinear_arith)
        requires
            n >= 1,
            scale(0) >= 0,
    ;
    lemma_nearest_at_least(n, 1, 0, 64);
}

proof fn lemma_integer_unit(n: nat)
    requires
        n >= 1,
    ensures
        exists|k: int| has_unit(n, 1, k),
{
    lemma_scale_adds(-52, 52);
    assert(pow2(52) * (1 * scale(-52)) <= n * scale(0)) by (nonlinear_arith)
        requires
            n >= 1,
            scale(0) == scale(-52) * pow2(52),
            scale(0) >= 0,
    ;
    lemma_unit_exists(n, 1, -52);
}

/// The quotient of two whole numbers, the first no greater than the second,
/// is at most one.
pub proof fn lemma_share_at_most_one(part: nat, whole: nat)
    requires
        part <= whole <= u64::MAX,
        whole > 0,
    ensures
        integer(part).over(integer(whole)).num() <= scale(0),
{
    let p = integer(part);
    let w = integer(whole);
    lemma_pow2_small();
    lemma_scale_adds(0, 0);
    lemma_integer_bounds(whole);
    lemma_pow2_strictly_increases(64, 5000);
    lemma_integer_unit(whole);
    if part > 0 {
        lemma_integer_unit(part);
    }
    lemma_nearest_rises(part, whole, 1);
    let num = p.num() * w.den();
    let den = p.den() * w.num();
    assert(den > 0) by (nonlinear_arith)
        requires
            den == scale(0) * w.num(),
            w.num() >= scale(0),
            scale(0) > 0,
    ;
    if part == 0 {
        assert(num == 0) by (nonlinear_arith)
            requires
                num == p.num() * w.den(),
                p.num() == 0 * scale(0),
        ;
        assert(nearest(num, den).num() == 0) by (nonlinear_arith)
            requires
                nearest(num, den).num() == 0 * scale(0),
        ;
        return ;
    }
    lemma_integer_bounds(part);
    lemma_scale_adds(-116, 116);
    lemma_scale_adds(0, 64);
    lemma_pow2_adds(52, 64);
    let u = scale(0);
    let t = scale(-116);
    assert(pow2(52) * (den * t) <= num * u) by {
        assert(pow2(52) * (den * t) <= u * u * u) by (nonlinear_arith)
            requires
                den == u * w.num(),
                w.num() <= u * pow2(64),
                u == t * pow2(116),
                pow2(116) == pow2(52) * pow2(64),
                t >= 0,
                u >= 0,
        ;
        assert(u * u * u <= num * u) by (nonlinear_arith)
            requires
                num == p.num() * u,
                p.num() >= u,
                u >= 0,
        ;
    }
    lemma_unit_exists(num, den, -116);
    assert(num * scale(0) <= 1 * (den * scale(0))) by (nonlinear_arith)
        requires
            num == p.num() * u,
            den == u * w.num(),
            p.num() <= w.num(),
            u == scale(0),
            u >= 0,
    ;
    lemma_nearest_bounded(num, den, 1, 0);
}

/// A value in its 53-bit form that stays within `c * 2^e` has an exponent of
/// at most `e`.
proof fn lemma_bounded_exponent(value: Binary64, c: nat, e: int)
    requires
        0x10_0000_0000_0000 <= value.mantissa,
        -bias() <= e,
        c < 0x20_0000_0000_0000,
        value.num() <= c * scale(e),
    ensures
        value.exponent <= e,
{
    if value.exponent > e {
        let s = (value.exponent - e) as nat;
        lemma_pow2_small();
        lemma_scale_adds(e, s);
        lemma_pow2_adds(1, (s - 1) as nat);
        lemma_pow2_pos((s - 1) as nat);
        let p = pow2((s - 1) as nat);
        let m = value.mantissa as nat;
        assert(m * scale(value.exponent as int) > c * scale(e)) by (nonlinear_arith)
            requires
                scale(value.exponent as int) == scale(e) * (2 * p),
                scale(e) > 0,
                p >= 1,
                m >= 0x10_0000_0000_0000,
                c < 0x20_0000_0000_0000,
        ;
    }
}

/// A running total of at most `c` terms, none above `2^e`, stays within
/// `c * 2^e` under rounding.
pub proof fn lemma_total_bounded(total: Binary64, term: Binary64, c: nat, e: int)
    requires
        total.within(2900),
        term.within(2900),
        total.num() <= c * scale(e),
        term.num() <= scale(e),
        c + 1 < 0x20_0000_0000_0000,
        -bias() <= e <= 2900,
    ensures
        total.plus(term).num() <= (c + 1) * scale(e),
        total.plus(term).mantissa >= 0x10_0000_0000_0000 ==> total.plus(term).exponent <= e,
{
    let num = total.num() * term.den() + term.num() * total.den();
    let den = total.den() * term.den();
    let s0 = scale(0);
    lemma_scale_adds(0, 0);
    lemma_scale_adds(e, 0);
    lemma_pow2_small();
    if total.mantissa == 0 {
        lemma_sum_zero(term, total);
        assert(scale(e) <= (c + 1) * scale(e)) by (nonlinear_arith)
            requires
                c >= 0,
                scale(e) >= 0,
        ;
        if term.mantissa > 0 {
            lemma_bounded_exponent(term, c + 1, e);
        }
        return ;
    }
    let m = total.mantissa as nat;
    let st = scale(total.exponent as int);
    lemma_scale_adds(-bias(), (total.exponent + bias()) as nat);
    assert(scale(-bias()) == 1);
    assert(st >= 1) by {
        lemma_scale_adds(total.exponent as int, 0);
    }
    assert(num >= m * st * s0) by (nonlinear_arith)
        requires
            num == (m * st) * s0 + term.num() * s0,
            term.num() >= 0,
            s0 >= 0,
    ;
    assert(pow2(52) * (den * scale(-bias())) <= num * s0) by (nonlinear_arith)
        requires
            scale(-bias()) == 1,
            den == s0 * s0,
            num >= m * st * s0,
            m >= pow2(52),
            st >= 1,
            s0 >= 0,
    ;
    assert(den > 0) by (nonlinear_arith)
        requires
            den == s0 * s0,
            s0 > 0,
    ;
    lemma_unit_exists(num, den, -bias());
    assert(num * s0 <= (c + 1) * (den * scale(e))) by (nonlinear_arith)
        requires
            num == total.num() * s0 + term.num() * s0,
            total.num() <= c * scale(e),
            term.num() <= scale(e),
            den == s0 * s0,
            s0 >= 0,
    ;
    lemma_nearest_bounded(num, den, c + 1, e);
    if total.plus(term).mantissa >= 0x10_0000_0000_0000 {
        lemma_bounded_exponent(total.plus(term), c + 1, e);
    }
}

/// A value in its 53-bit form lies below `2^(exponent + 53)`.
pub proof fn lemma_value_bound(value: Binary64, e: int)
    requires
        value.within(2900),
        value.mantissa > 0 ==> value.exponent + 53 <= e,
        -bias() <= e,
    ensures
        value.num() <= scale(e),
{
    if value.mantissa == 0 {
        assert(value.num() == 0) by (nonlinear_arith)
            requires
                value.num() == 0 * scale(0),
        ;
    } else {
        let k = value.exponent as int;
        lemma_pow2_small();
        lemma_scale_adds(k, 53);
        lemma_scale_adds(k + 53, (e - k - 53) as nat);
        lemma_pow2_pos((e - k - 53) as nat);
        let m = value.mantissa as nat;
        let p = pow2((e - k - 53) as nat);
        assert(m * scale(k) <= scale(k) * pow2(53) * p) by (nonlinear_arith)
            requires
                m <= pow2(53),
                p >= 1,
                scale(k) >= 0,
        ;
    }
}

/// The integer part of `value`.
pub open spec fn integer_part(value: Binary64) -> nat {
    value.num() / value.den()
}

/// `value` rounded to an integer, a half going up.
pub open spec fn rounded(value: Binary64) -> nat {
    (2 * value.num() + value.den()) / (2 * value.den())
}

/// `n`, or `u64::MAX` where `n` is larger.
pub open spec fn saturated(n: nat) -> u64 {
    if n > u64::MAX {
        u64::MAX
    } else {
        n as u64
    }
}

/// `2 * value + extra`, halved and cut to an integer: `extra` is 0 to cut the
/// value, 1 to round it.
fn halves(value: Binary64, extra: u128) -> (r: u64)
    requires
        value.within(5900),
        extra <= 1,
    ensures
        r == saturated((2 * value.num() + extra as nat * value.den()) / (2 * value.den())),
{
    let ghost m = value.mantissa as nat;
    let ghost target = 2 * value.num() + extra as nat * value.den();
    let ghost s0 = scale(0);
    proof {
        lemma_scale_adds(0, 0);
        lemma_pow2_small();
        lemma2_to64();
    }
    if value.exponent >= 0 {
        let mut w: u128 = value.mantissa as u128;
        let mut i: i32 = 0;
        assert(m * pow2(0) == m) by (nonlinear_arith)
            requires
                pow2(0) == 1,
        ;
        while i < value.exponent && i < 12
            invariant
                0 <= i <= 12,
                i <= value.exponent || value.exponent < 0,
                w == m * pow2(i as nat),
                m == value.mantissa,
                m < 0x20_0000_0000_0000,
                w <= m * 0x1000,
                i == 0 ==> w == m,
                i == 12 ==> w == m * 0x1000,
            decreases 12 - i,
        {
            proof {
                lemma2_to64();
                lemma_pow2_adds(i as nat, 1);
                assert(m * pow2((i + 1) as nat) == 2 * (m * pow2(i as nat))) by (nonlinear_arith)
                    requires
                        pow2((i + 1) as nat) == pow2(i as nat) * 2,
                ;
                assert(m * pow2((i + 1) as nat) <= m * 0x1000) by (nonlinear_arith)
                    requires
                        pow2((i + 1) as nat) <= 0x1000,
                        m >= 0,
                ;
            }
            w = w * 2;
            i = i + 1;
        }
        proof {
            let e = value.exponent as nat;
            lemma_scale_adds(0, e);
            let exact = m * pow2(e);
            assert(target == exact * (2 * s0) + extra * s0) by (nonlinear_arith)
                requires
                    target == 2 * (m * scale(e as int)) + extra as nat * s0,
                    scale(e as int) == s0 * pow2(e),
                    exact == m * pow2(e),
            ;
            lemma_fundamental_div_mod_converse(
                target as int,
                (2 * s0) as int,
                exact as int,
                extra as int * s0 as int,
            );
            if e > 12 && m > 0 {
                lemma_pow2_strictly_increases(12, e);
                assert(exact >= m * 0x1000) by (nonlinear_arith)
                    requires
                        exact == m * pow2(e),
                        pow2(e) >= 0x1000,
                        m >= 0,
                ;
            }
        }
        if w > 0xffff_ffff_ffff_ffff {
            u64::MAX
        } else {
            w as u64
        }
    } else {
        let t: i32 = -value.exponent;
        if t > 60 {
            proof {
                lemma_scale_adds(value.exponent as int, t as nat);
                lemma2_to64_rest();
                lemma_pow2_strictly_increases(60, t as nat);
                let c = scale(value.exponent as int);
                assert(2 * (m * c) < s0) by (nonlinear_arith)
                    requires
                        s0 == c * pow2(t as nat),
                        c > 0,
                        m < 0x20_0000_0000_0000,
                        pow2(t as nat) >= 0x1000_0000_0000_0000,
                ;
                lemma_fundamental_div_mod_converse(
                    target as int,
                    (2 * s0) as int,
                    0,
                    target as int,
                );
            }
            return 0;
        }
        let mut d: u128 = 1;
        let mut i: i32 = 0;
        while i < t
            invariant
                0 <= i <= t <= 60,
                d == pow2(i as nat),
                1 <= d <= 0x1000_0000_0000_0000,
            decreases t - i,
        {
            proof {
                lemma2_to64();
                lemma2_to64_rest();
                lemma_pow2_adds(i as nat, 1);
                if i + 1 < 60 {
                    lemma_pow2_strictly_increases((i + 1) as nat, 60);
                }
            }
            d = d * 2;
            i = i + 1;
        }
        let n: u128 = 2 * value.mantissa as u128 + extra * d;
        proof {
            lemma_scale_adds(value.exponent as int, t as nat);
            let c = scale(value.exponent as int);
            assert(target == n as nat * c) by (nonlinear_arith)
                requires
                    target == 2 * (m * c) + extra as nat * s0,
                    s0 == c * d,
                    n == 2 * m + extra * d,
            ;
            assert(2 * s0 == (2 * d) as nat * c) by (nonlinear_arith)
                requires
                    s0 == c * d,
            ;
            lemma_common_factor(n as nat, (2 * d) as nat, c);
            let g = (2 * d) as int;
            assert(n as int / g <= n) by (nonlinear_arith)
                requires
                    g >= 1,
                    n >= 0,
            ;
        }
        (n / (2 * d)) as u64
    }
}

impl Binary64 {
    /// The integer part, at most `u64::MAX`.
    pub fn to_u64(self) -> (r: u64)
        requires
            self.within(5900),
        ensures
            r == saturated(integer_part(self)),
    {
        proof {
            lemma_scale_adds(0, 0);
            lemma_common_factor(self.num(), self.den(), 2);
            assert(0 * self.den() == 0) by (nonlinear_arith);
        }
        halves(self, 0)
    }

    /// The nearest integer, a half going up, at most `u64::MAX`.
    pub fn round_to_u64(self) -> (r: u64)
        requires
            self.within(5900),
        ensures
            r == saturated(rounded(self)),
    {
        halves(self, 1)
    }
}

/// `value` with exactly `places` decimal places, rounded half to even.
pub open spec fn fixed_point(value: Binary64, places: nat) -> Seq<char> {
    let q = half_even(value.num() * pow10(places), value.den());
    if places == 0 {
        digits(q)
    } else {
        digits(q / pow10(places)) + seq!['.'] + padded_digits(q % pow10(places), places)
    }
}

pub proof fn lemma_half_even_scales(num: nat, den: nat, c: nat)
    requires
        den > 0,
        c > 0,
    ensures
        half_even(num * c, den * c) == half_even(num, den),
{
    lemma_common_factor(num, den, c);
    let r = num % den;
    assert(2 * (r * c) > den * c <==> 2 * r > den) by (nonlinear_arith)
        requires
            c > 0,
    ;
    assert(2 * (r * c) == den * c <==> 2 * r == den) by (nonlinear_arith)
        requires
            c > 0,
    ;
}

/// `10^places`, for the few places a report prints.
fn power_of_ten(places: usize) -> (p: u128)
    requires
        places <= 6,
    ensures
        p == pow10(places as nat),
        1 <= p <= 1_000_000,
{
    let mut p: u128 = 1;
    let mut i: usize = 0;
    let ghost limits = seq![1nat, 10, 100, 1_000, 10_000, 100_000, 1_000_000];
    while i < places
        invariant
            i <= places <= 6,
            p == pow10(i as nat),
            limits == seq![1nat, 10, 100, 1_000, 10_000, 100_000, 1_000_000],
            p == limits[i as int],
        decreases places - i,
    {
        p = p * 10;
        i += 1;
    }
    p
}

/// Appends `value` with exactly `places` decimal places.
pub fn push_fixed(out: &mut String, value: Binary64, places: usize)
    requires
        places <= 6,
    ensures
        final(out)@ == old(out)@ + fixed_point(value, places as nat),
{
    let p: u128 = power_of_ten(places);
    let ghost start = out@;
    let ghost m = value.mantissa as nat;
    proof {
        lemma_scale_adds(0, 0);
    }
    if value.exponent >= 0 {
        let mut whole: Vec<u8> = from_u128(value.mantissa as u128);
        shift_left(&mut whole, value.exponent as u32);
        proof {
            let e = value.exponent as nat;
            let w = m * pow2(e);
            lemma_scale_adds(0, e);
            assert(value.num() * p == (w * p) * scale(0)) by (nonlinear_arith)
                requires
                    value.num() == m * scale(e as int),
                    scale(e as int) == scale(0) * pow2(e),
                    w == m * pow2(e),
            ;
            lemma_fundamental_div_mod_converse(
                ((w * p) * scale(0)) as int,
                scale(0) as int,
                (w * p) as int,
                0,
            );
            assert(half_even(value.num() * p as nat, value.den()) == w * p);
            lemma_fundamental_div_mod_converse((w * p) as int, p as int, w as int, 0);
            if places == 0 {
                assert(w * p == w) by (nonlinear_arith)
                    requires
                        p == 1,
                ;
            }
        }
        push_digits(out, &whole);
        if places > 0 {
            out.push('.');
            push_padded_decimal(out, 0, places);
        }
    } else {
        let q: u128 = if value.exponent <= -86 {
            proof {
                lemma_rounds_to_zero(value, p as nat);
            }
            0
        } else {
            let t: i32 = -value.exponent;
            let mut d: u128 = 1;
            let mut i: i32 = 0;
            proof {
                lemma_pow2_small();
                lemma2_to64();
                lemma_pow2_adds(64, 21);
                assert(1 * pow2(85) == pow2(85));
            }
            while i < t
                invariant
                    0 <= i <= t < 86,
                    d == pow2(i as nat),
                    d * pow2((85 - i) as nat) == pow2(85),
                    pow2(85) == 0x20_0000_0000_0000_0000_0000,
                decreases t - i,
            {
                proof {
                    lemma_pow2_small();
                    lemma_pow2_adds(i as nat, 1);
                    lemma_pow2_pos((85 - i) as nat);
                    assert(d <= pow2(85)) by (nonlinear_arith)
                        requires
                            d * pow2((85 - i) as nat) == pow2(85),
                            pow2((85 - i) as nat) >= 1,
                            d >= 0,
                    ;
                    lemma_pow2_adds((i + 1) as nat, (85 - i - 1) as nat);
                }
                d = d * 2;
                i = i + 1;
            }
            assert(value.mantissa as nat * p <= 0xffff_ffff_ffff_ffff * 1_000_000)
                by (nonlinear_arith)
                requires
                    value.mantissa <= 0xffff_ffff_ffff_ffff,
                    p <= 1_000_000,
            ;
            let n: u128 = value.mantissa as u128 * p;
            proof {
                lemma_pow2_pos(t as nat);
                lemma_pow2_pos((85 - t) as nat);
            }
            let r: u128 = n % d;
            let floor: u128 = n / d;
            proof {
                lemma_scale_adds(value.exponent as int, t as nat);
                let c = scale(value.exponent as int);
                assert(value.num() * p == n as nat * c) by (nonlinear_arith)
                    requires
                        value.num() == m * c,
                        n == m * p,
                ;
                assert(scale(0) == d as nat * c) by (nonlinear_arith)
                    requires
                        scale(0) == c * d,
                ;
                lemma_half_even_scales(n as nat, d as nat, c);
                assert(d <= pow2(85)) by (nonlinear_arith)
                    requires
                        d * pow2((85 - t) as nat) == pow2(85),
                        pow2((85 - t) as nat) >= 1,
                        d >= 0,
                ;
                assert(n / d <= n) by (nonlinear_arith)
                    requires
                        d >= 1,
                        n >= 0,
                ;
            }
            if 2 * r > d || (2 * r == d && floor % 2 == 1) {
                floor + 1
            } else {
                floor
            }
        };
        assert(q == half_even(value.num() * pow10(places as nat), value.den()));
        if places == 0 {
            push_decimal(out, q);
        } else {
            push_decimal(out, q / p);
            out.push('.');
            push_padded_decimal(out, q % p, places);
        }
    }
    assert(out@ =~= start + fixed_point(value, places as nat));
}

proof fn lemma_rounds_to_zero(value: Binary64, p: nat)
    requires
        value.exponent <= -86,
        p <= 1_000_000,
    ensures
        half_even(value.num() * p, value.den()) == 0,
{
    let m = value.mantissa as nat;
    let n = m * p;
    lemma_scale_adds(0, 0);
    if value.exponent + bias() < 0 {
        assert(value.num() * p == 0) by (nonlinear_arith)
            requires
                value.num() == m * 0,
        ;
        lemma_fundamental_div_mod_converse(0, scale(0) as int, 0, 0);
    } else {
        let t = (-value.exponent) as nat;
        let c = scale(value.exponent as int);
        lemma_scale_adds(value.exponent as int, t);
        lemma_pow2_small();
        lemma_pow2_adds(64, 22);
        lemma2_to64();
        if t > 86 {
            lemma_pow2_strictly_increases(86, t);
        }
        assert(value.num() * p == n * c) by (nonlinear_arith)
            requires
                value.num() == m * c,
                n == m * p,
        ;
        assert(2 * n < pow2(t)) by (nonlinear_arith)
            requires
                n == m * p,
                m <= 0xffff_ffff_ffff_ffff,
                p <= 1_000_000,
                pow2(t) >= 0x1_0000_0000_0000_0000 * 0x40_0000,
        ;
        assert(2 * (n * c) < scale(0)) by (nonlinear_arith)
            requires
                2 * n < pow2(t),
                scale(0) == c * pow2(t),
                c > 0,
        ;
        lemma_fundamental_div_mod_converse((n * c) as int, scale(0) as int, 0, (n * c) as int);
    }
}

impl Binary64 {
    /// Whether this value is less than the other.
    pub fn is_less(self, other: Binary64) -> (r: bool)
        requires
            self.within(2900),
            other.within(2900),
        ensures
            r == (self.num() < other.num()),
    {
        proof {
            lemma_scale_adds(0, 0);
            lemma_scale_adds(self.exponent as int, 0);
            lemma_scale_adds(other.exponent as int, 0);
        }
        if self.mantissa == 0 || other.mantissa == 0 {
            proof {
                lemma_zero_or_positive(self);
                lemma_zero_or_positive(other);
            }
            return self.mantissa == 0 && other.mantissa > 0;
        }
        if self.exponent == other.exponent {
            proof {
                let c = scale(self.exponent as int);
                let m = self.mantissa as nat;
                let n = other.mantissa as nat;
                assert(m * c < n * c <==> m < n) by (nonlinear_arith)
                    requires
                        c > 0,
                ;
            }
            return self.mantissa < other.mantissa;
        }
        if self.exponent < other.exponent {
            proof {
                lemma_lower_binade(self, other);
            }
            true
        } else {
            proof {
                lemma_lower_binade(other, self);
            }
            false
        }
    }
}

proof fn lemma_zero_or_positive(value: Binary64)
    requires
        value.within(2900),
    ensures
        value.num() == 0 <==> value.mantissa == 0,
{
    lemma_scale_adds(value.exponent as int, 0);
    let m = value.mantissa as nat;
    let c = scale(value.exponent as int);
    assert(m * c == 0 <==> m == 0) by (nonlinear_arith)
        requires
            c > 0,
    ;
}

/// Of two values in their 53-bit form, the one with the lower exponent is the
/// lesser.
proof fn lemma_lower_binade(a: Binary64, b: Binary64)
    requires
        a.within(2900),
        b.within(2900),
        a.mantissa > 0,
        b.mantissa > 0,
        a.exponent < b.exponent,
    ensures
        a.num() < b.num(),
{
    let d = (b.exponent - a.exponent) as nat;
    lemma_scale_adds(a.exponent as int, d);
    lemma_scale_adds(a.exponent as int, 0);
    lemma_pow2_adds(1, (d - 1) as nat);
    lemma_pow2_pos((d - 1) as nat);
    lemma_pow2_small();
    let c = scale(a.exponent as int);
    let m = a.mantissa as nat;
    let n = b.mantissa as nat;
    let p = pow2(d);
    let h = pow2((d - 1) as nat);
    assert(p >= 2) by (nonlinear_arith)
        requires
            p == 2 * h,
            h >= 1,
    ;
    assert(m * c < n * (c * p)) by (nonlinear_arith)
        requires
            m < 0x20_0000_0000_0000,
            n >= 0x10_0000_0000_0000,
            p >= 2,
            c > 0,
    ;
}

/// Rounding to a whole number goes to the nearest, and halfway to the even one.
pub proof fn law_halves_go_to_the_even(q: nat, d: nat, n: nat)
    requires
        d > 0,
    ensures
        half_even((2 * q + 1) * d, 2 * d) == q + q % 2,
        2 * (half_even(n, d) * d) <= 2 * n + d,
        2 * n <= 2 * (half_even(n, d) * d) + d,
{
    let t = (2 * q + 1) * d;
    assert(t == q * (2 * d) + d) by (nonlinear_arith)
        requires
            t == (2 * q + 1) * d,
    ;
    lemma_fundamental_div_mod_converse(t as int, (2 * d) as int, q as int, d as int);
    lemma_fundamental_div_mod(n as int, d as int);
    let w = n / d;
    assert(d * w == w * d && (w + 1) * d == w * d + d) by (nonlinear_arith);
}

/// Cutting leaves the whole number at or below a value, rounding the nearest
/// one, the greater one halfway; neither goes beyond 64 bits.
pub proof fn law_values_are_cut_and_rounded(x: Binary64)
    ensures
        integer_part(x) * x.den() <= x.num() < (integer_part(x) + 1) * x.den(),
        2 * (rounded(x) * x.den()) <= 2 * x.num() + x.den() < 2 * ((rounded(x) + 1) * x.den()),
        integer_part(x) <= u64::MAX ==> saturated(integer_part(x)) == integer_part(x),
        integer_part(x) > u64::MAX ==> saturated(integer_part(x)) == u64::MAX,
{
    let d = x.den();
    let a = x.num();
    lemma_scale_adds(0, 0);
    lemma_fundamental_div_mod(a as int, d as int);
    lemma_fundamental_div_mod((2 * a + d) as int, (2 * d) as int);
    let (q, r) = (integer_part(x), rounded(x));
    assert(d * q == q * d && (q + 1) * d == q * d + d) by (nonlinear_arith);
    assert((2 * d) * r == 2 * (r * d) && 2 * ((r + 1) * d) == 2 * (r * d) + 2 * d)
        by (nonlinear_arith);
}

} // verus!
