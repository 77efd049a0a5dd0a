//! Unbounded decimal integers: little-endian vectors of digits, with the few
//! operations that reading and writing decimal fractions needs.
use vstd::arithmetic::div_mod::lemma_fundamental_div_mod_converse;
use vstd::arithmetic::power2::{
    lemma2_to64, lemma_pow2_adds, lemma_pow2_strictly_increases, pow2,
};
use vstd::prelude::*;

use crate::text::{digit_of, digits, padded_digits};

verus! {

/// `10^n`.
pub open spec fn pow10(n: nat) -> nat
    decreases n,
{
    if n == 0 {
        1
    } else {
        10 * pow10((n - 1) as nat)
    }
}

/// `5^n`.
pub open spec fn pow5(n: nat) -> nat
    decreases n,
{
    if n == 0 {
        1
    } else {
        5 * pow5((n - 1) as nat)
    }
}

/// Whether every element is a decimal digit.
pub open spec fn all_digits(d: Seq<u8>) -> bool {
    forall|i: int| 0 <= i < d.len() ==> #[trigger] d[i] < 10
}

/// The integer that the digits of `d` denote, the lowest place first.
pub open spec fn value(d: Seq<u8>) -> nat
    decreases d.len(),
{
    if d.len() == 0 {
        0
    } else {
        value(d.drop_last()) + d.last() as nat * pow10((d.len() - 1) as nat)
    }
}

pub proof fn lemma_pow10_positive(n: nat)
    ensures
        pow10(n) > 0,
    decreases n,
{
    if n > 0 {
        lemma_pow10_positive((n - 1) as nat);
    }
}

pub proof fn lemma_pow10_adds(a: nat, b: nat)
    ensures
        pow10(a + b) == pow10(a) * pow10(b),
    decreases a,
{
    if a > 0 {
        lemma_pow10_adds((a - 1) as nat, b);
        assert(pow10(a) * pow10(b) == 10 * (pow10((a - 1) as nat) * pow10(b))) by (nonlinear_arith)
            requires
                pow10(a) == 10 * pow10((a - 1) as nat),
        ;
        assert((a - 1) as nat + b == (a + b - 1) as nat);
    } else {
        assert(pow10(a) * pow10(b) == pow10(b)) by (nonlinear_arith)
            requires
                pow10(a) == 1,
        ;
    }
}

/// Ten is twice five.
pub proof fn lemma_pow10_factors(n: nat)
    ensures
        pow10(n) == pow2(n) * pow5(n),
        pow5(n) > 0,
    decreases n,
{
    lemma2_to64();
    if n > 0 {
        let m = (n - 1) as nat;
        lemma_pow10_factors(m);
        lemma_pow2_adds(m, 1);
        assert(10 * (pow2(m) * pow5(m)) == (pow2(m) * 2) * (5 * pow5(m))) by (nonlinear_arith);
    }
}

/// A value has fewer decimal places than its digits have.
pub proof fn lemma_value_bound(d: Seq<u8>)
    requires
        all_digits(d),
    ensures
        value(d) < pow10(d.len()),
    decreases d.len(),
{
    if d.len() > 0 {
        let p = pow10((d.len() - 1) as nat);
        assert(d.last() < 10);
        assert forall|i: int| 0 <= i < d.drop_last().len() implies #[trigger] d.drop_last()[i]
            < 10 by {
            assert(d.drop_last()[i] == d[i]);
        }
        lemma_value_bound(d.drop_last());
        let x = d.last() as nat;
        assert(x * p <= 9 * p) by (nonlinear_arith)
            requires
                x <= 9,
                p >= 0,
        ;
    }
}

/// Powers of ten lie between powers of eight and of sixteen, and a thousand
/// is less than 1024.
pub proof fn lemma_pow10_range(k: nat)
    ensures
        pow2(3 * k) <= pow10(k) <= pow2(4 * k),
        pow10(3 * k) <= pow2(10 * k),
    decreases k,
{
    lemma2_to64();
    if k > 0 {
        let j = (k - 1) as nat;
        lemma_pow10_range(j);
        lemma_pow2_adds(3 * j, 3);
        lemma_pow2_adds(4 * j, 4);
        lemma_pow2_adds(10 * j, 10);
        lemma_pow10_adds(3 * j, 3);
        assert(pow10(3) == 1000) by {
            reveal_with_fuel(pow10, 4);
        }
    }
}

/// Powers of two rise.
pub proof fn lemma_pow2_monotone(a: nat, b: nat)
    requires
        a <= b,
    ensures
        pow2(a) <= pow2(b),
{
    if a < b {
        lemma_pow2_strictly_increases(a, b);
    }
}

/// Powers of ten rise.
pub proof fn lemma_pow10_monotone(a: nat, b: nat)
    requires
        a <= b,
    ensures
        pow10(a) <= pow10(b),
{
    lemma_pow10_adds(a, (b - a) as nat);
    lemma_pow10_positive((b - a) as nat);
    lemma_pow10_positive(a);
    assert(pow10(a) * pow10((b - a) as nat) >= pow10(a)) by (nonlinear_arith)
        requires
            pow10((b - a) as nat) >= 1,
            pow10(a) >= 0,
    ;
}

/// Digits with no leading zero denote at least a one with as many zeros as
/// there are places below it.
pub proof fn lemma_value_at_least(d: Seq<u8>)
    requires
        all_digits(d),
        d.len() > 0,
        d.last() > 0,
    ensures
        pow10((d.len() - 1) as nat) <= value(d) < pow10(d.len()),
{
    lemma_value_bound(d);
    let p = pow10((d.len() - 1) as nat);
    let x = d.last() as nat;
    assert(x * p >= p) by (nonlinear_arith)
        requires
            x >= 1,
            p >= 0,
    ;
}

/// The value of the places below `f`, and of those from `f` on, are the
/// remainder and the quotient by `10^f`.
pub proof fn lemma_value_splits(d: Seq<u8>, f: nat)
    requires
        all_digits(d),
        f <= d.len(),
    ensures
        value(d) == value(d.skip(f as int)) * pow10(f) + value(d.take(f as int)),
        value(d.take(f as int)) < pow10(f),
        value(d) / pow10(f) == value(d.skip(f as int)),
        value(d) % pow10(f) == value(d.take(f as int)),
        all_digits(d.skip(f as int)),
        all_digits(d.take(f as int)),
    decreases d.len(),
{
    let low = d.take(f as int);
    let high = d.skip(f as int);
    assert forall|i: int| 0 <= i < low.len() implies #[trigger] low[i] < 10 by {
        assert(low[i] == d[i]);
    }
    assert forall|i: int| 0 <= i < high.len() implies #[trigger] high[i] < 10 by {
        assert(high[i] == d[i + f]);
    }
    lemma_value_bound(low);
    lemma_pow10_positive(f);
    if f == d.len() {
        assert(low =~= d);
        assert(high =~= Seq::<u8>::empty());
        assert(value(high) * pow10(f) == 0) by (nonlinear_arith)
            requires
                value(high) == 0,
        ;
    } else {
        let e = d.drop_last();
        assert forall|i: int| 0 <= i < e.len() implies #[trigger] e[i] < 10 by {
            assert(e[i] == d[i]);
        }
        lemma_value_splits(e, f);
        assert(e.take(f as int) =~= low);
        assert(e.skip(f as int) =~= high.drop_last());
        let n = (high.len() - 1) as nat;
        lemma_pow10_adds(n, f);
        let x = d.last() as nat;
        assert(high.last() == d.last());
        assert(value(high) * pow10(f) == value(high.drop_last()) * pow10(f) + x * pow10(n + f))
            by (nonlinear_arith)
            requires
                value(high) == value(high.drop_last()) + x * pow10(n),
                pow10(n + f) == pow10(n) * pow10(f),
        ;
        assert(n + f == (d.len() - 1) as nat);
    }
    lemma_fundamental_div_mod_converse(
        value(d) as int,
        pow10(f) as int,
        value(high) as int,
        value(low) as int,
    );
}

/// Doubles the integer in place.
pub fn double(d: &mut Vec<u8>)
    requires
        all_digits(old(d)@),
    ensures
        all_digits(final(d)@),
        value(final(d)@) == 2 * value(old(d)@),
        final(d)@.len() >= old(d)@.len(),
{
    let ghost before = d@;
    let n: usize = d.len();
    let mut carry: u8 = 0;
    let mut i: usize = 0;
    while i < n
        invariant
            i <= n,
            n == d@.len(),
            n == before.len(),
            carry <= 1,
            all_digits(d@),
            all_digits(before),
            forall|j: int| i <= j < n ==> #[trigger] d@[j] == before[j],
            value(d@.take(i as int)) + carry * pow10(i as nat) == 2 * value(
                before.take(i as int),
            ),
        decreases n - i,
    {
        let ghost prior = d@;
        let t: u8 = 2 * d[i] + carry;
        d.set(i, t % 10);
        proof {
            let w = before.take(i + 1);
            assert(w.drop_last() =~= before.take(i as int));
            let v = d@.take(i + 1);
            assert(v.drop_last() =~= prior.take(i as int));
            let p = pow10(i as nat);
            let x = before[i as int] as nat;
            let c = carry as nat;
            let lo = (t % 10) as nat;
            let hi = (t / 10) as nat;
            assert(2 * x + c == 10 * hi + lo);
            assert(lo * p + hi * (10 * p) == 2 * (x * p) + c * p) by (nonlinear_arith)
                requires
                    2 * x + c == 10 * hi + lo,
            ;
            assert(pow10((i + 1) as nat) == 10 * p);
        }
        carry = t / 10;
        i += 1;
    }
    assert(d@.take(n as int) =~= d@);
    assert(before.take(n as int) =~= before);
    if carry > 0 {
        let ghost done = d@;
        d.push(carry);
        assert(d@.drop_last() =~= done);
    } else {
        assert(carry * pow10(n as nat) == 0) by (nonlinear_arith)
            requires
                carry == 0,
        ;
    }
}

/// Multiplies the integer by `2^s`, in place.
pub fn shift_left(d: &mut Vec<u8>, s: u32)
    requires
        all_digits(old(d)@),
    ensures
        all_digits(final(d)@),
        value(final(d)@) == value(old(d)@) * pow2(s as nat),
        final(d)@.len() >= old(d)@.len(),
{
    let ghost before = value(d@);
    let ghost len = d@.len();
    let mut i: u32 = 0;
    proof {
        lemma2_to64();
    }
    while i < s
        invariant
            i <= s,
            all_digits(d@),
            value(d@) == before * pow2(i as nat),
            d@.len() >= len,
        decreases s - i,
    {
        double(d);
        proof {
            lemma2_to64();
            lemma_pow2_adds(i as nat, 1);
            assert(2 * (before * pow2(i as nat)) == before * pow2((i + 1) as nat))
                by (nonlinear_arith)
                requires
                    pow2((i + 1) as nat) == pow2(i as nat) * 2,
            ;
        }
        i += 1;
    }
}

/// Multiplies the integer by five, in place.
fn quintuple(d: &mut Vec<u8>)
    requires
        all_digits(old(d)@),
    ensures
        all_digits(final(d)@),
        value(final(d)@) == 5 * value(old(d)@),
{
    let ghost before = d@;
    let n: usize = d.len();
    let mut carry: u8 = 0;
    let mut i: usize = 0;
    while i < n
        invariant
            i <= n,
            n == d@.len(),
            n == before.len(),
            carry <= 4,
            all_digits(d@),
            all_digits(before),
            forall|j: int| i <= j < n ==> #[trigger] d@[j] == before[j],
            value(d@.take(i as int)) + carry * pow10(i as nat) == 5 * value(
                before.take(i as int),
            ),
        decreases n - i,
    {
        let ghost prior = d@;
        let t: u8 = 5 * d[i] + carry;
        d.set(i, t % 10);
        proof {
            let w = before.take(i + 1);
            assert(w.drop_last() =~= before.take(i as int));
            let v = d@.take(i + 1);
            assert(v.drop_last() =~= prior.take(i as int));
            let p = pow10(i as nat);
            let x = before[i as int] as nat;
            let c = carry as nat;
            let lo = (t % 10) as nat;
            let hi = (t / 10) as nat;
            assert(5 * x + c == 10 * hi + lo);
            assert(lo * p + hi * (10 * p) == 5 * (x * p) + c * p) by (nonlinear_arith)
                requires
                    5 * x + c == 10 * hi + lo,
            ;
            assert(pow10((i + 1) as nat) == 10 * p);
        }
        carry = t / 10;
        i += 1;
    }
    assert(d@.take(n as int) =~= d@);
    assert(before.take(n as int) =~= before);
    if carry > 0 {
        let ghost done = d@;
        d.push(carry);
        assert(d@.drop_last() =~= done);
    } else {
        assert(carry * pow10(n as nat) == 0) by (nonlinear_arith)
            requires
                carry == 0,
        ;
    }
}

/// Multiplies the integer by `5^s`, in place.
pub fn times_fives(d: &mut Vec<u8>, s: u32)
    requires
        all_digits(old(d)@),
    ensures
        all_digits(final(d)@),
        value(final(d)@) == value(old(d)@) * pow5(s as nat),
{
    let ghost before = value(d@);
    let mut i: u32 = 0;
    assert(before * pow5(0) == before) by (nonlinear_arith)
        requires
            pow5(0) == 1,
    ;
    while i < s
        invariant
            i <= s,
            all_digits(d@),
            value(d@) == before * pow5(i as nat),
        decreases s - i,
    {
        quintuple(d);
        proof {
            let p = pow5(i as nat);
            assert(5 * (before * p) == before * (5 * p)) by (nonlinear_arith);
        }
        i += 1;
    }
}

/// The integer, `n` places up: times `10^n`.
pub fn raised(d: &Vec<u8>, n: usize) -> (r: Vec<u8>)
    requires
        all_digits(d@),
    ensures
        all_digits(r@),
        value(r@) == value(d@) * pow10(n as nat),
        r@.len() == d@.len() + n,
{
    let mut r: Vec<u8> = Vec::new();
    let mut i: usize = 0;
    while i < n
        invariant
            i <= n,
            r@.len() == i,
            all_digits(r@),
            value(r@) == 0,
        decreases n - i,
    {
        let ghost before = r@;
        r.push(0);
        proof {
            assert(r@.drop_last() =~= before);
            assert(0 * pow10(before.len()) == 0);
        }
        i += 1;
    }
    let ghost zeros = r@;
    let mut k: usize = 0;
    while k < d.len()
        invariant
            k <= d@.len(),
            r@ == zeros + d@.take(k as int),
        decreases d@.len() - k,
    {
        r.push(d[k]);
        k += 1;
        assert(d@.take(k as int) =~= d@.take(k - 1).push(d@[k - 1]));
        assert(r@ =~= zeros + d@.take(k as int));
    }
    proof {
        assert(d@.take(k as int) =~= d@);
        assert forall|i: int| 0 <= i < r@.len() implies #[trigger] r@[i] < 10 by {
            if i < zeros.len() {
                assert(r@[i] == zeros[i]);
            } else {
                assert(r@[i] == d@[i - zeros.len()]);
            }
        }
        lemma_value_splits(r@, n as nat);
        assert(r@.skip(n as int) =~= d@);
        assert(r@.take(n as int) =~= zeros);
    }
    r
}

/// The places of `d` from `from` on.
pub fn lowered(d: &Vec<u8>, from: usize) -> (r: Vec<u8>)
    requires
        all_digits(d@),
        from <= d@.len(),
    ensures
        r@ == d@.skip(from as int),
        all_digits(r@),
{
    let mut r: Vec<u8> = Vec::new();
    let mut i: usize = from;
    while i < d.len()
        invariant
            from <= i <= d@.len(),
            r@ == d@.subrange(from as int, i as int),
        decreases d@.len() - i,
    {
        r.push(d[i]);
        i += 1;
        assert(d@.subrange(from as int, i as int) =~= d@.subrange(from as int, i - 1).push(
            d@[i - 1],
        ));
    }
    proof {
        assert(r@ =~= d@.skip(from as int));
        lemma_value_splits(d@, from as nat);
    }
    r
}

/// Drops the zeros above the highest place, in place.
pub fn trim(d: &mut Vec<u8>)
    requires
        all_digits(old(d)@),
    ensures
        all_digits(final(d)@),
        value(final(d)@) == value(old(d)@),
        final(d)@.len() <= old(d)@.len(),
        final(d)@.len() > 0 ==> final(d)@.last() > 0,
{
    let ghost whole = value(d@);
    let ghost len = d@.len();
    while d.len() > 0 && d[d.len() - 1] == 0
        invariant
            all_digits(d@),
            value(d@) == whole,
            d@.len() <= len,
        decreases d@.len(),
    {
        let ghost before = d@;
        d.pop();
        proof {
            assert(d@ =~= before.drop_last());
            assert(before.last() as nat * pow10((before.len() - 1) as nat) == 0)
                by (nonlinear_arith)
                requires
                    before.last() == 0,
            ;
            assert forall|i: int| 0 <= i < d@.len() implies #[trigger] d@[i] < 10 by {
                assert(d@[i] == before[i]);
            }
        }
    }
}

/// Adds one to the integer, in place.
pub fn increment(d: &mut Vec<u8>)
    requires
        all_digits(old(d)@),
    ensures
        all_digits(final(d)@),
        value(final(d)@) == value(old(d)@) + 1,
{
    let ghost before = d@;
    let n: usize = d.len();
    let mut carry: u8 = 1;
    let mut i: usize = 0;
    while i < n
        invariant
            i <= n,
            n == d@.len(),
            n == before.len(),
            carry <= 1,
            all_digits(d@),
            all_digits(before),
            forall|j: int| i <= j < n ==> #[trigger] d@[j] == before[j],
            value(d@.take(i as int)) + carry * pow10(i as nat) == value(before.take(i as int)) + 1,
        decreases n - i,
    {
        let ghost prior = d@;
        let t: u8 = d[i] + carry;
        d.set(i, t % 10);
        proof {
            let w = before.take(i + 1);
            assert(w.drop_last() =~= before.take(i as int));
            let v = d@.take(i + 1);
            assert(v.drop_last() =~= prior.take(i as int));
            let p = pow10(i as nat);
            let x = before[i as int] as nat;
            let c = carry as nat;
            let lo = (t % 10) as nat;
            let hi = (t / 10) as nat;
            assert(x + c == 10 * hi + lo);
            assert(lo * p + hi * (10 * p) == x * p + c * p) by (nonlinear_arith)
                requires
                    x + c == 10 * hi + lo,
            ;
            assert(pow10((i + 1) as nat) == 10 * p);
        }
        carry = t / 10;
        i += 1;
    }
    assert(d@.take(n as int) =~= d@);
    assert(before.take(n as int) =~= before);
    if carry > 0 {
        let ghost done = d@;
        d.push(carry);
        assert(d@.drop_last() =~= done);
    } else {
        assert(carry * pow10(n as nat) == 0) by (nonlinear_arith)
            requires
                carry == 0,
        ;
    }
}

/// The digits of `n`, with no leading zero; zero has no digit.
pub fn from_u128(n: u128) -> (d: Vec<u8>)
    ensures
        all_digits(d@),
        value(d@) == n,
        n > 0 ==> d@.len() > 0 && d@.last() > 0,
{
    let mut d: Vec<u8> = Vec::new();
    let mut rest: u128 = n;
    assert(n as nat * pow10(0) == n) by (nonlinear_arith)
        requires
            pow10(0) == 1,
    ;
    while rest > 0
        invariant
            all_digits(d@),
            value(d@) + rest * pow10(d@.len()) == n,
            rest == 0 && n > 0 ==> d@.len() > 0 && d@.last() > 0,
        decreases rest,
    {
        let ghost prior = d@;
        let x: u8 = (rest % 10) as u8;
        d.push(x);
        proof {
            assert(d@.drop_last() =~= prior);
            let p = pow10(prior.len());
            let h = (rest / 10) as nat;
            assert(x as nat * p + h * (10 * p) == rest * p) by (nonlinear_arith)
                requires
                    rest == 10 * h + x as nat,
            ;
        }
        rest = rest / 10;
    }
    assert(rest * pow10(d@.len()) == 0) by (nonlinear_arith)
        requires
            rest == 0,
    ;
    d
}

/// The places of `d` from `from` on, as an integer, where it stays below
/// `limit`; `None` where it does not.
pub fn high_part(d: &Vec<u8>, from: usize, limit: u128) -> (r: Option<u128>)
    requires
        all_digits(d@),
        from <= d@.len(),
        0 < limit <= 0x1000_0000_0000_0000_0000_0000_0000_0000,
    ensures
        r is Some <==> value(d@.skip(from as int)) < limit,
        r is Some ==> r->0 == value(d@.skip(from as int)),
{
    let ghost high = d@.skip(from as int);
    let mut acc: u128 = 0;
    let mut i: usize = d.len();
    proof {
        assert forall|j: int| 0 <= j < high.len() implies #[trigger] high[j] < 10 by {
            assert(high[j] == d@[j + from]);
        }
        assert(d@.skip(i as int) =~= Seq::<u8>::empty());
        assert(high.skip(high.len() as int) =~= Seq::<u8>::empty());
    }
    while i > from
        invariant
            from <= i <= d@.len(),
            all_digits(d@),
            all_digits(high),
            high == d@.skip(from as int),
            acc == value(high.skip(i - from)),
            acc < limit,
            0 < limit <= 0x1000_0000_0000_0000_0000_0000_0000_0000,
        decreases i - from,
    {
        let ghost at = i - from - 1;
        let next: u128 = acc * 10 + d[i - 1] as u128;
        proof {
            let tail = high.skip(at);
            lemma_value_splits(high, at as nat);
            lemma_value_splits(tail, 1);
            assert(tail.skip(1) =~= high.skip(at + 1));
            lemma_one_digit(tail.take(1));
            assert(pow10(1) == 10) by {
                reveal_with_fuel(pow10, 2);
            }
            assert(next == value(tail));
            if next >= limit {
                assert(value(high) >= value(tail)) by (nonlinear_arith)
                    requires
                        value(high) == value(tail) * pow10(at as nat) + value(
                            high.take(at),
                        ),
                        pow10(at as nat) >= 1,
                {
                    lemma_pow10_positive(at as nat);
                }
            }
        }
        if next >= limit {
            return None;
        }
        acc = next;
        i -= 1;
    }
    assert(high.skip(0) =~= high);
    Some(acc)
}

/// Whether a place of `d` below `until` is not zero.
pub fn low_part_is_nonzero(d: &Vec<u8>, until: usize) -> (r: bool)
    requires
        all_digits(d@),
        until <= d@.len(),
    ensures
        r == (value(d@.take(until as int)) != 0),
{
    let mut i: usize = 0;
    while i < until
        invariant
            i <= until <= d@.len(),
            all_digits(d@),
            value(d@.take(i as int)) == 0,
        decreases until - i,
    {
        proof {
            let w = d@.take(i + 1);
            assert(w.drop_last() =~= d@.take(i as int));
            let p = pow10(i as nat);
            lemma_pow10_positive(i as nat);
            let x = d@[i as int] as nat;
            assert(x * p != 0 <==> x != 0) by (nonlinear_arith)
                requires
                    p > 0,
                    x >= 0,
            ;
            if x != 0 {
                let low = d@.take(until as int);
                assert forall|j: int| 0 <= j < low.len() implies #[trigger] low[j] < 10 by {
                    assert(low[j] == d@[j]);
                }
                lemma_value_splits(low, (i + 1) as nat);
                assert(low.take(i + 1) =~= w);
                assert(value(low) >= value(w)) by (nonlinear_arith)
                    requires
                        value(low) == value(low.skip(i + 1)) * pow10((i + 1) as nat) + value(w),
                        pow10((i + 1) as nat) >= 0,
                        value(low.skip(i + 1)) >= 0,
                ;
            }
        }
        if d[i] != 0 {
            return true;
        }
        i += 1;
    }
    false
}

/// Whether `a` denotes a smaller integer than `b`.
pub fn is_less(a: &Vec<u8>, b: &Vec<u8>) -> (r: bool)
    requires
        all_digits(a@),
        all_digits(b@),
    ensures
        r == (value(a@) < value(b@)),
{
    let n: usize = if a.len() < b.len() {
        b.len()
    } else {
        a.len()
    };
    // The comparison of the places below `i`, from the lowest up.
    let mut less: bool = false;
    let mut equal: bool = true;
    let mut i: usize = 0;
    let ghost x = Seq::new(
        n as nat,
        |j: int|
            if j < a@.len() {
                a@[j]
            } else {
                0
            },
    );
    let ghost y = Seq::new(
        n as nat,
        |j: int|
            if j < b@.len() {
                b@[j]
            } else {
                0
            },
    );
    proof {
        lemma_trailing_zeros(a@, n as nat, x);
        lemma_trailing_zeros(b@, n as nat, y);
    }
    while i < n
        invariant
            i <= n,
            x.len() == n,
            y.len() == n,
            all_digits(x),
            all_digits(y),
            forall|j: int|
                0 <= j < n ==> #[trigger] x[j] == (if j < a@.len() {
                    a@[j]
                } else {
                    0
                }),
            forall|j: int|
                0 <= j < n ==> #[trigger] y[j] == (if j < b@.len() {
                    b@[j]
                } else {
                    0
                }),
            less == (value(x.take(i as int)) < value(y.take(i as int))),
            equal == (value(x.take(i as int)) == value(y.take(i as int))),
        decreases n - i,
    {
        let p: u8 = if i < a.len() {
            a[i]
        } else {
            0
        };
        let q: u8 = if i < b.len() {
            b[i]
        } else {
            0
        };
        proof {
            assert(x[i as int] == p);
            assert(y[i as int] == q);
            let w = x.take(i + 1);
            let z = y.take(i + 1);
            assert(w.drop_last() =~= x.take(i as int));
            assert(z.drop_last() =~= y.take(i as int));
            assert forall|j: int| 0 <= j < x.take(i as int).len() implies #[trigger] x.take(
                i as int,
            )[j] < 10 by {
                assert(x.take(i as int)[j] == x[j]);
            }
            assert forall|j: int| 0 <= j < y.take(i as int).len() implies #[trigger] y.take(
                i as int,
            )[j] < 10 by {
                assert(y.take(i as int)[j] == y[j]);
            }
            lemma_value_bound(x.take(i as int));
            lemma_value_bound(y.take(i as int));
            let t = pow10(i as nat);
            assert(p < q ==> p as nat * t + t <= q as nat * t) by (nonlinear_arith)
                requires
                    t >= 0,
            ;
            assert(q < p ==> q as nat * t + t <= p as nat * t) by (nonlinear_arith)
                requires
                    t >= 0,
            ;
        }
        if p < q {
            less = true;
            equal = false;
        } else if q < p {
            less = false;
            equal = false;
        }
        i += 1;
    }
    assert(x.take(n as int) =~= x);
    assert(y.take(n as int) =~= y);
    less
}

/// Zeros above the highest place change nothing.
proof fn lemma_trailing_zeros(d: Seq<u8>, n: nat, x: Seq<u8>)
    requires
        all_digits(d),
        d.len() <= n,
        x.len() == n,
        forall|j: int|
            0 <= j < n ==> #[trigger] x[j] == (if j < d.len() {
                d[j]
            } else {
                0
            }),
    ensures
        value(x) == value(d),
        all_digits(x),
    decreases n,
{
    if n == d.len() {
        assert(x =~= d);
    } else {
        let y = x.drop_last();
        assert forall|j: int| 0 <= j < y.len() implies #[trigger] y[j] == (if j < d.len() {
            d[j]
        } else {
            0
        }) by {
            assert(y[j] == x[j]);
        }
        lemma_trailing_zeros(d, (n - 1) as nat, y);
        assert(x.last() as nat * pow10((n - 1) as nat) == 0) by (nonlinear_arith)
            requires
                x.last() == 0,
        ;
    }
}

/// Appends the integer in decimal notation.
pub fn push_digits(out: &mut String, d: &Vec<u8>)
    requires
        all_digits(d@),
    ensures
        final(out)@ == old(out)@ + digits(value(d@)),
{
    let mut i: usize = d.len();
    assert(d@.take(i as int) =~= d@);
    while i > 0 && d[i - 1] == 0
        invariant
            i <= d@.len(),
            all_digits(d@),
            value(d@.take(i as int)) == value(d@),
        decreases i,
    {
        proof {
            let w = d@.take(i as int);
            assert(w.drop_last() =~= d@.take(i - 1));
            assert(w.last() as nat * pow10((i - 1) as nat) == 0) by (nonlinear_arith)
                requires
                    w.last() == 0,
            ;
        }
        i -= 1;
    }
    if i == 0 {
        out.push('0');
        assert(out@ =~= old(out)@ + digits(0));
        return ;
    }
    let ghost w = d@.take(i as int);
    let ghost top = i;
    proof {
        assert forall|j: int| 0 <= j < w.len() implies #[trigger] w[j] < 10 by {
            assert(w[j] == d@[j]);
        }
        lemma_last_digit(w, top as int);
    }
    i -= 1;
    out.push(digit_of(d[i]));
    proof {
        lemma_one_digit(w.skip(i as int));
    }
    assert(out@ =~= old(out)@ + digits(value(w.skip(i as int))));
    while i > 0
        invariant
            i < top <= d@.len(),
            w == d@.take(top as int),
            all_digits(w),
            out@ == old(out)@ + digits(value(w.skip(i as int))),
            value(w.skip(i as int)) > 0,
        decreases i,
    {
        proof {
            lemma_last_digit(w, i as int);
        }
        let ghost prior = out@;
        i -= 1;
        out.push(digit_of(d[i]));
        assert(out@ =~= old(out)@ + digits(value(w.skip(i as int))));
    }
    assert(w.skip(0) =~= w);
}

/// The integer that the places from `from` on denote; nothing above the
/// highest.
spec fn value_from(d: Seq<u8>, from: int) -> nat {
    if from <= d.len() {
        value(d.skip(from))
    } else {
        0
    }
}

/// Appends the low `width` places of the integer, with leading zeros.
pub fn push_padded_digits(out: &mut String, d: &Vec<u8>, width: usize)
    requires
        all_digits(d@),
    ensures
        final(out)@ == old(out)@ + padded_digits(value(d@), width as nat),
{
    let mut i: usize = width;
    assert(out@ =~= old(out)@ + padded_digits(value_from(d@, i as int), 0));
    while i > 0
        invariant
            i <= width,
            all_digits(d@),
            out@ == old(out)@ + padded_digits(value_from(d@, i as int), (width - i) as nat),
        decreases i,
    {
        let ghost high = value_from(d@, i as int);
        i -= 1;
        let x: u8 = if i < d.len() {
            d[i]
        } else {
            0
        };
        proof {
            let n = value_from(d@, i as int);
            if i < d@.len() {
                lemma_last_digit(d@, i + 1);
            } else if i == d@.len() {
                assert(d@.skip(i as int) =~= Seq::<u8>::empty());
            }
            assert(n == 10 * high + x);
            assert(n / 10 == high && n % 10 == x as nat);
        }
        out.push(digit_of(x));
        assert(out@ =~= old(out)@ + padded_digits(
            value_from(d@, i as int),
            (width - i) as nat,
        ));
    }
    assert(d@.skip(0) =~= d@);
}

/// Dropping the lowest place divides by ten.
proof fn lemma_last_digit(w: Seq<u8>, i: int)
    requires
        all_digits(w),
        0 < i <= w.len(),
    ensures
        value(w.skip(i - 1)) == 10 * value(w.skip(i)) + w[i - 1],
{
    let tail = w.skip(i - 1);
    assert forall|j: int| 0 <= j < tail.len() implies #[trigger] tail[j] < 10 by {
        assert(tail[j] == w[j + i - 1]);
    }
    lemma_value_splits(tail, 1);
    assert(tail.skip(1) =~= w.skip(i));
    lemma_one_digit(tail.take(1));
    assert(pow10(1) == 10) by {
        reveal_with_fuel(pow10, 2);
    }
    assert(tail.take(1)[0] == w[i - 1]);
    let high = value(w.skip(i));
    assert(high * pow10(1) == 10 * high) by (nonlinear_arith)
        requires
            pow10(1) == 10,
    ;
}

/// A single digit denotes itself.
proof fn lemma_one_digit(d: Seq<u8>)
    requires
        d.len() == 1,
    ensures
        value(d) == d[0],
{
    assert(d.drop_last() =~= Seq::<u8>::empty());
    assert(value(d.drop_last()) == 0);
    assert(pow10(0) == 1);
    assert(d.last() as nat * pow10(0) == d.last()) by (nonlinear_arith)
        requires
            pow10(0) == 1,
    ;
}

} // verus!
