//! Numbers as metric endpoints write them: decimal notation with an optional
//! fraction and exponent, read as a double-precision value.
use vstd::arithmetic::div_mod::{
    lemma_fundamental_div_mod, lemma_fundamental_div_mod_converse,
};
use vstd::arithmetic::power2::{
    lemma2_to64, lemma2_to64_rest, lemma_pow2_adds, lemma_pow2_pos, lemma_pow2_strictly_increases,
    pow2,
};
use vstd::prelude::*;

use crate::accuracy::{
    above, below, is_near, lemma_integer_exact, lemma_integer_near, lemma_rounded_between,
    lemma_times_near,
};
use crate::binary64::{
    bias, half_even, has_unit, integer, integer_part, lemma_nearest_at_least,
    lemma_nearest_bounded, lemma_reduced, lemma_scale_adds, lemma_unit_exists, nearest, round,
    rounded, saturated, scale, Binary64,
};
use crate::decimal::{
    all_digits, from_u128, high_part, is_less, lemma_pow10_adds, lemma_pow10_monotone,
    lemma_pow10_positive, lemma_pow10_range, lemma_pow2_monotone, lemma_value_at_least,
    lemma_value_bound, lemma_value_splits, low_part_is_nonzero, lowered, pow10, raised,
    shift_left, trim, value,
};
use crate::rounding::{
    as_double, lemma_double_bounded, lemma_double_positive, lemma_double_vanishes, lemma_has_unit,
    lemma_is_normal, round_fraction, scaled,
};
use crate::text::{all_decimal, digit_value, digits, find, find_in, number};

verus! {

/// A number as written.
pub enum Numeral {
    /// Infinity, or not a number.
    Special,
    /// `significand * 10^exponent`, negated if `negative`.
    Decimal {
        /// Whether a minus sign stands before it.
        negative: bool,
        /// The digits, the point left out.
        significand: nat,
        /// The power of ten that scales them.
        exponent: int,
    },
}

/// Whether `s` reads `word`, letters of either case.
pub open spec fn reads_word(s: Seq<char>, word: Seq<char>) -> bool {
    s.len() == word.len() && forall|i: int|
        0 <= i < s.len() ==> #[trigger] s[i] == word[i] || s[i] as u32 + 32 == word[i] as u32
}

/// Whether `s` names a value that is not finite.
pub open spec fn is_special(s: Seq<char>) -> bool {
    ||| reads_word(s, seq!['i', 'n', 'f'])
    ||| reads_word(s, seq!['i', 'n', 'f', 'i', 'n', 'i', 't', 'y'])
    ||| reads_word(s, seq!['n', 'a', 'n'])
}

/// Which of the values that are not finite a text gives, if any.
#[derive(Debug, Clone, Copy, PartialEq, Eq, Structural)]
pub enum Shape {
    /// Not a number.
    Nan,
    /// Infinity, by name or because the number is too large.
    Infinite {
        /// Whether a minus sign stands before it.
        negative: bool,
    },
    /// Neither.
    Other,
}

/// `s` without its sign.
pub open spec fn unsigned_part(s: Seq<char>) -> Seq<char> {
    if s.len() > 0 && (s[0] == '-' || s[0] == '+') {
        s.skip(1)
    } else {
        s
    }
}

/// Which of the values that are not finite `s` gives, if any.
pub open spec fn shape(s: Seq<char>) -> Shape {
    let negative = s.len() > 0 && s[0] == '-';
    if is_special(unsigned_part(s)) {
        if reads_word(unsigned_part(s), seq!['n', 'a', 'n']) {
            Shape::Nan
        } else {
            Shape::Infinite { negative }
        }
    } else {
        match numeral(s) {
            Some(Numeral::Decimal { negative: _, significand, exponent }) => if overflows(
                decimal_num(significand, exponent),
                decimal_den(exponent),
            ) {
                Shape::Infinite { negative }
            } else {
                Shape::Other
            },
            _ => Shape::Other,
        }
    }
}

/// Where the exponent mark stands: the first `e` of either case, or the end.
pub open spec fn exponent_mark(s: Seq<char>) -> int
    decreases s.len(),
{
    if s.len() == 0 || s[0] == 'e' || s[0] == 'E' {
        0
    } else {
        1 + exponent_mark(s.skip(1))
    }
}

/// Digits after an optional sign, as an integer.
pub open spec fn signed_digits(s: Seq<char>) -> Option<int> {
    let marked = s.len() > 0 && (s[0] == '-' || s[0] == '+');
    let t = if marked {
        s.skip(1)
    } else {
        s
    };
    if t.len() > 0 && all_decimal(t) {
        Some(
            if s[0] == '-' {
                -(number(t) as int)
            } else {
                number(t) as int
            },
        )
    } else {
        None
    }
}

/// The number that `s` writes, if it writes one.
pub open spec fn numeral(s: Seq<char>) -> Option<Numeral> {
    let negative = s.len() > 0 && s[0] == '-';
    let body = unsigned_part(s);
    if is_special(body) {
        Some(Numeral::Special)
    } else {
        let mark = exponent_mark(body);
        let head = body.take(mark);
        let power = if mark < body.len() {
            signed_digits(body.skip(mark + 1))
        } else {
            Some(0int)
        };
        let (digits, places) = match find(head, '.') {
            Some(i) => (head.take(i) + head.skip(i + 1), head.len() - i - 1),
            None => (head, 0int),
        };
        if digits.len() > 0 && all_decimal(digits) && power is Some {
            Some(
                Numeral::Decimal {
                    negative,
                    significand: number(digits),
                    exponent: power->0 - places,
                },
            )
        } else {
            None
        }
    }
}

/// Numerator of `significand * 10^exponent`.
pub open spec fn decimal_num(significand: nat, exponent: int) -> nat {
    if exponent >= 0 {
        significand * pow10(exponent as nat)
    } else {
        significand
    }
}

/// Denominator of `significand * 10^exponent`.
pub open spec fn decimal_den(exponent: int) -> nat {
    if exponent >= 0 {
        1
    } else {
        pow10((-exponent) as nat)
    }
}

/// Whether `num / den` is too large for double precision.
pub open spec fn overflows(num: nat, den: nat) -> bool {
    num >= (pow2(1024) - pow2(970)) * den
}

/// Whether `num / den` is so small that double precision holds it as zero.
pub open spec fn vanishes(num: nat, den: nat) -> bool {
    num * pow2(1075) <= den
}

/// Whether a number as written is finite and not below zero.
pub open spec fn is_valid(n: Numeral) -> bool {
    match n {
        Numeral::Special => false,
        Numeral::Decimal { negative, significand, exponent } => {
            let num = decimal_num(significand, exponent);
            let den = decimal_den(exponent);
            !overflows(num, den) && (negative ==> vanishes(num, den))
        },
    }
}

/// What a value text reads as.
#[derive(Debug, Clone, Copy, PartialEq, Eq, Structural)]
pub enum Reading {
    /// It is not a number.
    NotANumber,
    /// It is a number, but negative or not finite.
    Invalid,
    /// It is a number that counts.
    Value(u64),
}

/// The value of a number as written, its sign left aside, in double precision.
pub open spec fn double(n: Numeral) -> Binary64 {
    match n {
        Numeral::Special => integer(0),
        Numeral::Decimal { negative, significand, exponent } => as_double(
            decimal_num(significand, exponent),
            decimal_den(exponent),
        ),
    }
}

/// Whether a number as written carries a minus sign.
pub open spec fn is_negative(n: Numeral) -> bool {
    match n {
        Numeral::Special => false,
        Numeral::Decimal { negative, .. } => negative,
    }
}

/// `s` as a counter: cut to an integer.
pub open spec fn counter(s: Seq<char>) -> Reading {
    match numeral(s) {
        None => Reading::NotANumber,
        Some(n) => if !is_valid(n) {
            Reading::Invalid
        } else if is_negative(n) {
            Reading::Value(0)
        } else {
            Reading::Value(saturated(integer_part(double(n))))
        },
    }
}

/// `s` as seconds, in nanoseconds: rounded to an integer.
pub open spec fn nanoseconds(s: Seq<char>) -> Reading {
    match numeral(s) {
        None => Reading::NotANumber,
        Some(n) => if !is_valid(n) {
            Reading::Invalid
        } else if is_negative(n) {
            Reading::Value(0)
        } else {
            Reading::Value(saturated(rounded(double(n).times(integer(1_000_000_000)))))
        },
    }
}

/// `s` as a time: a number that is finite and not below zero, in double
/// precision.
pub open spec fn time(s: Seq<char>) -> Option<Binary64> {
    match numeral(s) {
        Some(n) => if is_valid(n) {
            Some(double(n))
        } else {
            None
        },
        None => None,
    }
}

/// The magnitude, in double precision, of a number below zero that is finite;
/// `None` if `s` is no such number.
pub open spec fn below_zero(s: Seq<char>) -> Option<Binary64> {
    match numeral(s) {
        Some(Numeral::Decimal { negative, significand, exponent }) => {
            let num = decimal_num(significand, exponent);
            let den = decimal_den(exponent);
            if negative && !overflows(num, den) && !vanishes(num, den) {
                Some(as_double(num, den))
            } else {
                None
            }
        },
        _ => None,
    }
}

// ---------------------------------------------------------------------------
// Reading the notation.
// ---------------------------------------------------------------------------

/// A number as read: digits, lowest place first, and a power of ten. The power
/// is exact unless it is out of all proportion.
struct Decimal {
    negative: bool,
    digits: Vec<u8>,
    exponent: i128,
}

enum Parsed {
    Nothing,
    Special,
    Number(Decimal),
}

/// A power of ten that settles every question: no text is this long.
spec fn far() -> int {
    100_000_000_000_000_000_000_000_000_000
}

/// Whether `e` stands for `exponent`: equal to it, or as far out as it.
spec fn stands_for(e: i128, exponent: int) -> bool {
    ||| e == exponent
    ||| e >= far() && exponent >= far()
    ||| e <= -far() && exponent <= -far()
}

spec fn parsed_as(p: Parsed, n: Option<Numeral>) -> bool {
    match p {
        Parsed::Nothing => n is None,
        Parsed::Special => n == Some(Numeral::Special),
        Parsed::Number(d) => match n {
            Some(Numeral::Decimal { negative, significand, exponent }) => {
                &&& d.negative == negative
                &&& all_digits(d.digits@)
                &&& value(d.digits@) == significand
                &&& stands_for(d.exponent, exponent)
                &&& -20 * far() <= d.exponent <= 20 * far()
            },
            _ => false,
        },
    }
}

fn reads_letters(s: &[char], from: usize, to: usize, word: &[char]) -> (r: bool)
    requires
        from <= to <= s@.len(),
    ensures
        r == reads_word(s@.subrange(from as int, to as int), word@),
{
    let ghost part = s@.subrange(from as int, to as int);
    if to - from != word.len() {
        return false;
    }
    let mut i: usize = 0;
    while i < word.len()
        invariant
            i <= word@.len(),
            to - from == word@.len(),
            to <= s@.len(),
            part == s@.subrange(from as int, to as int),
            forall|j: int|
                0 <= j < i ==> #[trigger] part[j] == word@[j] || part[j] as u32 + 32
                    == word@[j] as u32,
        decreases word@.len() - i,
    {
        let c: char = s[from + i];
        assert(part[i as int] == c);
        if c != word[i] && c as u32 as u64 + 32 != word[i] as u32 as u64 {
            return false;
        }
        i += 1;
    }
    true
}

/// Digits `from..to`, without a sign, as an integer cut off at `far`.
fn power_of(s: &[char], from: usize, to: usize) -> (r: Option<i128>)
    requires
        from <= to <= s@.len(),
    ensures
        ({
            let t = s@.subrange(from as int, to as int);
            &&& r is Some <==> t.len() > 0 && all_decimal(t)
            &&& r is Some ==> 0 <= r->0 <= 10 * far() && (r->0 == number(t) || (r->0 == 10 * far()
                && number(t) >= 10 * far()))
        }),
{
    let ghost t = s@.subrange(from as int, to as int);
    if from == to {
        return None;
    }
    let mut acc: i128 = 0;
    let mut i: usize = from;
    assert(t.take(0) =~= Seq::<char>::empty());
    while i < to
        invariant
            from <= i <= to <= s@.len(),
            t == s@.subrange(from as int, to as int),
            forall|j: int| 0 <= j < i - from ==> '0' <= #[trigger] t[j] <= '9',
            0 <= acc <= 10 * far(),
            acc == number(t.take(i - from)) || (acc == 10 * far() && number(t.take(i - from)) >= 10
                * far()),
        decreases to - i,
    {
        let c: char = s[i];
        assert(t[i - from] == c);
        if c < '0' || c > '9' {
            assert(!all_decimal(t));
            return None;
        }
        let ghost now = t.take(i - from + 1);
        assert(now.drop_last() =~= t.take(i - from));
        assert(now.last() == c);
        let next: i128 = acc * 10 + (c as u32 - 48) as i128;
        acc = if next > 1_000_000_000_000_000_000_000_000_000_000 {
            1_000_000_000_000_000_000_000_000_000_000
        } else {
            next
        };
        i += 1;
    }
    assert(t.take(i - from) =~= t);
    Some(acc)
}

/// Appending a lower digit, seen from the highest place.
proof fn lemma_value_of_number(s: Seq<char>, d: Seq<u8>)
    requires
        all_decimal(s),
        d.len() == s.len(),
        forall|i: int| 0 <= i < s.len() ==> #[trigger] d[i] == digit_value(s[s.len() - 1 - i]),
    ensures
        all_digits(d),
        value(d) == number(s),
    decreases s.len(),
{
    assert(all_digits(d)) by {
        assert forall|i: int| 0 <= i < d.len() implies #[trigger] d[i] < 10 by {
            assert('0' <= s[s.len() - 1 - i] <= '9');
        }
    }
    if s.len() > 0 {
        let rest = s.drop_last();
        let high = d.skip(1);
        assert forall|i: int| 0 <= i < rest.len() implies #[trigger] high[i] == digit_value(
            rest[rest.len() - 1 - i],
        ) by {
            assert(high[i] == d[i + 1]);
        }
        assert forall|i: int| 0 <= i < rest.len() implies '0' <= #[trigger] rest[i] <= '9' by {
            assert(rest[i] == s[i]);
        }
        lemma_value_of_number(rest, high);
        lemma_value_splits(d, 1);
        assert(pow10(1) == 10) by {
            reveal_with_fuel(pow10, 2);
        }
        let low = d.take(1);
        assert(low.drop_last() =~= Seq::<u8>::empty());
        assert(value(low.drop_last()) == 0);
        assert(pow10(0) == 1);
        assert(low.last() as nat * pow10(0) == low.last()) by (nonlinear_arith)
            requires
                pow10(0) == 1,
        ;
        assert(low.last() == d[0]);
    }
}

/// Whether `d` holds the last digits of `t`, the last one first.
spec fn ends_in(t: Seq<char>, d: Seq<u8>) -> bool {
    forall|j: int|
        0 <= j < d.len() ==> #[trigger] d[j] == digit_value(t[t.len() - 1 - j]) && '0' <= t[t.len()
            - 1 - j] <= '9'
}

/// The digits of `s` between `from` and `to`, the point at `point` left out,
/// lowest place first; `None` unless they are digits and there is one.
fn digits_of(s: &[char], from: usize, point: usize, to: usize) -> (r: Option<Vec<u8>>)
    requires
        from <= point <= to <= s@.len(),
        point < to ==> s@[point as int] == '.',
    ensures
        ({
            let t = s@.subrange(from as int, point as int) + (if point < to {
                s@.subrange(point + 1, to as int)
            } else {
                Seq::empty()
            });
            &&& r is Some <==> t.len() > 0 && all_decimal(t)
            &&& r is Some ==> all_digits(r->0@) && value(r->0@) == number(t)
        }),
{
    let ghost tail: Seq<char> = if point < to {
        s@.subrange(point + 1, to as int)
    } else {
        Seq::empty()
    };
    let ghost t = s@.subrange(from as int, point as int) + tail;
    let mut d: Vec<u8> = Vec::new();
    let mut i: usize = to;
    while i > from
        invariant
            from <= i <= to <= s@.len(),
            from <= point <= to,
            point < to ==> s@[point as int] == '.',
            tail == if point < to {
                s@.subrange(point + 1, to as int)
            } else {
                Seq::<char>::empty()
            },
            t == s@.subrange(from as int, point as int) + tail,
            d@.len() == if point < i {
                to - i
            } else if point < to {
                to - i - 1
            } else {
                to - i
            },
            ends_in(t, d@),
        decreases i - from,
    {
        let ghost at = t.len() - 1 - d@.len();
        if i - 1 != point || point == to {
            let c: char = s[i - 1];
            assert(t[at] == c) by {
                if i - 1 < point {
                    assert(at == i - 1 - from);
                } else {
                    assert(at == point - from + (i - 1 - point - 1));
                }
            }
            if c < '0' || c > '9' {
                assert(!all_decimal(t));
                return None;
            }
            let ghost before = d@;
            d.push((c as u32 - 48) as u8);
            assert(ends_in(t, d@)) by {
                assert forall|j: int| 0 <= j < d@.len() implies #[trigger] d@[j] == digit_value(
                    t[t.len() - 1 - j],
                ) && '0' <= t[t.len() - 1 - j] <= '9' by {
                    if j < before.len() {
                        assert(d@[j] == before[j]);
                    } else {
                        assert(t[t.len() - 1 - j] == c);
                    }
                }
            }
        }
        i -= 1;
    }
    if d.len() == 0 {
        assert(t.len() == 0);
        return None;
    }
    proof {
        assert(d@.len() == t.len());
        assert forall|i: int| 0 <= i < t.len() implies '0' <= #[trigger] t[i] <= '9' by {
            let j = t.len() - 1 - i;
            assert(d@[j] == digit_value(t[t.len() - 1 - j]));
        }
        lemma_value_of_number(t, d@);
    }
    Some(d)
}

proof fn lemma_mark(s: Seq<char>)
    ensures
        0 <= exponent_mark(s) <= s.len(),
        forall|i: int| 0 <= i < exponent_mark(s) ==> s[i] != 'e' && s[i] != 'E',
        exponent_mark(s) < s.len() ==> s[exponent_mark(s)] == 'e' || s[exponent_mark(s)] == 'E',
    decreases s.len(),
{
    if s.len() > 0 {
        let rest = s.skip(1);
        lemma_mark(rest);
        assert forall|i: int| 0 <= i < exponent_mark(s) implies s[i] != 'e' && s[i] != 'E' by {
            if i > 0 {
                assert(rest[i - 1] == s[i]);
            }
        }
    }
}

/// Digits after an optional sign, as an integer cut off far out.
fn signed_power(s: &[char], from: usize, to: usize) -> (r: Option<i128>)
    requires
        from <= to <= s@.len(),
    ensures
        ({
            let power = signed_digits(s@.subrange(from as int, to as int));
            &&& r is Some <==> power is Some
            &&& r is Some ==> -10 * far() <= r->0 <= 10 * far() && (r->0 == power->0 || (r->0
                == 10 * far() && power->0 >= 10 * far()) || (r->0 == -10 * far() && power->0 <= -10
                * far()))
        }),
{
    let ghost rest = s@.subrange(from as int, to as int);
    let signed: bool = from < to && (s[from] == '-' || s[from] == '+');
    let first: usize = if signed {
        from + 1
    } else {
        from
    };
    assert(s@.subrange(first as int, to as int) =~= if signed {
        rest.skip(1)
    } else {
        rest
    });
    match power_of(s, first, to) {
        Some(n) => if s[from] == '-' {
            Some(-n)
        } else {
            Some(n)
        },
        None => None,
    }
}

/// The digits of a significand and the number of places after its point.
fn significand(s: &[char], from: usize, to: usize) -> (r: Option<(Vec<u8>, usize)>)
    requires
        from <= to <= s@.len(),
    ensures
        ({
            let head = s@.subrange(from as int, to as int);
            let (digits, places) = match find(head, '.') {
                Some(i) => (head.take(i) + head.skip(i + 1), head.len() - i - 1),
                None => (head, 0int),
            };
            &&& r is Some <==> digits.len() > 0 && all_decimal(digits)
            &&& r is Some ==> all_digits((r->0).0@) && value((r->0).0@) == number(digits) && (
            r->0).1 == places
        }),
{
    let ghost head = s@.subrange(from as int, to as int);
    let point: usize = find_in(s, from, to, '.');
    proof {
        crate::text::lemma_find(head, '.');
        if point < to {
            assert(head[point - from] == '.');
            assert(head.take(point - from) =~= s@.subrange(from as int, point as int));
            assert(head.skip(point - from + 1) =~= s@.subrange(point + 1, to as int));
        } else {
            assert(s@.subrange(from as int, point as int) + Seq::<char>::empty() =~= head);
        }
    }
    let places: usize = if point < to {
        to - point - 1
    } else {
        0
    };
    match digits_of(s, from, point, to) {
        Some(digits) => Some((digits, places)),
        None => None,
    }
}

fn parse(s: &[char], from: usize, to: usize) -> (p: Parsed)
    requires
        from <= to <= s@.len(),
    ensures
        parsed_as(p, numeral(s@.subrange(from as int, to as int))),
{
    let ghost whole = s@.subrange(from as int, to as int);
    let negative: bool = from < to && s[from] == '-';
    let start: usize = if from < to && (s[from] == '-' || s[from] == '+') {
        from + 1
    } else {
        from
    };
    let ghost body = s@.subrange(start as int, to as int);
    assert(body =~= unsigned_part(whole));
    let inf: [char; 3] = ['i', 'n', 'f'];
    let infinity: [char; 8] = ['i', 'n', 'f', 'i', 'n', 'i', 't', 'y'];
    let nan: [char; 3] = ['n', 'a', 'n'];
    assert(inf@ =~= seq!['i', 'n', 'f']);
    assert(infinity@ =~= seq!['i', 'n', 'f', 'i', 'n', 'i', 't', 'y']);
    assert(nan@ =~= seq!['n', 'a', 'n']);
    if reads_letters(s, start, to, &inf) || reads_letters(s, start, to, &infinity)
        || reads_letters(s, start, to, &nan) {
        return Parsed::Special;
    }
    let mut mark: usize = start;
    while mark < to && s[mark] != 'e' && s[mark] != 'E'
        invariant
            start <= mark <= to <= s@.len(),
            body == s@.subrange(start as int, to as int),
            exponent_mark(body) == mark - start + exponent_mark(
                s@.subrange(mark as int, to as int),
            ),
        decreases to - mark,
    {
        assert(s@.subrange(mark as int, to as int).skip(1) =~= s@.subrange(mark + 1, to as int));
        mark += 1;
    }
    assert(exponent_mark(body) == mark - start);
    let ghost head = body.take(mark - start);
    assert(head =~= s@.subrange(start as int, mark as int));
    let digits: Option<(Vec<u8>, usize)> = significand(s, start, mark);
    let power: Option<i128> = if mark < to {
        assert(body.skip(mark - start + 1) =~= s@.subrange(mark + 1, to as int));
        signed_power(s, mark + 1, to)
    } else {
        Some(0)
    };
    match (digits, power) {
        (Some((digits, places)), Some(power)) => {
            Parsed::Number(Decimal { negative, digits, exponent: power - places as i128 })
        },
        _ => Parsed::Nothing,
    }
}

// ---------------------------------------------------------------------------
// Magnitudes.
// ---------------------------------------------------------------------------

/// The largest double, and where rounding takes a value past it.
spec fn ceiling() -> nat {
    (pow2(1024) - pow2(970)) as nat
}

proof fn lemma_ceiling()
    ensures
        ceiling() == 18_014_398_509_481_983 * pow2(970),
        pow2(1023) <= ceiling() <= pow2(1024),
        pow2(1024) - pow2(970) == ceiling(),
{
    lemma2_to64();
    lemma2_to64_rest();
    lemma_pow2_adds(54, 970);
    lemma_pow2_adds(53, 970);
    lemma_pow2_pos(970);
    let x = pow2(970);
    assert(pow2(54) == 18_014_398_509_481_984);
    assert(pow2(53) == 9_007_199_254_740_992);
    assert(18_014_398_509_481_984 * x - x == 18_014_398_509_481_983 * x) by (nonlinear_arith);
    assert(9_007_199_254_740_992 * x <= 18_014_398_509_481_983 * x) by (nonlinear_arith)
        requires
            x >= 0,
    ;
}

/// A number with 400 places before the point, or more, is too large.
proof fn lemma_huge_overflows(sig: nat, n: nat, e: int)
    requires
        n > 0,
        pow10((n - 1) as nat) <= sig,
        n + e >= 400,
    ensures
        overflows(decimal_num(sig, e), decimal_den(e)),
{
    lemma_ceiling();
    lemma_pow10_range(399);
    lemma_pow2_monotone(1024, 1197);
    let t = ceiling();
    if e >= 0 {
        lemma_pow10_adds((n - 1) as nat, e as nat);
        lemma_pow10_monotone(399, (n - 1 + e) as nat);
        assert(sig * pow10(e as nat) >= pow10((n - 1) as nat) * pow10(e as nat))
            by (nonlinear_arith)
            requires
                sig >= pow10((n - 1) as nat),
                pow10(e as nat) >= 0,
        ;
    } else {
        let f = (-e) as nat;
        let rest = (n - 1 - f) as nat;
        lemma_pow10_adds(rest, f);
        lemma_pow10_monotone(399, rest);
        assert(sig >= t * pow10(f)) by (nonlinear_arith)
            requires
                sig >= pow10(rest) * pow10(f),
                pow10(rest) >= t,
                pow10(f) >= 0,
        ;
    }
}

/// A number with 400 zeros after the point, or more, vanishes.
proof fn lemma_tiny_vanishes(sig: nat, n: nat, e: int)
    requires
        sig < pow10(n),
        n + e <= -400,
    ensures
        vanishes(decimal_num(sig, e), decimal_den(e)),
{
    let f = (-e) as nat;
    lemma_pow10_range(400);
    lemma_pow2_monotone(1075, 1200);
    lemma_pow10_adds(n, (f - n) as nat);
    lemma_pow10_monotone(400, (f - n) as nat);
    assert(sig * pow2(1075) <= pow10(f)) by (nonlinear_arith)
        requires
            sig < pow10(n),
            pow10(f) == pow10(n) * pow10((f - n) as nat),
            pow2(1075) <= pow10((f - n) as nat),
    ;
}

/// Neither too large nor vanishing is what vanishing excludes.
proof fn lemma_vanishing_is_small(num: nat, den: nat)
    requires
        den > 0,
        vanishes(num, den),
    ensures
        !overflows(num, den),
{
    lemma_ceiling();
    lemma_pow2_pos(1075);
    lemma_pow2_pos(1023);
    let t = ceiling();
    let v = pow2(1075);
    lemma2_to64();
    lemma_pow2_monotone(1, 1075);
    lemma_pow2_monotone(1, 1023);
    assert(num < t * den) by (nonlinear_arith)
        requires
            num * v <= den,
            v >= 2,
            t >= 2,
            den > 0,
    ;
}

/// What a number comes to, before it is cut or rounded.
enum Settled {
    /// Negative or not finite.
    Invalid,
    /// Zero, or as good as zero.
    Zero,
    /// The digits over a power of ten: finite, not negative, not vanishing.
    Fraction(Vec<u8>, u128),
}

spec fn settled_as(r: Settled, n: Numeral) -> bool {
    match n {
        Numeral::Special => r is Invalid,
        Numeral::Decimal { negative, significand, exponent } => {
            let num = decimal_num(significand, exponent);
            let den = decimal_den(exponent);
            match r {
                Settled::Invalid => !is_valid(n),
                Settled::Zero => is_valid(n) && vanishes(num, den),
                Settled::Fraction(digits, places) => {
                    &&& is_valid(n)
                    &&& !negative
                    &&& !vanishes(num, den)
                    &&& all_digits(digits@)
                    &&& value(digits@) == num
                    &&& den == pow10(places as nat)
                    &&& places <= 0x1_0000_0000_0000_0000_0000_0000
                    &&& num < den * pow2(1024)
                    &&& den <= num * pow2(1075)
                },
            }
        },
    }
}

/// Whether the digits over `10^places` are too large for double precision.
pub fn is_too_large(digits: &Vec<u8>, places: u128) -> (r: bool)
    requires
        all_digits(digits@),
    ensures
        r == overflows(value(digits@), pow10(places as nat)),
        !r ==> value(digits@) < pow10(places as nat) * pow2(1024),
{
    let ghost den = pow10(places as nat);
    let ghost t = ceiling();
    proof {
        lemma_pow10_positive(places as nat);
        lemma_ceiling();
        let v = value(digits@);
        assert(v < t * den ==> v < den * pow2(1024)) by (nonlinear_arith)
            requires
                t <= pow2(1024),
                den > 0,
        ;
    }
    if places >= digits.len() as u128 {
        proof {
            lemma_value_bound(digits@);
            lemma_pow10_monotone(digits@.len(), places as nat);
            lemma_pow2_pos(1023);
            assert(t * den >= den) by (nonlinear_arith)
                requires
                    t >= 1,
                    den >= 0,
            ;
        }
        return false;
    }
    let places: usize = places as usize;
    let high: Vec<u8> = lowered(digits, places);
    let mut limit: Vec<u8> = from_u128(18_014_398_509_481_983);
    shift_left(&mut limit, 970);
    proof {
        lemma_value_splits(digits@, places as nat);
        let v = value(digits@);
        let h = value(high@);
        let low = value(digits@.take(places as int));
        assert(v >= t * den <==> h >= t) by (nonlinear_arith)
            requires
                v == h * den + low,
                0 <= low < den,
        ;
    }
    !is_less(&high, &limit)
}

/// Whether the digits over `10^places` vanish in double precision.
fn is_vanishing(digits: &Vec<u8>, places: u128) -> (r: bool)
    requires
        all_digits(digits@),
    ensures
        r == (value(digits@) * pow2(1075) <= pow10(places as nat)),
{
    let mut wide: Vec<u8> = lowered(digits, 0);
    assert(wide@ =~= digits@);
    shift_left(&mut wide, 1075);
    proof {
        lemma_pow10_positive(places as nat);
    }
    if places >= wide.len() as u128 {
        proof {
            lemma_value_bound(wide@);
            lemma_pow10_monotone(wide@.len(), places as nat);
        }
        return true;
    }
    let places: usize = places as usize;
    proof {
        lemma_value_splits(wide@, places as nat);
    }
    let ghost w = value(wide@);
    let ghost h = value(wide@.skip(places as int));
    let ghost low = value(wide@.take(places as int));
    let ghost den = pow10(places as nat);
    match high_part(&wide, places, 2) {
        None => {
            assert(w > den) by (nonlinear_arith)
                requires
                    w == h * den + low,
                    h >= 2,
                    den > 0,
                    low >= 0,
            ;
            false
        },
        Some(h0) => {
            let rest: bool = low_part_is_nonzero(&wide, places);
            assert(w <= den <==> (h == 0 || low == 0)) by (nonlinear_arith)
                requires
                    w == h * den + low,
                    h <= 1,
                    0 <= low < den,
            ;
            h0 == 0 || !rest
        },
    }
}

/// Settles what a number comes to.
fn settle(d: Decimal, Ghost(n): Ghost<Numeral>) -> (r: Settled)
    requires
        parsed_as(Parsed::Number(d), Some(n)),
    ensures
        settled_as(r, n),
{
    let ghost sig = value(d.digits@);
    let ghost e: int = match n {
        Numeral::Special => 0,
        Numeral::Decimal { negative, significand, exponent } => exponent,
    };
    let ghost num = decimal_num(sig, e);
    let ghost den = decimal_den(e);
    let mut digits: Vec<u8> = d.digits;
    proof {
        lemma_ceiling();
        if e < 0 {
            lemma_pow10_positive((-e) as nat);
        }
    }
    trim(&mut digits);
    if digits.len() == 0 {
        proof {
            assert(num == 0) by (nonlinear_arith)
                requires
                    sig == 0,
                    num == decimal_num(sig, e),
                    decimal_num(sig, e) == if e >= 0 {
                        sig * pow10(e as nat)
                    } else {
                        sig
                    },
            ;
            assert(num * pow2(1075) == 0) by (nonlinear_arith)
                requires
                    num == 0,
            ;
            lemma_vanishing_is_small(num, den);
        }
        return Settled::Zero;
    }
    proof {
        lemma_value_at_least(digits@);
    }
    let top: i128 = digits.len() as i128 + d.exponent;
    if top >= 400 {
        proof {
            lemma_huge_overflows(sig, digits@.len(), e);
        }
        return Settled::Invalid;
    }
    if top <= -400 {
        proof {
            lemma_tiny_vanishes(sig, digits@.len(), e);
            lemma_vanishing_is_small(num, den);
        }
        return Settled::Zero;
    }
    assert(d.exponent == e);
    let places: u128 = if d.exponent < 0 {
        (-d.exponent) as u128
    } else {
        0
    };
    let raise: usize = if d.exponent > 0 {
        d.exponent as usize
    } else {
        0
    };
    let shifted: Vec<u8> = raised(&digits, raise);
    proof {
        if e > 0 {
            assert(value(shifted@) == num);
        } else if e == 0 {
            assert(pow10(0) == 1);
            assert(sig * pow10(0) == sig) by (nonlinear_arith)
                requires
                    pow10(0) == 1,
            ;
        } else {
            assert(pow10(0) == 1);
            assert(sig * pow10(0) == sig) by (nonlinear_arith)
                requires
                    pow10(0) == 1,
            ;
        }
        assert(value(shifted@) == num);
        assert(den == pow10(places as nat));
    }
    if top > 300 {
        if is_too_large(&shifted, places) {
            return Settled::Invalid;
        }
    } else {
        proof {
            lemma_small_enough(sig, digits@.len(), e);
        }
    }
    assert(!overflows(num, den));
    if top < -290 {
        if is_vanishing(&shifted, places) {
            return Settled::Zero;
        }
    } else {
        proof {
            lemma_large_enough(sig, digits@.len(), e);
        }
    }
    assert(!vanishes(num, den));
    proof {
        let t = ceiling();
        assert(num < den * pow2(1024)) by (nonlinear_arith)
            requires
                num < t * den,
                t <= pow2(1024),
                den > 0,
        ;
    }
    if d.negative {
        Settled::Invalid
    } else {
        Settled::Fraction(shifted, places)
    }
}

/// A number with at most 300 places before the point is not too large.
proof fn lemma_small_enough(sig: nat, n: nat, e: int)
    requires
        sig < pow10(n),
        n + e <= 300,
    ensures
        !overflows(decimal_num(sig, e), decimal_den(e)),
{
    lemma_ceiling();
    lemma_pow10_range(100);
    lemma_pow2_monotone(1000, 1023);
    let t = ceiling();
    if e >= 0 {
        lemma_pow10_adds(n, e as nat);
        lemma_pow10_positive(e as nat);
        lemma_pow10_monotone(n + e as nat, 300);
        assert(sig * pow10(e as nat) < pow10(n) * pow10(e as nat)) by (nonlinear_arith)
            requires
                sig < pow10(n),
                pow10(e as nat) > 0,
        ;
        assert(n + e as nat == (n + e) as nat);
        assert(decimal_num(sig, e) < t);
        assert(t * decimal_den(e) == t) by (nonlinear_arith)
            requires
                decimal_den(e) == 1,
        ;
    } else {
        let f = (-e) as nat;
        lemma_pow10_adds(300, f);
        lemma_pow10_monotone(n, 300 + f);
        assert(sig < t * pow10(f)) by (nonlinear_arith)
            requires
                sig < pow10(300) * pow10(f),
                pow10(300) <= t,
                pow10(f) >= 0,
        ;
    }
}

/// A number with fewer than 290 zeros after the point does not vanish.
proof fn lemma_large_enough(sig: nat, n: nat, e: int)
    requires
        n > 0,
        pow10((n - 1) as nat) <= sig,
        n + e >= -290,
    ensures
        !vanishes(decimal_num(sig, e), decimal_den(e)),
        decimal_den(e) <= decimal_num(sig, e) * pow2(1075),
{
    lemma_pow10_range(97);
    lemma_pow2_strictly_increases(970, 1075);
    lemma_pow10_positive((n - 1) as nat);
    let v = pow2(1075);
    if e >= 0 {
        lemma_pow10_positive(e as nat);
        lemma_pow2_pos(970);
        assert(sig * pow10(e as nat) * v > 1) by (nonlinear_arith)
            requires
                sig >= 1,
                pow10(e as nat) >= 1,
                v > 1,
        ;
    } else {
        let f = (-e) as nat;
        lemma_pow10_adds(291, (n - 1) as nat);
        lemma_pow10_monotone(f, (291 + n - 1) as nat);
        assert(sig * v > pow10(f)) by (nonlinear_arith)
            requires
                sig >= pow10((n - 1) as nat),
                pow10((n - 1) as nat) >= 1,
                pow10(f) <= pow10(291) * pow10((n - 1) as nat),
                v > pow10(291),
        ;
    }
}

// ---------------------------------------------------------------------------
// Values.
// ---------------------------------------------------------------------------

/// The value lies in some binade.
spec fn has_some_unit(num: nat, den: nat) -> bool {
    exists|k: int| has_unit(num, den, k)
}

/// The value of the digits over `10^places`, in double precision, where it lies
/// between `2^(53 - s)` and `2^(124 - s)`; whether it is above or below where it
/// does not. `s` is how many binary places are kept.
enum Magnitude {
    Below,
    Above,
    At(Binary64),
}

fn magnitude(digits: Vec<u8>, places: u128, s: u32) -> (r: Magnitude)
    requires
        all_digits(digits@),
        54 <= s <= 88,
        value(digits@) < pow10(places as nat) * pow2(1024),
        pow10(places as nat) <= value(digits@) * pow2(1075),
    ensures
        ({
            let num = value(digits@);
            let den = pow10(places as nat);
            match r {
                Magnitude::Below => {
                    &&& as_double(num, den).num() <= scale(53 - s)
                    &&& (num * pow2(s as nat)) / den < 0x20_0000_0000_0000
                },
                Magnitude::Above => {
                    &&& as_double(num, den).num() >= scale(124 - s)
                    &&& as_double(num, den) == nearest(num, den)
                    &&& (num * pow2(s as nat)) / den
                        >= 0x1000_0000_0000_0000_0000_0000_0000_0000
                },
                Magnitude::At(x) => {
                    &&& x == as_double(num, den) && x.within(200) && x.mantissa > 0
                    &&& 0x20_0000_0000_0000 <= (num * pow2(s as nat)) / den
                        < 0x1000_0000_0000_0000_0000_0000_0000_0000
                },
            }
        }),
{
    let ghost num = value(digits@);
    let ghost den = pow10(places as nat);
    let (q, sticky) = scaled(digits, places, s);
    let ghost p = pow2(s as nat);
    let ghost n = num * p;
    let ghost c = scale(-(s as int));
    proof {
        lemma_pow10_positive(places as nat);
        lemma_has_unit(num, den);
        lemma_scale_adds(-(s as int), s as nat);
        lemma_fundamental_div_mod(n as int, den as int);
        lemma2_to64();
        lemma2_to64_rest();
        assert(num * scale(0) == n * c) by (nonlinear_arith)
            requires
                n == num * p,
                scale(0) == c * p,
        ;
    }
    match q {
        None => {
            proof {
                lemma_scale_adds(-(s as int), 124);
                lemma_pow2_adds(64, 60);
                let z = n / den;
                assert(den * scale(124 - s) <= num * scale(0)) by (nonlinear_arith)
                    requires
                        n == den * z + n % den,
                        n % den >= 0,
                        z >= pow2(124),
                        num * scale(0) == n * c,
                        scale(124 - s) == c * pow2(124),
                        c >= 0,
                        den >= 0,
                ;
                lemma_nearest_at_least(num, den, 124 - s, 1024);
                lemma_reduced(num, den, c, -(s as int), n, den);
                lemma_is_normal(num, den, -(s as int));
            }
            Magnitude::Above
        },
        Some(q) => {
            if q < 0x20_0000_0000_0000 {
                proof {
                    lemma_scale_adds(-(s as int), 53);
                    assert(num * scale(0) <= den * scale(53 - s)) by (nonlinear_arith)
                        requires
                            n == den * q + n % den,
                            n % den < den,
                            q + 1 <= pow2(53),
                            num * scale(0) == n * c,
                            scale(53 - s) == c * pow2(53),
                            c >= 0,
                            den >= 0,
                    ;
                    lemma_double_bounded(num, den, 53 - s);
                }
                Magnitude::Below
            } else {
                proof {
                    assert(den * scale(-(s as int)) == den * c);
                    lemma_reduced(num, den, c, -(s as int), n, den);
                    lemma_is_normal(num, den, -(s as int));
                }
                Magnitude::At(round(q, sticky, -(s as i32), Ghost(num), Ghost(den)))
            }
        },
    }
}

/// A value of at most one half, and nothing, have no integer part.
proof fn lemma_small_part(x: Binary64, e: int)
    requires
        -bias() <= e < 0,
        x.num() <= scale(e),
    ensures
        integer_part(x) == 0,
{
    lemma_scale_adds(e, (-e) as nat);
    lemma_scale_adds(0, 0);
    lemma2_to64();
    lemma_pow2_monotone(1, (-e) as nat);
    assert(scale(e) < scale(0)) by (nonlinear_arith)
        requires
            scale(0) == scale(e) * pow2((-e) as nat),
            pow2((-e) as nat) >= 2,
            scale(e) > 0,
    ;
    lemma_fundamental_div_mod_converse(x.num() as int, x.den() as int, 0, x.num() as int);
}

/// A value of `2^64` or more is at least `2^64` when cut.
proof fn lemma_large_part(x: Binary64, e: nat)
    requires
        x.num() >= scale(e as int),
        e >= 64,
    ensures
        integer_part(x) > u64::MAX,
        rounded(x) > u64::MAX,
{
    lemma_scale_adds(0, e);
    lemma_scale_adds(0, 0);
    lemma2_to64();
    lemma_pow2_monotone(64, e);
    let n = x.num() as int;
    let d = x.den() as int;
    assert(n / d >= 0x1_0000_0000_0000_0000) by (nonlinear_arith)
        requires
            n >= d * pow2(e),
            pow2(e) >= 0x1_0000_0000_0000_0000,
            d > 0,
    ;
    assert((2 * n + d) / (2 * d) >= 0x1_0000_0000_0000_0000) by (nonlinear_arith)
        requires
            n >= d * pow2(e),
            pow2(e) >= 0x1_0000_0000_0000_0000,
            d > 0,
    ;
}

/// Zero is zero, cut or rounded.
proof fn lemma_zero()
    ensures
        saturated(integer_part(integer(0))) == 0,
        saturated(rounded(integer(0).times(integer(1_000_000_000)))) == 0,
{
    let zero = integer(0);
    lemma_scale_adds(0, 0);
    assert(zero.num() == 0) by (nonlinear_arith)
        requires
            zero.num() == 0 * scale(0),
    ;
    lemma_fundamental_div_mod_converse(0, zero.den() as int, 0, 0);
    assert(zero.num() * integer(1_000_000_000).num() == 0) by (nonlinear_arith)
        requires
            zero.num() == 0,
    ;
    assert(zero.times(integer(1_000_000_000)) == zero);
    lemma_fundamental_div_mod_converse(
        zero.den() as int,
        (2 * zero.den()) as int,
        0,
        zero.den() as int,
    );
}

/// Reads the part of `s` between `from` and `to` as a counter.
pub fn read_counter(s: &[char], from: usize, to: usize) -> (r: Reading)
    requires
        from <= to <= s@.len(),
    ensures
        r == counter(s@.subrange(from as int, to as int)),
{
    let ghost n = numeral(s@.subrange(from as int, to as int));
    match parse(s, from, to) {
        Parsed::Nothing => Reading::NotANumber,
        Parsed::Special => Reading::Invalid,
        Parsed::Number(d) => {
            match settle(d, Ghost(n->0)) {
                Settled::Invalid => Reading::Invalid,
                Settled::Zero => {
                    proof {
                        lemma_settled_zero(n->0);
                        lemma_zero();
                    }
                    Reading::Value(0)
                },
                Settled::Fraction(digits, places) => {
                    match magnitude(digits, places, 54) {
                        Magnitude::Below => {
                            proof {
                                lemma_small_part(double(n->0), -1);
                            }
                            Reading::Value(0)
                        },
                        Magnitude::Above => {
                            proof {
                                lemma_large_part(double(n->0), 70);
                            }
                            Reading::Value(u64::MAX)
                        },
                        Magnitude::At(x) => Reading::Value(x.to_u64()),
                    }
                },
            }
        },
    }
}

/// Tells which of the values that are not finite the part of `s` between
/// `from` and `to` gives, if any.
pub fn read_shape(s: &[char], from: usize, to: usize) -> (r: Shape)
    requires
        from <= to <= s@.len(),
    ensures
        r == shape(s@.subrange(from as int, to as int)),
{
    let ghost whole = s@.subrange(from as int, to as int);
    let negative: bool = from < to && s[from] == '-';
    let start: usize = if from < to && (s[from] == '-' || s[from] == '+') {
        from + 1
    } else {
        from
    };
    assert(unsigned_part(whole) =~= s@.subrange(start as int, to as int));
    match parse(s, from, to) {
        Parsed::Nothing => Shape::Other,
        Parsed::Special => {
            let nan: [char; 3] = ['n', 'a', 'n'];
            assert(nan@ =~= seq!['n', 'a', 'n']);
            if reads_letters(s, start, to, &nan) {
                Shape::Nan
            } else {
                Shape::Infinite { negative }
            }
        },
        Parsed::Number(d) => {
            let ghost size = match numeral(whole)->0 {
                Numeral::Decimal { negative: _, significand, exponent } => Numeral::Decimal {
                    negative: false,
                    significand,
                    exponent,
                },
                special => special,
            };
            let magnitude: Decimal = Decimal {
                negative: false,
                digits: d.digits,
                exponent: d.exponent,
            };
            match settle(magnitude, Ghost(size)) {
                Settled::Invalid => Shape::Infinite { negative },
                _ => Shape::Other,
            }
        },
    }
}

/// A duration below `2^-35` seconds is no nanosecond.
proof fn lemma_no_nanosecond(x: Binary64, billion: Binary64)
    requires
        x.num() <= scale(-35),
        billion.num() == 1_000_000_000 * scale(0),
        has_some_unit(x.num() * billion.num(), x.den() * billion.den()),
    ensures
        rounded(x.times(billion)) == 0,
{
    let num = x.num() * billion.num();
    let den = x.den() * billion.den();
    let s0 = scale(0);
    lemma_scale_adds(0, 0);
    lemma_scale_adds(-35, 30);
    lemma_scale_adds(-5, 5);
    lemma2_to64();
    let a = scale(-35);
    assert(num * s0 <= 1 * (den * scale(-5))) by (nonlinear_arith)
        requires
            num == x.num() * (1_000_000_000 * s0),
            den == s0 * s0,
            x.num() <= a,
            scale(-5) == a * 1_073_741_824,
            s0 >= 0,
    ;
    assert(den > 0) by (nonlinear_arith)
        requires
            den == s0 * s0,
            s0 > 0,
    ;
    lemma_nearest_bounded(num, den, 1, -5);
    let y = x.times(billion);
    assert(2 * y.num() + y.den() < 2 * y.den()) by {
        assert(scale(0) == scale(-5) * 32);
    }
    lemma_fundamental_div_mod_converse(
        (2 * y.num() + y.den()) as int,
        (2 * y.den()) as int,
        0,
        (2 * y.num() + y.den()) as int,
    );
}

/// A duration of `2^36` seconds is more nanoseconds than are counted.
proof fn lemma_many_nanoseconds(x: Binary64, billion: Binary64, limit: nat)
    requires
        x.num() >= scale(36),
        billion.num() == 1_000_000_000 * scale(0),
        limit <= 4000,
        x.num() < x.den() * pow2(limit),
    ensures
        rounded(x.times(billion)) > u64::MAX,
{
    let num = x.num() * billion.num();
    let den = x.den() * billion.den();
    let s0 = scale(0);
    lemma_scale_adds(0, 0);
    lemma_scale_adds(0, 36);
    lemma_scale_adds(36, 29);
    lemma_scale_adds(0, 65);
    lemma_pow2_adds(limit, 30);
    lemma2_to64();
    assert(den > 0) by (nonlinear_arith)
        requires
            den == s0 * s0,
            s0 > 0,
    ;
    assert(den * scale(65) <= num * s0) by (nonlinear_arith)
        requires
            num == x.num() * (1_000_000_000 * s0),
            den == s0 * s0,
            x.num() >= scale(36),
            scale(65) == scale(36) * 536_870_912,
            s0 >= 0,
            scale(36) >= 0,
    ;
    assert(num < den * pow2(limit + 30)) by (nonlinear_arith)
        requires
            num == x.num() * (1_000_000_000 * s0),
            den == s0 * s0,
            x.num() < s0 * pow2(limit),
            pow2(limit + 30) == pow2(limit) * 1_073_741_824,
            s0 > 0,
    ;
    lemma_scale_adds(-bias(), bias() as nat);
    assert(pow2(52) * (den * scale(-bias())) <= num * s0) by {
        lemma2_to64_rest();
        assert(scale(-bias()) == 1);
        assert(scale(65) >= pow2(52)) by {
            lemma_scale_adds(-bias(), (65 + bias()) as nat);
            lemma_pow2_monotone(52, (65 + bias()) as nat);
        }
        assert(pow2(52) * (den * 1) <= den * scale(65)) by (nonlinear_arith)
            requires
                scale(65) >= pow2(52),
                den >= 0,
        ;
    }
    lemma_unit_exists(num, den, -bias());
    lemma_nearest_at_least(num, den, 65, limit + 30);
    lemma_large_part(x.times(billion), 65);
}

/// One billion needs no rounding.
proof fn lemma_billion(billion: Binary64)
    requires
        billion == integer(1_000_000_000),
    ensures
        billion.num() == 1_000_000_000 * scale(0),
{
    lemma_scale_adds(-23, 23);
    lemma_scale_adds(0, 0);
    lemma2_to64();
    lemma2_to64_rest();
    let c = scale(-23);
    let s0 = scale(0);
    let m: nat = 1_000_000_000 * 8_388_608;
    assert(s0 == c * 8_388_608);
    let d = 1 * c;
    assert(d == c) by (nonlinear_arith)
        requires
            d == 1 * c,
    ;
    let n = 1_000_000_000nat * s0;
    assert(n == m * d) by (nonlinear_arith)
        requires
            n == 1_000_000_000 * s0,
            s0 == c * 8_388_608,
            m == 1_000_000_000 * 8_388_608,
            d == c,
    ;
    lemma_fundamental_div_mod_converse(n as int, d as int, m as int, 0);
    assert(half_even(n, d) == m);
    assert(has_unit(1_000_000_000, 1, -23)) by {
        assert(pow2(52) * d <= m * d && m * d < pow2(53) * d) by (nonlinear_arith)
            requires
                pow2(52) <= m < pow2(53),
                d > 0,
        ;
    }
    crate::binary64::lemma_unit_unique(
        1_000_000_000,
        1,
        -23,
        choose|k: int| has_unit(1_000_000_000, 1, k),
    );
    assert(billion.mantissa == m);
    assert(m * c == 1_000_000_000 * s0) by (nonlinear_arith)
        requires
            s0 == c * 8_388_608,
            m == 1_000_000_000 * 8_388_608,
    ;
}

/// Reads the part of `s` between `from` and `to` as seconds, in nanoseconds.
pub fn read_nanoseconds(s: &[char], from: usize, to: usize) -> (r: Reading)
    requires
        from <= to <= s@.len(),
    ensures
        r == nanoseconds(s@.subrange(from as int, to as int)),
{
    let ghost n = numeral(s@.subrange(from as int, to as int));
    match parse(s, from, to) {
        Parsed::Nothing => Reading::NotANumber,
        Parsed::Special => Reading::Invalid,
        Parsed::Number(d) => {
            match settle(d, Ghost(n->0)) {
                Settled::Invalid => Reading::Invalid,
                Settled::Zero => {
                    proof {
                        lemma_settled_zero(n->0);
                        lemma_zero();
                    }
                    Reading::Value(0)
                },
                Settled::Fraction(digits, places) => {
                    let ghost num = value(digits@);
                    let ghost den = pow10(places as nat);
                    let billion: Binary64 = Binary64::from_u64(1_000_000_000);
                    proof {
                        lemma_pow10_positive(places as nat);
                        lemma_billion(billion);
                    }
                    match magnitude(digits, places, 88) {
                        Magnitude::Below => {
                            proof {
                                lemma_small_product(num, den, billion);
                                lemma_no_nanosecond(double(n->0), billion);
                            }
                            Reading::Value(0)
                        },
                        Magnitude::Above => {
                            proof {
                                lemma_below_limit(num, den);
                                lemma_many_nanoseconds(double(n->0), billion, 1025);
                            }
                            Reading::Value(u64::MAX)
                        },
                        Magnitude::At(x) => Reading::Value(x.product(billion).round_to_u64()),
                    }
                },
            }
        },
    }
}

/// A value that does not vanish still lies in some binade after rounding and
/// a multiplication by a billion.
proof fn lemma_small_product(num: nat, den: nat, billion: Binary64)
    requires
        den > 0,
        den < num * pow2(1075),
        num < den * pow2(1024),
        billion.num() == 1_000_000_000 * scale(0),
    ensures
        ({
            let x = as_double(num, den);
            has_some_unit(x.num() * billion.num(), x.den() * billion.den())
        }),
{
    let x = as_double(num, den);
    lemma_scale_adds(-1075, 1075);
    lemma_scale_adds(0, 0);
    lemma_double_is_positive(num, den);
    let c = scale(-1075);
    let big = x.num() * billion.num();
    let unit = x.den() * billion.den();
    let s0 = scale(0);
    lemma_scale_adds(-bias(), (bias() - 1075) as nat);
    lemma2_to64();
    lemma2_to64_rest();
    lemma_pow2_monotone(52, (bias() - 1075) as nat);
    assert(scale(-bias()) == 1);
    assert(c >= pow2(52));
    assert(pow2(52) * (unit * 1) <= big * s0) by (nonlinear_arith)
        requires
            unit == s0 * s0,
            big == x.num() * (1_000_000_000 * s0),
            x.num() >= c,
            c >= pow2(52),
            s0 >= 0,
    ;
    assert(unit > 0) by (nonlinear_arith)
        requires
            unit == s0 * s0,
            s0 > 0,
    ;
    lemma_unit_exists(big, unit, -bias());
}

/// Rounding keeps a finite value finite.
proof fn lemma_below_limit(num: nat, den: nat)
    requires
        den > 0,
        den <= num * pow2(1075),
        num < den * pow2(1024),
    ensures
        nearest(num, den).num() < nearest(num, den).den() * pow2(1025),
{
    lemma_has_unit(num, den);
    lemma_scale_adds(0, 1024);
    lemma_scale_adds(0, 1025);
    lemma_scale_adds(0, 0);
    lemma_pow2_strictly_increases(1024, 1025);
    let s0 = scale(0);
    assert(num * s0 <= 1 * (den * scale(1024))) by (nonlinear_arith)
        requires
            num < den * pow2(1024),
            scale(1024) == s0 * pow2(1024),
            s0 >= 0,
    ;
    lemma_nearest_bounded(num, den, 1, 1024);
    assert(s0 * pow2(1024) < s0 * pow2(1025)) by (nonlinear_arith)
        requires
            pow2(1024) < pow2(1025),
            s0 > 0,
    ;
}

/// A finite value that does not vanish is not rounded to zero.
proof fn lemma_double_is_positive(num: nat, den: nat)
    requires
        den > 0,
        den < num * pow2(1075),
        num < den * pow2(1024),
    ensures
        as_double(num, den).num() >= scale(-1075),
        as_double(num, den).mantissa > 0,
{
    lemma_double_positive(num, den);
    lemma_scale_adds(-1075, 1);
    lemma2_to64();
    let x = as_double(num, den);
    if x.mantissa == 0 {
        assert(x.num() == 0) by (nonlinear_arith)
            requires
                x.num() == 0 * scale(x.exponent as int),
        ;
    }
}

/// What vanishes reads as zero.
proof fn lemma_settled_zero(n: Numeral)
    requires
        settled_as(Settled::Zero, n),
    ensures
        is_valid(n),
        double(n) == integer(0),
{
    match n {
        Numeral::Special => {},
        Numeral::Decimal { negative, significand, exponent } => {
            if exponent < 0 {
                lemma_pow10_positive((-exponent) as nat);
            }
            lemma_double_vanishes(decimal_num(significand, exponent), decimal_den(exponent));
        },
    }
}

/// A unit near the lowest of about ninety bits, going by the number of digits
/// before the point.
fn unit_near(digits: &Vec<u8>, places: u128) -> (k: i32)
    requires
        places <= 0x1_0000_0000_0000_0000_0000_0000,
{
    let top: i128 = digits.len() as i128 - places as i128;
    if top > 400 {
        900
    } else if top < -400 {
        -1075
    } else {
        top as i32 * 10 / 3 - 88
    }
}

/// Reads the part of `s` between `from` and `to` as a time.
pub fn read_time(s: &[char], from: usize, to: usize) -> (r: Option<Binary64>)
    requires
        from <= to <= s@.len(),
    ensures
        r == time(s@.subrange(from as int, to as int)),
        r matches Some(x) ==> x.within(1127),
{
    let ghost n = numeral(s@.subrange(from as int, to as int));
    match parse(s, from, to) {
        Parsed::Nothing => None,
        Parsed::Special => None,
        Parsed::Number(d) => {
            match settle(d, Ghost(n->0)) {
                Settled::Invalid => None,
                Settled::Zero => {
                    proof {
                        lemma_settled_zero(n->0);
                    }
                    Some(Binary64::from_u64(0))
                },
                Settled::Fraction(digits, places) => {
                    let hint: i32 = unit_near(&digits, places);
                    Some(round_fraction(&digits, places, hint))
                },
            }
        },
    }
}

/// Reads the part of `s` between `from` and `to` as a number below zero.
pub fn read_below_zero(s: &[char], from: usize, to: usize) -> (r: Option<Binary64>)
    requires
        from <= to <= s@.len(),
    ensures
        r == below_zero(s@.subrange(from as int, to as int)),
        r matches Some(x) ==> x.within(1127) && x.mantissa > 0,
{
    let ghost n = numeral(s@.subrange(from as int, to as int));
    match parse(s, from, to) {
        Parsed::Number(d) => {
            if !d.negative {
                return None;
            }
            let ghost size = match n->0 {
                Numeral::Decimal { negative: _, significand, exponent } => Numeral::Decimal {
                    negative: false,
                    significand,
                    exponent,
                },
                special => special,
            };
            let magnitude: Decimal = Decimal {
                negative: false,
                digits: d.digits,
                exponent: d.exponent,
            };
            match settle(magnitude, Ghost(size)) {
                Settled::Invalid => None,
                Settled::Zero => None,
                Settled::Fraction(digits, places) => {
                    let hint: i32 = unit_near(&digits, places);
                    proof {
                        lemma_pow10_positive(places as nat);
                        lemma_double_is_positive(value(digits@), pow10(places as nat));
                    }
                    Some(round_fraction(&digits, places, hint))
                },
            }
        },
        _ => None,
    }
}

// ---------------------------------------------------------------------------
// Laws.
// ---------------------------------------------------------------------------

/// Digits, a point and digits, with a power of ten behind an `e` or without,
/// stand for that number; a minus sign in front negates it and changes nothing
/// else.
pub proof fn law_notation_stands_for_its_number(
    whole: Seq<char>,
    fraction: Seq<char>,
    tail: Seq<char>,
    power: Seq<char>,
)
    requires
        whole.len() > 0,
        all_decimal(whole),
        all_decimal(fraction),
        all_decimal(power),
        power.len() > 0,
        tail == Seq::<char>::empty() || tail == seq!['e'] + power || tail == seq!['e', '-'] + power,
    ensures
        ({
            let text = whole + seq!['.'] + fraction + tail;
            let shift: int = if tail.len() == 0 {
                0
            } else if tail[1] == '-' {
                -(number(power) as int)
            } else {
                number(power) as int
            };
            &&& numeral(text) == Some(
                Numeral::Decimal {
                    negative: false,
                    significand: number(whole + fraction),
                    exponent: shift - fraction.len(),
                },
            )
            &&& numeral(seq!['-'] + text) == Some(
                Numeral::Decimal {
                    negative: true,
                    significand: number(whole + fraction),
                    exponent: shift - fraction.len(),
                },
            )
        }),
{
    let head = whole + seq!['.'] + fraction;
    let text = head + tail;
    let minus = seq!['-'] + text;
    let n = head.len() as int;
    assert('0' <= whole[0] <= '9');
    assert(text[0] == whole[0]);
    assert(unsigned_part(text) == text);
    assert(minus[0] == '-');
    assert(unsigned_part(minus) =~= text);
    lemma_digit_is_not_special(text);
    lemma_mark(text);
    assert forall|i: int| 0 <= i < n implies text[i] != 'e' && text[i] != 'E' by {
        if i < whole.len() {
            assert(text[i] == whole[i]);
        } else if i > whole.len() {
            assert(text[i] == fraction[i - whole.len() - 1]);
        }
    }
    if tail.len() > 0 {
        assert(tail[0] == 'e');
        assert(text[n] == 'e');
    } else {
        assert(text.len() == n);
    }
    assert(exponent_mark(text) == n);
    assert(text.take(n) =~= head);
    let w = whole.len() as int;
    assert forall|j: int| 0 <= j < w implies head[j] != '.' by {
        assert(head[j] == whole[j]);
    }
    assert(head[w] == '.');
    crate::text::lemma_find_is(head, '.', w);
    assert(head.take(w) =~= whole);
    assert(head.skip(w + 1) =~= fraction);
    let both = whole + fraction;
    assert forall|i: int| 0 <= i < both.len() implies '0' <= #[trigger] both[i] <= '9' by {
        if i < w {
            assert(both[i] == whole[i]);
        } else {
            assert(both[i] == fraction[i - w]);
        }
    }
    if tail.len() > 0 {
        let rest = text.skip(n + 1);
        assert('0' <= power[0] <= '9');
        if tail == seq!['e'] + power {
            assert(tail[1] == power[0]);
            assert(rest =~= power);
        } else {
            assert(tail[1] == '-');
            assert(rest =~= seq!['-'] + power);
            assert(rest.skip(1) =~= power);
        }
    }
}

/// Digits alone stand for their number.
pub proof fn law_digits_stand_for_their_number(whole: Seq<char>)
    requires
        whole.len() > 0,
        all_decimal(whole),
    ensures
        numeral(whole) == Some(
            Numeral::Decimal { negative: false, significand: number(whole), exponent: 0 },
        ),
{
    let n = whole.len() as int;
    assert('0' <= whole[0] <= '9');
    lemma_digit_is_not_special(whole);
    lemma_mark(whole);
    assert(exponent_mark(whole) == n);
    assert(whole.take(n) =~= whole);
    crate::text::lemma_find_is(whole, '.', n);
}

proof fn lemma_digit_is_not_special(s: Seq<char>)
    requires
        s.len() > 0,
        '0' <= s[0] <= '9',
    ensures
        !is_special(s),
{
    let inf = seq!['i', 'n', 'f'];
    let infinity = seq!['i', 'n', 'f', 'i', 'n', 'i', 't', 'y'];
    let nan = seq!['n', 'a', 'n'];
    assert(inf[0] == 'i' && infinity[0] == 'i' && nan[0] == 'n');
    if reads_word(s, inf) {
        assert(s[0] == inf[0] || s[0] as u32 + 32 == inf[0] as u32);
    }
    if reads_word(s, infinity) {
        assert(s[0] == infinity[0] || s[0] as u32 + 32 == infinity[0] as u32);
    }
    if reads_word(s, nan) {
        assert(s[0] == nan[0] || s[0] as u32 + 32 == nan[0] as u32);
    }
}

/// A number in double precision is one rounding away from the number, unless it
/// is subnormal.
proof fn lemma_double_near(num: nat, den: nat)
    requires
        den > 0,
        den <= num * pow2(1022),
        !overflows(num, den),
    ensures
        is_near(as_double(num, den), num, den, 1),
        as_double(num, den).within(1100),
        as_double(num, den).mantissa > 0,
{
    let s0 = scale(0);
    let a = scale(-1022);
    lemma_scale_adds(-1022, 1022);
    lemma_scale_adds(0, 1024);
    lemma_ceiling();
    let t = ceiling();
    assert(den * a <= num * s0) by (nonlinear_arith)
        requires
            den <= num * pow2(1022),
            s0 == a * pow2(1022),
            a > 0,
    ;
    assert(num * s0 < den * scale(1024)) by (nonlinear_arith)
        requires
            num < t * den,
            t <= pow2(1024),
            scale(1024) == s0 * pow2(1024),
            s0 > 0,
            den > 0,
    ;
    lemma_rounded_between(num, den, -1022, 1024);
}

/// A counter is the whole part of the number that its text gives, up to the
/// rounding of the number to double precision.
pub proof fn law_counter_is_the_whole_part(s: Seq<char>, significand: nat, exponent: int)
    requires
        numeral(s) == Some(Numeral::Decimal { negative: false, significand, exponent }),
    ensures
        ({
            let num = decimal_num(significand, exponent);
            let den = decimal_den(exponent);
            &&& counter(s) is Value <==> !overflows(num, den)
            &&& counter(s) matches Reading::Value(v) ==> (v < u64::MAX ==> (v * den) * below(1)
                <= num * above(1) && num * below(1) <= ((v + 1) * den) * above(1))
        }),
{
    let num = decimal_num(significand, exponent);
    let den = decimal_den(exponent);
    if exponent < 0 {
        lemma_pow10_positive((-exponent) as nat);
    }
    if !overflows(num, den) {
        let x = as_double(num, den);
        let s0 = scale(0);
        let v = integer_part(x);
        let a = x.num();
        lemma_scale_adds(0, 0);
        lemma_fundamental_div_mod(a as int, s0 as int);
        assert(s0 * v == v * s0 && (v + 1) * s0 == v * s0 + s0) by (nonlinear_arith);
        assert(below(1) == 0x1f_ffff_ffff_ffff && above(1) == 0x20_0000_0000_0000) by {
            reveal_with_fuel(below, 2);
            reveal_with_fuel(above, 2);
        }
        let (l, h) = (below(1), above(1));
        if den <= num * pow2(1022) {
            lemma_double_near(num, den);
            assert((v * den) * l <= num * h) by (nonlinear_arith)
                requires
                    (a * den) * l <= (num * s0) * h,
                    v * s0 <= a,
                    s0 > 0,
                    l >= 0,
                    den > 0,
            ;
            assert(num * l <= ((v + 1) * den) * h) by (nonlinear_arith)
                requires
                    (num * s0) * l <= (a * den) * h,
                    a <= (v + 1) * s0,
                    s0 > 0,
                    h >= 0,
                    den > 0,
            ;
        } else {
            lemma_tiny_is_below_one(num, den);
            assert(v == 0);
            assert((0 * den) * l == 0) by (nonlinear_arith);
            assert(num < den) by {
                lemma_pow2_pos(1022);
                assert(num <= num * pow2(1022)) by (nonlinear_arith)
                    requires
                        pow2(1022) >= 1,
                        num >= 0,
                ;
            }
            assert(((0 + 1) * den) * h == den * h) by (nonlinear_arith);
        }
    }
}

proof fn lemma_tiny_is_below_one(num: nat, den: nat)
    requires
        den > 0,
        num * pow2(1022) < den,
    ensures
        integer_part(as_double(num, den)) == 0,
{
    if num * pow2(1075) <= den {
        lemma_double_vanishes(num, den);
        let zero = integer(0);
        lemma_scale_adds(0, 0);
        assert(zero.num() == 0) by (nonlinear_arith)
            requires
                zero.num() == 0 * scale(0),
        ;
        lemma_fundamental_div_mod_converse(0, zero.den() as int, 0, 0);
    } else {
        let s0 = scale(0);
        let a = scale(-1022);
        lemma_scale_adds(-1022, 1022);
        assert(num * s0 <= den * a) by (nonlinear_arith)
            requires
                num * pow2(1022) < den,
                s0 == a * pow2(1022),
                a > 0,
        ;
        lemma_double_bounded(num, den, -1022);
        lemma_small_part(as_double(num, den), -1022);
    }
}

/// A whole number of at most 53 bits, written in digits, reads as itself.
pub proof fn law_whole_counters_read_exactly(n: nat)
    requires
        n < 0x20_0000_0000_0000,
    ensures
        counter(digits(n)) == Reading::Value(n as u64),
{
    crate::text::law_digits_read_back(n);
    law_digits_stand_for_their_number(digits(n));
    lemma_ceiling();
    lemma2_to64_rest();
    lemma_pow2_monotone(53, 1023);
    lemma_pow2_pos(1022);
    let t = ceiling();
    assert(pow10(0) == 1);
    assert(n * pow10(0) == n) by (nonlinear_arith)
        requires
            pow10(0) == 1,
    ;
    assert(!overflows(n, 1)) by {
        assert(t * 1 == t) by (nonlinear_arith);
    }
    let s0 = scale(0);
    lemma_scale_adds(0, 0);
    if n == 0 {
        assert(0 * pow2(1075) == 0) by (nonlinear_arith);
        lemma_double_vanishes(0, 1);
    } else {
        assert(n * pow2(1022) >= 1) by (nonlinear_arith)
            requires
                n >= 1,
                pow2(1022) >= 1,
        ;
    }
    assert(as_double(n, 1) == integer(n));
    lemma_integer_exact(n);
    assert(n * s0 == s0 * n + 0) by (nonlinear_arith);
    lemma_fundamental_div_mod_converse((n * s0) as int, s0 as int, n as int, 0);
}

/// Seconds read as nanoseconds are a billion times the number that the text
/// gives, to the nearest, up to a few roundings.
pub proof fn law_nanoseconds_are_a_billion_times_the_seconds(
    s: Seq<char>,
    significand: nat,
    exponent: int,
)
    requires
        numeral(s) == Some(Numeral::Decimal { negative: false, significand, exponent }),
        decimal_den(exponent) <= decimal_num(significand, exponent) * pow2(1022),
    ensures
        ({
            let num = decimal_num(significand, exponent);
            let den = decimal_den(exponent);
            &&& nanoseconds(s) is Value <==> !overflows(num, den)
            &&& nanoseconds(s) matches Reading::Value(v) ==> (v < u64::MAX ==> (2 * v * den)
                * below(3) <= (2_000_000_000 * num) * above(3) + den * below(3) && (2_000_000_000
                * num) * below(3) <= ((2 * v + 1) * den) * above(3))
        }),
{
    let num = decimal_num(significand, exponent);
    let den = decimal_den(exponent);
    if exponent < 0 {
        lemma_pow10_positive((-exponent) as nat);
    }
    if !overflows(num, den) {
        let x = as_double(num, den);
        let billion = integer(1_000_000_000);
        lemma_double_near(num, den);
        lemma_integer_near(1_000_000_000);
        lemma_times_near(x, 1100, num, den, 1, billion, 64, 1_000_000_000, 1, 1);
        let y = x.times(billion);
        let s0 = scale(0);
        let a = y.num();
        let v = rounded(y);
        let n = num * 1_000_000_000;
        assert(den * 1 == den) by (nonlinear_arith);
        assert(is_near(y, n, den, 3));
        lemma_scale_adds(0, 0);
        lemma_fundamental_div_mod((2 * a + s0) as int, (2 * s0) as int);
        let (l, h) = (below(3), above(3));
        let w = 2 * v;
        assert((2 * s0) * v == w * s0) by (nonlinear_arith)
            requires
                w == 2 * v,
        ;
        let u = 2 * a;
        assert(w * s0 <= u + s0 && u <= w * s0 + s0);
        assert((w * den) * l <= (2 * n) * h + den * l) by (nonlinear_arith)
            requires
                (a * den) * l <= (n * s0) * h,
                w * s0 <= 2 * a + s0,
                s0 > 0,
                l >= 0,
                den > 0,
        ;
        assert((2 * n) * l <= ((w + 1) * den) * h) by (nonlinear_arith)
            requires
                (n * s0) * l <= (a * den) * h,
                2 * a <= w * s0 + s0,
                s0 > 0,
                h >= 0,
                den > 0,
        ;
        assert(2 * n == 2_000_000_000 * num);
        assert(2 * v * den == w * den);
    }
}

/// A time is the number that its text gives, up to the rounding of the number to
/// double precision.
pub proof fn law_time_is_the_number(s: Seq<char>, significand: nat, exponent: int)
    requires
        numeral(s) == Some(Numeral::Decimal { negative: false, significand, exponent }),
        decimal_den(exponent) <= decimal_num(significand, exponent) * pow2(1022),
    ensures
        ({
            let num = decimal_num(significand, exponent);
            let den = decimal_den(exponent);
            &&& time(s) is Some <==> !overflows(num, den)
            &&& time(s) matches Some(x) ==> is_near(x, num, den, 1)
        }),
{
    let num = decimal_num(significand, exponent);
    let den = decimal_den(exponent);
    if exponent < 0 {
        lemma_pow10_positive((-exponent) as nat);
    }
    if !overflows(num, den) {
        lemma_double_near(num, den);
    }
}

/// A number below zero is no counter, no duration and no time, unless it is as
/// good as zero; nor is one that is not finite; and what is no number is told
/// apart from both.
pub proof fn law_only_numbers_from_zero_on_count(s: Seq<char>)
    ensures
        numeral(s) is None ==> counter(s) is NotANumber && nanoseconds(s) is NotANumber && time(s)
            is None,
        numeral(s) == Some(Numeral::Special) ==> counter(s) is Invalid && nanoseconds(s) is Invalid
            && time(s) is None,
        numeral(s) matches Some(Numeral::Decimal { negative, significand, exponent }) ==> {
            let num = decimal_num(significand, exponent);
            let den = decimal_den(exponent);
            &&& negative && den < num * pow2(1075) ==> counter(s) is Invalid && nanoseconds(s)
                is Invalid && time(s) is None
            &&& negative && num == 0 ==> counter(s) == Reading::Value(0) && nanoseconds(s)
                == Reading::Value(0) && time(s) == Some(integer(0))
        },
{
    if let Some(Numeral::Decimal { negative, significand, exponent }) = numeral(s) {
        let num = decimal_num(significand, exponent);
        let den = decimal_den(exponent);
        if exponent < 0 {
            lemma_pow10_positive((-exponent) as nat);
        }
        if num == 0 {
            assert(num * pow2(1075) == 0) by (nonlinear_arith)
                requires
                    num == 0,
            ;
            lemma_vanishing_is_small(num, den);
            lemma_double_vanishes(num, den);
        }
    }
}

} // verus!
