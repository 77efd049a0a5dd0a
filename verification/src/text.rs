//! Text as a sequence of characters: the small vocabulary the parsers and
//! renderers share.
use vstd::prelude::*;
use vstd::string::*;

use crate::decimal::pow10;

verus! {

broadcast use group_string_axioms;

/// `String::push`: the string grows by exactly the given character.
pub assume_specification[ String::push ](s: &mut String, c: char)
    ensures
        final(s)@ == old(s)@.push(c),
;

/// `String::from` on a string slice: a string of the same characters.
pub assume_specification<'a>[ <std::string::String as std::convert::From<&'a str>>::from ](
    given: &str,
) -> (same: String)
    ensures
        same@ == given@,
;

/// `From<T> for T`: the argument, unchanged.
pub assume_specification<Thing>[ <Thing as std::convert::From<Thing>>::from ](
    given: Thing,
) -> (same: Thing)
    ensures
        same == given,
;

/// The characters of `s`, in order.
pub fn chars_of(s: &str) -> (v: Vec<char>)
    ensures
        v@ == s@,
{
    let mut v: Vec<char> = Vec::new();
    for c in it: s.chars()
        invariant
            v@ == it.seq().take(it.index()),
    {
        v.push(c);
    }
    v
}

/// A string holding exactly the characters of `v`.
pub fn string_of(v: &[char]) -> (s: String)
    ensures
        s@ == v@,
{
    let mut s: String = String::new();
    let mut i: usize = 0;
    while i < v.len()
        invariant
            i <= v@.len(),
            s@ == v@.take(i as int),
        decreases v@.len() - i,
    {
        s.push(v[i]);
        i += 1;
        assert(v@.take(i as int) =~= v@.take(i - 1).push(v@[i - 1]));
    }
    assert(v@.take(i as int) =~= v@);
    s
}

/// The decimal digit character of `d`.
pub open spec fn digit_char(d: nat) -> char {
    (48 + d) as char
}

/// The decimal notation of `n`, without leading zeros.
pub open spec fn digits(n: nat) -> Seq<char>
    decreases n,
{
    if n < 10 {
        seq![digit_char(n)]
    } else {
        digits(n / 10).push(digit_char(n % 10))
    }
}

/// The decimal notation of `n` in exactly `width` places: the low places,
/// with leading zeros where `n` is shorter.
pub open spec fn padded_digits(n: nat, width: nat) -> Seq<char>
    decreases width,
{
    if width == 0 {
        Seq::empty()
    } else {
        padded_digits(n / 10, (width - 1) as nat).push(digit_char(n % 10))
    }
}

/// The digit character of a number below ten.
pub fn digit_of(d: u8) -> (c: char)
    requires
        d < 10,
    ensures
        c == digit_char(d as nat),
{
    (48 + d) as char
}

/// Appends `n` in decimal.
pub fn push_decimal(out: &mut String, n: u128)
    ensures
        final(out)@ == old(out)@ + digits(n as nat),
    decreases n,
{
    if n < 10 {
        out.push(digit_of(n as u8));
        assert(out@ =~= old(out)@ + digits(n as nat));
    } else {
        push_decimal(out, n / 10);
        out.push(digit_of((n % 10) as u8));
        assert(out@ =~= old(out)@ + digits(n as nat));
    }
}

/// Appends the low `width` decimal places of `n`, with leading zeros.
pub fn push_padded_decimal(out: &mut String, n: u128, width: usize)
    ensures
        final(out)@ == old(out)@ + padded_digits(n as nat, width as nat),
    decreases width,
{
    if width == 0 {
        assert(out@ =~= old(out)@ + padded_digits(n as nat, width as nat));
    } else {
        push_padded_decimal(out, n / 10, width - 1);
        out.push(digit_of((n % 10) as u8));
        assert(out@ =~= old(out)@ + padded_digits(n as nat, width as nat));
    }
}

/// Whether `c` is Unicode white space.
pub open spec fn space(c: char) -> bool {
    let n = c as u32;
    ||| 0x9 <= n <= 0xd
    ||| n == 0x20
    ||| n == 0x85
    ||| n == 0xa0
    ||| n == 0x1680
    ||| 0x2000 <= n <= 0x200a
    ||| n == 0x2028
    ||| n == 0x2029
    ||| n == 0x202f
    ||| n == 0x205f
    ||| n == 0x3000
}

/// Whether `c` is Unicode white space.
pub fn is_space(c: char) -> (r: bool)
    ensures
        r == space(c),
{
    let n: u32 = c as u32;
    (0x9 <= n && n <= 0xd) || n == 0x20 || n == 0x85 || n == 0xa0 || n == 0x1680 || (0x2000 <= n
        && n <= 0x200a) || n == 0x2028 || n == 0x2029 || n == 0x202f || n == 0x205f || n == 0x3000
}

/// `s` without leading white space.
pub open spec fn trim_start(s: Seq<char>) -> Seq<char>
    decreases s.len(),
{
    if s.len() > 0 && space(s[0]) {
        trim_start(s.skip(1))
    } else {
        s
    }
}

/// `s` without trailing white space.
pub open spec fn trim_end(s: Seq<char>) -> Seq<char>
    decreases s.len(),
{
    if s.len() > 0 && space(s.last()) {
        trim_end(s.drop_last())
    } else {
        s
    }
}

/// `s` without surrounding white space.
pub open spec fn trim(s: Seq<char>) -> Seq<char> {
    trim_start(trim_end(s))
}

/// Where `c` first occurs in `s`.
pub open spec fn find(s: Seq<char>, c: char) -> Option<int>
    decreases s.len(),
{
    if s.len() == 0 {
        None
    } else if s[0] == c {
        Some(0)
    } else {
        match find(s.skip(1), c) {
            Some(i) => Some(i + 1),
            None => None,
        }
    }
}

/// Where white space last occurs in `s`.
pub open spec fn find_last_space(s: Seq<char>) -> Option<int>
    decreases s.len(),
{
    if s.len() == 0 {
        None
    } else if space(s.last()) {
        Some(s.len() - 1)
    } else {
        find_last_space(s.drop_last())
    }
}

/// Where `c` last occurs in `s`.
pub open spec fn find_last(s: Seq<char>, c: char) -> Option<int>
    decreases s.len(),
{
    if s.len() == 0 {
        None
    } else if s.last() == c {
        Some(s.len() - 1)
    } else {
        find_last(s.drop_last(), c)
    }
}

/// The lines of `s`: what stands between newlines, without an empty last one.
pub open spec fn lines(s: Seq<char>) -> Seq<Seq<char>>
    decreases s.len(),
{
    if s.len() == 0 {
        Seq::empty()
    } else {
        match find(s, '\n') {
            Some(i) => if 0 <= i < s.len() {
                seq![s.take(i)] + lines(s.skip(i + 1))
            } else {
                Seq::empty()
            },
            None => seq![s],
        }
    }
}

/// The words of `s`: what stands between white space.
pub open spec fn words(s: Seq<char>) -> Seq<Seq<char>>
    decreases s.len(),
{
    if s.len() == 0 {
        Seq::empty()
    } else if space(s.last()) {
        words(s.drop_last())
    } else {
        let head = without_last_word(s);
        words(head).push(s.skip(head.len() as int))
    }
}

/// `s` up to its last white space, which stays.
pub open spec fn without_last_word(s: Seq<char>) -> Seq<char> {
    match find_last_space(s) {
        Some(i) => if 0 <= i < s.len() - 1 {
            s.take(i + 1)
        } else {
            Seq::empty()
        },
        None => Seq::empty(),
    }
}

pub proof fn lemma_find(s: Seq<char>, c: char)
    ensures
        match find(s, c) {
            Some(i) => 0 <= i < s.len() && s[i] == c && forall|j: int|
                0 <= j < i ==> s[j] != c,
            None => forall|j: int| 0 <= j < s.len() ==> s[j] != c,
        },
    decreases s.len(),
{
    if s.len() > 0 && s[0] != c {
        let rest = s.skip(1);
        lemma_find(rest, c);
        match find(rest, c) {
            Some(i) => {
                assert(s[i + 1] == rest[i]);
                assert forall|j: int| 0 <= j < i + 1 implies s[j] != c by {
                    if j > 0 {
                        assert(rest[j - 1] == s[j]);
                    }
                }
            },
            None => {
                assert forall|j: int| 0 <= j < s.len() implies s[j] != c by {
                    if j > 0 {
                        assert(rest[j - 1] == s[j]);
                    }
                }
            },
        }
    }
}

/// The first occurrence is where an occurrence is preceded by none.
pub proof fn lemma_find_is(s: Seq<char>, c: char, i: int)
    requires
        0 <= i <= s.len(),
        forall|j: int| 0 <= j < i ==> s[j] != c,
        i < s.len() ==> s[i] == c,
    ensures
        find(s, c) == if i < s.len() {
            Some(i)
        } else {
            None
        },
{
    lemma_find(s, c);
    match find(s, c) {
        Some(k) => {
            assert(s[k] == c);
        },
        None => {},
    }
}

/// The part of `s` between `from` and `to` without surrounding white space,
/// as positions.
pub fn trim_range(s: &[char], from: usize, to: usize) -> (r: (usize, usize))
    requires
        from <= to <= s@.len(),
    ensures
        from <= r.0 <= r.1 <= to,
        s@.subrange(r.0 as int, r.1 as int) == trim(s@.subrange(from as int, to as int)),
{
    let ghost whole = s@.subrange(from as int, to as int);
    let mut b: usize = to;
    while from < b && is_space(s[b - 1])
        invariant
            from <= b <= to <= s@.len(),
            trim_end(s@.subrange(from as int, b as int)) == trim_end(whole),
        decreases b - from,
    {
        let ghost cut = s@.subrange(from as int, b as int);
        assert(cut.last() == s@[b - 1]);
        assert(cut.drop_last() =~= s@.subrange(from as int, b - 1));
        b -= 1;
    }
    let ghost ended = s@.subrange(from as int, b as int);
    assert(trim_end(ended) == ended) by {
        if from < b {
            assert(ended.last() == s@[b - 1]);
        }
    }
    let mut a: usize = from;
    while a < b && is_space(s[a])
        invariant
            from <= a <= b <= to <= s@.len(),
            trim_start(s@.subrange(a as int, b as int)) == trim_start(ended),
        decreases b - a,
    {
        let ghost cut = s@.subrange(a as int, b as int);
        assert(cut[0] == s@[a as int]);
        assert(cut.skip(1) =~= s@.subrange(a + 1, b as int));
        a += 1;
    }
    let ghost done = s@.subrange(a as int, b as int);
    assert(trim_start(done) == done) by {
        if a < b {
            assert(done[0] == s@[a as int]);
        }
    }
    (a, b)
}

/// Where `c` first occurs between `from` and `to`; `to` if it does not.
pub fn find_in(s: &[char], from: usize, to: usize, c: char) -> (i: usize)
    requires
        from <= to <= s@.len(),
    ensures
        from <= i <= to,
        find(s@.subrange(from as int, to as int), c) == if i < to {
            Some(i - from)
        } else {
            None
        },
{
    let ghost part = s@.subrange(from as int, to as int);
    let mut i: usize = from;
    while i < to && s[i] != c
        invariant
            from <= i <= to <= s@.len(),
            part == s@.subrange(from as int, to as int),
            forall|j: int| 0 <= j < i - from ==> part[j] != c,
        decreases to - i,
    {
        i += 1;
    }
    proof {
        lemma_find_is(part, c, i - from);
    }
    i
}

/// The position of the last white space between `from` and `to`; `None` if
/// there is none.
pub fn find_last_space_in(s: &[char], from: usize, to: usize) -> (i: Option<usize>)
    requires
        from <= to <= s@.len(),
    ensures
        match i {
            Some(i) => from <= i < to && find_last_space(s@.subrange(from as int, to as int))
                == Some(i - from),
            None => find_last_space(s@.subrange(from as int, to as int)) is None,
        },
{
    let ghost part = s@.subrange(from as int, to as int);
    let mut i: usize = to;
    while i > from
        invariant
            from <= i <= to <= s@.len(),
            part == s@.subrange(from as int, to as int),
            find_last_space(s@.subrange(from as int, i as int)) == find_last_space(part),
        decreases i - from,
    {
        let ghost cut = s@.subrange(from as int, i as int);
        assert(cut.last() == s@[i - 1]);
        if is_space(s[i - 1]) {
            return Some(i - 1);
        }
        assert(cut.drop_last() =~= s@.subrange(from as int, i - 1));
        i -= 1;
    }
    None
}

/// Whether the part of `s` between `from` and `to` reads `word`.
pub fn reads(s: &[char], from: usize, to: usize, word: &[char]) -> (r: bool)
    requires
        from <= to <= s@.len(),
    ensures
        r == (s@.subrange(from as int, to as int) == word@),
{
    let ghost part = s@.subrange(from as int, to as int);
    if to - from != word.len() {
        assert(part.len() != word@.len());
        return false;
    }
    let mut i: usize = 0;
    while i < word.len()
        invariant
            i <= word@.len(),
            to - from == word@.len(),
            to <= s@.len(),
            part == s@.subrange(from as int, to as int),
            forall|j: int| 0 <= j < i ==> part[j] == word@[j],
        decreases word@.len() - i,
    {
        if s[from + i] != word[i] {
            assert(part[i as int] != word@[i as int]);
            return false;
        }
        i += 1;
    }
    assert(part =~= word@);
    true
}

/// The value of a digit character.
pub open spec fn digit_value(c: char) -> nat {
    (c as u32 - 48) as nat
}

/// Whether every character is an ASCII digit.
pub open spec fn all_decimal(s: Seq<char>) -> bool {
    forall|i: int| 0 <= i < s.len() ==> '0' <= #[trigger] s[i] <= '9'
}

/// The number that the digits of `s` denote.
pub open spec fn number(s: Seq<char>) -> nat
    decreases s.len(),
{
    if s.len() == 0 {
        0
    } else {
        number(s.drop_last()) * 10 + digit_value(s.last())
    }
}

/// `s` as an unsigned integer: digits, with a plus sign before them or
/// without.
pub open spec fn unsigned(s: Seq<char>) -> Option<nat> {
    let t = if s.len() > 0 && s[0] == '+' {
        s.skip(1)
    } else {
        s
    };
    if t.len() > 0 && all_decimal(t) {
        Some(number(t))
    } else {
        None
    }
}

proof fn lemma_number_grows(s: Seq<char>, n: int)
    requires
        0 <= n <= s.len(),
        all_decimal(s),
    ensures
        number(s.take(n)) <= number(s),
    decreases s.len(),
{
    if n == s.len() {
        assert(s.take(n) =~= s);
    } else {
        lemma_number_grows(s.drop_last(), n);
        assert(s.drop_last().take(n) =~= s.take(n));
    }
}

/// The part of `s` between `from` and `to` as an unsigned integer no larger
/// than `limit`.
pub fn parse_unsigned(s: &[char], from: usize, to: usize, limit: u64) -> (r: Option<u64>)
    requires
        from <= to <= s@.len(),
    ensures
        ({
            let n = unsigned(s@.subrange(from as int, to as int));
            &&& r is Some <==> n is Some && n->0 <= limit
            &&& r is Some ==> r->0 == n->0
        }),
{
    let ghost part = s@.subrange(from as int, to as int);
    let start: usize = if from < to && s[from] == '+' {
        from + 1
    } else {
        from
    };
    let ghost t = s@.subrange(start as int, to as int);
    assert(t =~= if part.len() > 0 && part[0] == '+' {
        part.skip(1)
    } else {
        part
    });
    if start == to {
        return None;
    }
    let mut acc: u64 = 0;
    let mut over: bool = false;
    let mut i: usize = start;
    assert(t.take(0) =~= Seq::<char>::empty());
    while i < to
        invariant
            start <= i <= to <= s@.len(),
            t == s@.subrange(start as int, to as int),
            from <= to,
            part == s@.subrange(from as int, to as int),
            t == if part.len() > 0 && part[0] == '+' {
                part.skip(1)
            } else {
                part
            },
            forall|j: int| 0 <= j < i - start ==> '0' <= #[trigger] t[j] <= '9',
            !over ==> acc == number(t.take(i - start)) && acc <= limit,
            over ==> number(t.take(i - start)) > limit,
        decreases to - i,
    {
        let c: char = s[i];
        assert(t[i - start] == c);
        if c < '0' || c > '9' {
            assert(!all_decimal(t));
            return None;
        }
        let ghost now = t.take(i - start + 1);
        assert(now.drop_last() =~= t.take(i - start));
        assert(now.last() == c);
        if !over {
            let next: u128 = acc as u128 * 10 + (c as u32 - 48) as u128;
            if next > limit as u128 {
                over = true;
            } else {
                acc = next as u64;
            }
        }
        i += 1;
    }
    assert(t.take(i - start) =~= t);
    assert(all_decimal(t));
    if over {
        None
    } else {
        Some(acc)
    }
}

/// Where the lines of `s` begin and end.
pub fn line_ranges(s: &[char]) -> (r: Vec<(usize, usize)>)
    ensures
        r@.len() == lines(s@).len(),
        forall|i: int|
            0 <= i < r@.len() ==> (#[trigger] r@[i]).0 <= r@[i].1 <= s@.len() && s@.subrange(
                r@[i].0 as int,
                r@[i].1 as int,
            ) == lines(s@)[i],
{
    let mut r: Vec<(usize, usize)> = Vec::new();
    let mut at: usize = 0;
    let ghost mut done: Seq<Seq<char>> = Seq::empty();
    assert(s@.skip(0) =~= s@);
    assert(done + lines(s@) =~= lines(s@));
    while at < s.len()
        invariant
            at <= s@.len(),
            lines(s@) == done + lines(s@.skip(at as int)),
            r@.len() == done.len(),
            forall|i: int|
                0 <= i < r@.len() ==> (#[trigger] r@[i]).0 <= r@[i].1 <= s@.len() && s@.subrange(
                    r@[i].0 as int,
                    r@[i].1 as int,
                ) == done[i],
        decreases s@.len() - at,
    {
        let end: usize = find_in(s, at, s.len(), '\n');
        let ghost rest = s@.skip(at as int);
        let ghost line = s@.subrange(at as int, end as int);
        assert(s@.subrange(at as int, s@.len() as int) =~= rest);
        r.push((at, end));
        proof {
            let tail = if end < s@.len() {
                s@.skip(end + 1)
            } else {
                Seq::empty()
            };
            assert(lines(rest) =~= seq![line] + lines(tail)) by {
                if end < s@.len() {
                    assert(rest.take(end - at) =~= line);
                    assert(rest.skip(end - at + 1) =~= tail);
                } else {
                    assert(rest =~= line);
                }
            }
            assert(done + (seq![line] + lines(tail)) =~= done.push(line) + lines(tail));
            done = done.push(line);
        }
        if end < s.len() {
            at = end + 1;
        } else {
            at = end;
            assert(s@.skip(at as int) =~= Seq::empty());
        }
    }
    assert(s@.skip(at as int) =~= Seq::empty());
    assert(done + Seq::<Seq<char>>::empty() =~= done);
    r
}

/// `s` up to its first white space.
pub open spec fn first_word(s: Seq<char>) -> Seq<char>
    decreases s.len(),
{
    if s.len() == 0 || space(s[0]) {
        Seq::empty()
    } else {
        seq![s[0]] + first_word(s.skip(1))
    }
}

/// Where the text that begins at `from` and stretches up to white space ends.
pub fn first_word_end(s: &[char], from: usize, to: usize) -> (end: usize)
    requires
        from <= to <= s@.len(),
    ensures
        from <= end <= to,
        s@.subrange(from as int, end as int) == first_word(s@.subrange(from as int, to as int)),
{
    let ghost part = s@.subrange(from as int, to as int);
    let mut i: usize = from;
    assert(s@.subrange(from as int, from as int) + first_word(part) =~= first_word(part));
    while i < to && !is_space(s[i])
        invariant
            from <= i <= to <= s@.len(),
            part == s@.subrange(from as int, to as int),
            first_word(part) == s@.subrange(from as int, i as int) + first_word(
                s@.subrange(i as int, to as int),
            ),
        decreases to - i,
    {
        let ghost rest = s@.subrange(i as int, to as int);
        assert(rest[0] == s@[i as int]);
        assert(rest.skip(1) =~= s@.subrange(i + 1, to as int));
        assert(s@.subrange(from as int, i as int) + (seq![rest[0]] + first_word(rest.skip(1)))
            =~= s@.subrange(from as int, i + 1) + first_word(rest.skip(1)));
        i += 1;
    }
    let ghost rest = s@.subrange(i as int, to as int);
    assert(first_word(rest) =~= Seq::empty()) by {
        if i < to {
            assert(rest[0] == s@[i as int]);
        }
    }
    assert(s@.subrange(from as int, i as int) + Seq::<char>::empty() =~= s@.subrange(
        from as int,
        i as int,
    ));
    i
}

/// Where `c` last occurs between `from` and `to`, if it does.
pub fn find_last_in(s: &[char], from: usize, to: usize, c: char) -> (i: Option<usize>)
    requires
        from <= to <= s@.len(),
    ensures
        match i {
            Some(i) => from <= i < to && find_last(s@.subrange(from as int, to as int), c) == Some(
                i - from,
            ),
            None => find_last(s@.subrange(from as int, to as int), c) is None,
        },
{
    let ghost part = s@.subrange(from as int, to as int);
    let mut i: usize = to;
    while i > from
        invariant
            from <= i <= to <= s@.len(),
            part == s@.subrange(from as int, to as int),
            find_last(s@.subrange(from as int, i as int), c) == find_last(part, c),
        decreases i - from,
    {
        let ghost cut = s@.subrange(from as int, i as int);
        assert(cut.last() == s@[i - 1]);
        if s[i - 1] == c {
            return Some(i - 1);
        }
        assert(cut.drop_last() =~= s@.subrange(from as int, i - 1));
        i -= 1;
    }
    None
}

/// `s` begins with `prefix`.
pub open spec fn begins_with(s: Seq<char>, prefix: Seq<char>) -> bool {
    prefix.len() <= s.len() && s.take(prefix.len() as int) == prefix
}

/// Whether the part of `s` between `from` and `to` begins with `prefix`.
pub fn starts(s: &[char], from: usize, to: usize, prefix: &[char]) -> (r: bool)
    requires
        from <= to <= s@.len(),
    ensures
        r == begins_with(s@.subrange(from as int, to as int), prefix@),
{
    if to - from < prefix.len() {
        return false;
    }
    let ghost part = s@.subrange(from as int, to as int);
    assert(part.take(prefix@.len() as int) =~= s@.subrange(from as int, from + prefix@.len()));
    reads(s, from, from + prefix.len(), prefix)
}

/// Adding a character to a text adds nothing to its words, begins one, or
/// continues the last.
proof fn lemma_words_grow(t: Seq<char>, c: char)
    ensures
        space(c) ==> words(t.push(c)) == words(t),
        !space(c) && (t.len() == 0 || space(t.last())) ==> words(t.push(c)) == words(t).push(
            seq![c],
        ) && without_last_word(t.push(c)) == t,
        !space(c) && t.len() > 0 && !space(t.last()) ==> {
            let head = without_last_word(t);
            &&& without_last_word(t.push(c)) == head
            &&& head.len() < t.len()
            &&& t.take(head.len() as int) == head
            &&& words(t) == words(head).push(t.skip(head.len() as int))
            &&& words(t.push(c)) == words(head).push(t.skip(head.len() as int).push(c))
        },
{
    let u = t.push(c);
    assert(u.drop_last() =~= t);
    if !space(c) {
        if t.len() == 0 || space(t.last()) {
            if t.len() == 0 {
                assert(without_last_word(u) =~= t);
                assert(u.skip(0) =~= seq![c]);
            } else {
                assert(find_last_space(u) == Some(t.len() - 1));
                assert(u.take(t.len() as int) =~= t);
                assert(u.skip(t.len() as int) =~= seq![c]);
            }
        } else {
            lemma_last_space(t);
            let head = without_last_word(t);
            assert(find_last_space(u) == find_last_space(t));
            assert(without_last_word(u) =~= head);
            assert(u.skip(head.len() as int) =~= t.skip(head.len() as int).push(c));
            assert(t.take(head.len() as int) =~= head);
        }
    }
}

proof fn lemma_last_space(s: Seq<char>)
    ensures
        match find_last_space(s) {
            Some(i) => 0 <= i < s.len() && space(s[i]),
            None => true,
        },
    decreases s.len(),
{
    if s.len() > 0 && !space(s.last()) {
        lemma_last_space(s.drop_last());
    }
}

/// Where the words between `from` and `to` begin and end.
pub fn word_ranges(s: &[char], from: usize, to: usize) -> (r: Vec<(usize, usize)>)
    requires
        from <= to <= s@.len(),
    ensures
        ({
            let ws = words(s@.subrange(from as int, to as int));
            &&& r@.len() == ws.len()
            &&& forall|i: int|
                0 <= i < r@.len() ==> from <= (#[trigger] r@[i]).0 <= r@[i].1 <= to && s@.subrange(
                    r@[i].0 as int,
                    r@[i].1 as int,
                ) == ws[i]
        }),
{
    let mut r: Vec<(usize, usize)> = Vec::new();
    let mut i: usize = from;
    let mut start: usize = from;
    let mut inside: bool = false;
    let ghost part = s@.subrange(from as int, to as int);
    assert(part.take(0) =~= Seq::empty());
    while i < to
        invariant
            from <= start <= i <= to <= s@.len(),
            part == s@.subrange(from as int, to as int),
            inside == (i > from && !space(s@[i - 1])),
            inside ==> start < i && r@.len() > 0 && r@.last() == (start, i) && without_last_word(
                part.take(i - from),
            ).len() == start - from,
            r@.len() == words(part.take(i - from)).len(),
            forall|j: int|
                0 <= j < r@.len() ==> from <= (#[trigger] r@[j]).0 <= r@[j].1 <= i && s@.subrange(
                    r@[j].0 as int,
                    r@[j].1 as int,
                ) == words(part.take(i - from))[j],
        decreases to - i,
    {
        let c: char = s[i];
        let ghost before = part.take(i - from);
        let ghost known = r@;
        proof {
            assert(part.take(i + 1 - from) =~= before.push(c));
            assert(i > from ==> before.last() == s@[i - 1]);
            lemma_words_grow(before, c);
        }
        if is_space(c) {
            inside = false;
        } else if inside {
            let last: usize = r.len() - 1;
            r.set(last, (start, i + 1));
            proof {
                let head = without_last_word(before);
                assert(s@.subrange(start as int, i + 1) =~= before.skip(head.len() as int).push(c));
                assert forall|j: int| 0 <= j < r@.len() implies from <= (#[trigger] r@[j]).0
                    <= r@[j].1 <= i + 1 && s@.subrange(r@[j].0 as int, r@[j].1 as int) == words(
                    before.push(c),
                )[j] by {
                    if j < last {
                        assert(r@[j] == known[j]);
                    }
                }
            }
        } else {
            start = i;
            inside = true;
            r.push((i, i + 1));
            proof {
                assert(s@.subrange(i as int, i + 1) =~= seq![c]);
                assert forall|j: int| 0 <= j < r@.len() implies from <= (#[trigger] r@[j]).0
                    <= r@[j].1 <= i + 1 && s@.subrange(r@[j].0 as int, r@[j].1 as int) == words(
                    before.push(c),
                )[j] by {
                    if j < known.len() {
                        assert(r@[j] == known[j]);
                    }
                }
            }
        }
        i += 1;
    }
    assert(part.take(i - from) =~= part);
    r
}

/// A number is written so that it reads back: in digits alone, without a zero
/// in front unless it is zero.
pub proof fn law_digits_read_back(n: nat)
    ensures
        all_decimal(digits(n)),
        number(digits(n)) == n,
        unsigned(digits(n)) == Some(n),
        digits(n).len() > 0,
        digits(n)[0] == '0' ==> n == 0 && digits(n).len() == 1,
    decreases n,
{
    let d = digits(n);
    if n < 10 {
        assert(d.drop_last() =~= Seq::<char>::empty());
        assert(number(d.drop_last()) == 0);
    } else {
        law_digits_read_back(n / 10);
        let rest = digits(n / 10);
        assert(d.drop_last() =~= rest);
        assert(d.last() == digit_char(n % 10));
        assert(d[0] == rest[0]);
        assert forall|i: int| 0 <= i < d.len() implies '0' <= #[trigger] d[i] <= '9' by {
            if i < rest.len() {
                assert(rest[i] == d[i]);
            }
        }
    }
    assert('0' <= d[0] <= '9');
}

/// A number in so many places has its low places there: none more, none fewer.
pub proof fn law_padded_digits_read_back(n: nat, width: nat)
    ensures
        padded_digits(n, width).len() == width,
        all_decimal(padded_digits(n, width)),
        number(padded_digits(n, width)) <= n,
        n < pow10(width) ==> number(padded_digits(n, width)) == n,
        number(padded_digits(n, width)) < pow10(width),
    decreases width,
{
    if width > 0 {
        let w = (width - 1) as nat;
        law_padded_digits_read_back(n / 10, w);
        let d = padded_digits(n, width);
        let rest = padded_digits(n / 10, w);
        assert(d.drop_last() =~= rest);
        assert(d.last() == digit_char(n % 10));
        assert forall|i: int| 0 <= i < d.len() implies '0' <= #[trigger] d[i] <= '9' by {
            if i < rest.len() {
                assert(rest[i] == d[i]);
            }
        }
    }
}

/// White space around a text, and nothing else, is what trimming takes away.
pub proof fn law_trimming_takes_outer_space(s: Seq<char>) -> (ends: (Seq<char>, Seq<char>))
    ensures
        s == ends.0 + trim(s) + ends.1,
        forall|i: int| 0 <= i < ends.0.len() ==> space(#[trigger] ends.0[i]),
        forall|i: int| 0 <= i < ends.1.len() ==> space(#[trigger] ends.1[i]),
        trim(s).len() > 0 ==> !space(trim(s)[0]) && !space(trim(s).last()),
{
    let t = trim_end(s);
    let behind = lemma_trim_end(s);
    let before = lemma_trim_start(t);
    assert(s =~= before + trim(s) + behind);
    if trim(s).len() > 0 {
        assert(trim(s).last() == t.last());
    }
    (before, behind)
}

proof fn lemma_trim_end(s: Seq<char>) -> (rest: Seq<char>)
    ensures
        s == trim_end(s) + rest,
        forall|i: int| 0 <= i < rest.len() ==> space(#[trigger] rest[i]),
        trim_end(s).len() > 0 ==> !space(trim_end(s).last()),
    decreases s.len(),
{
    if s.len() > 0 && space(s.last()) {
        let rest = lemma_trim_end(s.drop_last());
        let more = rest.push(s.last());
        assert(s =~= s.drop_last().push(s.last()));
        assert(trim_end(s) + more =~= (trim_end(s) + rest).push(s.last()));
        more
    } else {
        assert(s =~= trim_end(s) + Seq::<char>::empty());
        Seq::empty()
    }
}

proof fn lemma_trim_start(s: Seq<char>) -> (rest: Seq<char>)
    ensures
        s == rest + trim_start(s),
        forall|i: int| 0 <= i < rest.len() ==> space(#[trigger] rest[i]),
        trim_start(s).len() > 0 ==> !space(trim_start(s)[0]),
    decreases s.len(),
{
    if s.len() > 0 && space(s[0]) {
        let rest = lemma_trim_start(s.skip(1));
        let more = seq![s[0]] + rest;
        assert(s =~= seq![s[0]] + s.skip(1));
        assert(more + trim_start(s) =~= seq![s[0]] + (rest + trim_start(s)));
        assert forall|i: int| 0 <= i < more.len() implies space(#[trigger] more[i]) by {
            if i > 0 {
                assert(more[i] == rest[i - 1]);
            }
        }
        more
    } else {
        assert(s =~= Seq::<char>::empty() + trim_start(s));
        Seq::empty()
    }
}

/// A text without white space at its ends is its own trimming.
pub proof fn law_trimming_keeps_the_rest(s: Seq<char>)
    requires
        s.len() > 0 ==> !space(s[0]) && !space(s.last()),
    ensures
        trim(s) == s,
{
}

/// A line and a newline before a text make one more line of it.
pub proof fn law_a_line_stands_before_its_newline(line: Seq<char>, rest: Seq<char>)
    requires
        forall|i: int| 0 <= i < line.len() ==> line[i] != '\n',
    ensures
        lines(line + seq!['\n'] + rest) == seq![line] + lines(rest),
        line.len() > 0 ==> lines(line) == seq![line],
{
    let s = line + seq!['\n'] + rest;
    let n = line.len() as int;
    assert(s[n] == '\n');
    assert forall|j: int| 0 <= j < n implies s[j] != '\n' by {
        assert(s[j] == line[j]);
    }
    lemma_find_is(s, '\n', n);
    assert(s.take(n) =~= line);
    assert(s.skip(n + 1) =~= rest);
    lemma_find_is(line, '\n', n);
}

/// White space separates words: those before it and those behind it are the
/// words of the whole, and a stretch without any is one word.
pub proof fn law_words_stand_between_spaces(before: Seq<char>, c: char, behind: Seq<char>)
    requires
        space(c),
    ensures
        words(before.push(c) + behind) == words(before) + words(behind),
        behind.len() > 0 && (forall|i: int| 0 <= i < behind.len() ==> !space(#[trigger] behind[i]))
            ==> words(behind) == seq![behind],
    decreases behind.len(),
{
    let s = before.push(c) + behind;
    if behind.len() == 0 {
        assert(s =~= before.push(c));
        assert(s.drop_last() =~= before);
        assert(words(before) + words(behind) =~= words(before));
    } else {
        let x = behind.last();
        let rest = behind.drop_last();
        law_words_stand_between_spaces(before, c, rest);
        assert(s.drop_last() =~= before.push(c) + rest);
        assert(s.last() == x);
        assert(s =~= s.drop_last().push(x));
        assert(behind =~= rest.push(x));
        if space(x) {
        } else {
            lemma_words_grow(s.drop_last(), x);
            lemma_words_grow(rest, x);
            let t = s.drop_last();
            if rest.len() == 0 {
                assert(t.last() == c);
                assert(words(s) =~= words(before) + words(behind));
            } else if space(rest.last()) {
                assert(t.last() == rest.last());
                assert(words(s) =~= words(before) + words(behind));
            } else {
                assert(t.last() == rest.last());
                let head = without_last_word(rest);
                let whole = without_last_word(t);
                lemma_last_word_is_behind(before.push(c), rest);
                assert(whole =~= before.push(c) + head);
                law_words_stand_between_spaces(before, c, head);
                assert(t.skip(whole.len() as int) =~= rest.skip(head.len() as int));
                assert(words(s) =~= words(before) + words(behind));
            }
        }
        if forall|i: int| 0 <= i < behind.len() ==> !space(#[trigger] behind[i]) {
            lemma_no_space(behind);
            assert(behind.skip(0) =~= behind);
            assert(words(behind) =~= seq![behind]);
        }
    }
}

proof fn lemma_no_space(s: Seq<char>)
    requires
        forall|i: int| 0 <= i < s.len() ==> !space(#[trigger] s[i]),
    ensures
        find_last_space(s) is None,
    decreases s.len(),
{
    if s.len() > 0 {
        let rest = s.drop_last();
        assert forall|i: int| 0 <= i < rest.len() implies !space(#[trigger] rest[i]) by {
            assert(rest[i] == s[i]);
        }
        assert(!space(s[s.len() - 1]));
        lemma_no_space(rest);
    }
}

/// What stands before a text that ends without white space, and itself ends in
/// white space, is no part of its last word.
proof fn lemma_last_word_is_behind(front: Seq<char>, s: Seq<char>)
    requires
        front.len() > 0,
        space(front.last()),
    ensures
        s.len() > 0 && !space(s.last()) ==> without_last_word(front + s) == front
            + without_last_word(s),
        find_last_space(front + s) == match find_last_space(s) {
            Some(i) => Some(front.len() + i),
            None => Some(front.len() - 1),
        },
    decreases s.len(),
{
    let all = front + s;
    if s.len() == 0 {
        assert(all =~= front);
    } else {
        assert(all.last() == s.last());
        assert(all.drop_last() =~= front + s.drop_last());
        lemma_last_word_is_behind(front, s.drop_last());
        lemma_last_space(s);
        if !space(s.last()) {
            match find_last_space(s) {
                Some(i) => {
                    assert(i < s.len() - 1);
                    assert(all.take(front.len() + i + 1) =~= front + s.take(i + 1));
                },
                None => {
                    assert(all.take(front.len() as int) =~= front + Seq::<char>::empty());
                },
            }
        }
    }
}

/// The last occurrence of a character is one, and none stands behind it.
pub proof fn law_last_occurrence(s: Seq<char>, c: char)
    ensures
        match find_last(s, c) {
            Some(i) => 0 <= i < s.len() && s[i] == c && forall|j: int|
                i < j < s.len() ==> s[j] != c,
            None => forall|j: int| 0 <= j < s.len() ==> s[j] != c,
        },
    decreases s.len(),
{
    if s.len() > 0 && s.last() != c {
        let rest = s.drop_last();
        law_last_occurrence(rest, c);
        match find_last(rest, c) {
            Some(i) => {
                assert(s[i] == rest[i]);
                assert forall|j: int| i < j < s.len() implies s[j] != c by {
                    if j < rest.len() {
                        assert(rest[j] == s[j]);
                    }
                }
            },
            None => {
                assert forall|j: int| 0 <= j < s.len() implies s[j] != c by {
                    if j < rest.len() {
                        assert(rest[j] == s[j]);
                    }
                }
            },
        }
    }
}

} // verus!
