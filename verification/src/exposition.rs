//! Prometheus text exposition: from the body of a scrape to counter values.
//!
//! Which series are read is declared by the schema; here stands the shape of a
//! line. Only counters and histogram sums are read, selected by the
//! `model_name` label.
use vstd::prelude::*;
use vstd::string::*;

use crate::numeral::{
    below_zero, counter, nanoseconds, read_below_zero, read_counter, read_nanoseconds, read_shape,
    shape, Reading, Shape,
};
use crate::schema::{schema_of, Aggregation, Engine, EngineSchema, Series};
use crate::shortest::{push_shortest, shortest};
use crate::stats::total;
use crate::text::{
    chars_of, find, find_in, find_last_space, find_last_space_in, law_trimming_keeps_the_rest,
    lemma_find_is, line_ranges, lines, reads, space, string_of, trim, trim_range,
};

verus! {

/// What can go wrong with one scrape of a metrics endpoint.
#[derive(Debug, Clone, PartialEq, Eq)]
pub enum MetricsError {
    /// The request failed.
    Http {
        /// What the transport reported.
        message: String,
    },
    /// The endpoint answered with a status that is no success.
    Status {
        /// The status code.
        status: u16,
    },
    /// The body does not hold what was expected.
    Parse {
        /// What was expected and missing.
        detail: String,
    },
}

impl MetricsError {
    /// The error in words.
    pub open spec fn words(self) -> Seq<char> {
        match self {
            MetricsError::Http { message } => "metrics request failed: "@ + message@,
            MetricsError::Status { status } => "metrics endpoint returned status "@
                + crate::text::digits(status as nat),
            MetricsError::Parse { detail } => "failed to parse metrics body: "@ + detail@,
        }
    }

    /// The error in words.
    pub fn message(&self) -> (text: String)
        ensures
            text@ == self.words(),
    {
        match self {
            MetricsError::Http { message } => {
                let mut text: String = String::from_str("metrics request failed: ");
                text.append(message.as_str());
                text
            },
            MetricsError::Status { status } => {
                let mut text: String = String::from_str("metrics endpoint returned status ");
                crate::text::push_decimal(&mut text, *status as u128);
                text
            },
            MetricsError::Parse { detail } => {
                let mut text: String = String::from_str("failed to parse metrics body: ");
                text.append(detail.as_str());
                text
            },
        }
    }
}

/// `s` as std's `Debug` writes it: in double quotes, with escapes.
pub uninterp spec fn quoted(s: Seq<char>) -> Seq<char>;

/// `Debug` of `str`: what it writes is a function of the text alone. How it
/// escapes is left unsaid.
#[verifier::external_body]
fn quote(s: &str) -> (r: String)
    ensures
        r@ == quoted(s@),
{
    format!("{:?}", s)
}

// ---------------------------------------------------------------------------
// The shape of a line.
// ---------------------------------------------------------------------------

/// One sample as a line gives it.
pub struct Sample {
    /// The metric name: what stands before the brace.
    pub name: Seq<char>,
    /// What stands between the braces.
    pub labels: Seq<char>,
    /// What stands behind the last white space.
    pub value: Seq<char>,
}

/// `s` without a final `c`.
pub open spec fn without_final(s: Seq<char>, c: char) -> Seq<char> {
    if s.len() > 0 && s.last() == c {
        s.drop_last()
    } else {
        s
    }
}

/// The sample a line gives; none for a blank line, a comment or a single word.
pub open spec fn sample(line: Seq<char>) -> Option<Sample> {
    let text = trim(line);
    if text.len() == 0 || text[0] == '#' {
        None
    } else {
        match find_last_space(text) {
            None => None,
            Some(i) => {
                let raw = trim(text.take(i));
                let value = trim(text.skip(i + 1));
                match find(raw, '{') {
                    Some(j) => Some(
                        Sample {
                            name: raw.take(j),
                            labels: without_final(raw.skip(j + 1), '}'),
                            value,
                        },
                    ),
                    None => Some(Sample { name: raw, labels: Seq::empty(), value }),
                }
            },
        }
    }
}

/// `s` without the double quotes around it.
pub open spec fn unquoted(s: Seq<char>) -> Option<Seq<char>> {
    if s.len() >= 2 && s[0] == '"' && s.last() == '"' {
        Some(s.subrange(1, s.len() - 1))
    } else {
        None
    }
}

/// Where the first of the comma-separated labels ends. `inside` says whether
/// `labels` begins inside a quoted value; a comma in there separates nothing,
/// and a quote behind a backslash does not close it.
pub open spec fn first_end(labels: Seq<char>, inside: bool) -> nat
    decreases labels.len(),
{
    if labels.len() == 0 {
        0
    } else if inside && labels[0] == '\\' && labels.len() >= 2 {
        2 + first_end(labels.skip(2), inside)
    } else if labels[0] == '"' {
        1 + first_end(labels.skip(1), !inside)
    } else if labels[0] == ',' && !inside {
        0
    } else {
        1 + first_end(labels.skip(1), inside)
    }
}

/// The value of one label, if it is a pair with the key `key` and a value in
/// quotes.
pub open spec fn pair_value(pair: Seq<char>, key: Seq<char>) -> Option<Seq<char>> {
    match find(trim(pair), '=') {
        None => None,
        Some(e) => if trim(trim(pair).take(e)) == key {
            unquoted(trim(trim(pair).skip(e + 1)))
        } else {
            None
        },
    }
}

/// The value of the label `key`, wherever it stands and whatever stands beside
/// it: that of the first label that has the key and a value in quotes.
pub open spec fn label(labels: Seq<char>, key: Seq<char>) -> Option<Seq<char>>
    decreases labels.len(),
{
    let end = first_end(labels, false) as int;
    match pair_value(labels.take(end), key) {
        Some(value) => Some(value),
        None => if end < labels.len() {
            label(labels.skip(end + 1), key)
        } else {
            None
        },
    }
}

/// Positions of the parts of a sample within a text.
pub struct SampleAt {
    /// The metric name.
    pub name: (usize, usize),
    /// What stands between the braces.
    pub labels: (usize, usize),
    /// The value.
    pub value: (usize, usize),
}

/// The text between two positions.
pub open spec fn between(s: Seq<char>, r: (usize, usize)) -> Seq<char> {
    s.subrange(r.0 as int, r.1 as int)
}

/// Whether two positions enclose a part of a text.
pub open spec fn is_range(s: Seq<char>, r: (usize, usize)) -> bool {
    r.0 <= r.1 <= s.len()
}

/// The sample that the part of `s` between `from` and `to` gives as a line.
pub fn sample_at(s: &[char], from: usize, to: usize) -> (r: Option<SampleAt>)
    requires
        from <= to <= s@.len(),
    ensures
        ({
            let line = sample(s@.subrange(from as int, to as int));
            &&& r is Some <==> line is Some
            &&& r matches Some(at) ==> {
                &&& is_range(s@, at.name)
                &&& is_range(s@, at.labels)
                &&& is_range(s@, at.value)
                &&& between(s@, at.name) == line->0.name
                &&& between(s@, at.labels) == line->0.labels
                &&& between(s@, at.value) == line->0.value
            }
        }),
{
    let (a, b) = trim_range(s, from, to);
    let ghost text = s@.subrange(a as int, b as int);
    if a == b || s[a] == '#' {
        assert(a < b ==> text[0] == s@[a as int]);
        return None;
    }
    assert(text[0] == s@[a as int]);
    match find_last_space_in(s, a, b) {
        None => None,
        Some(i) => {
            let (c, d) = trim_range(s, a, i);
            let value: (usize, usize) = trim_range(s, i + 1, b);
            let ghost raw = s@.subrange(c as int, d as int);
            proof {
                assert(text.take(i - a) =~= s@.subrange(a as int, i as int));
                assert(text.skip(i - a + 1) =~= s@.subrange(i + 1, b as int));
            }
            let j: usize = find_in(s, c, d, '{');
            if j < d {
                let end: usize = if j + 1 < d && s[d - 1] == '}' {
                    d - 1
                } else {
                    d
                };
                proof {
                    let rest = raw.skip(j - c + 1);
                    assert(raw.take(j - c) =~= s@.subrange(c as int, j as int));
                    assert(rest =~= s@.subrange(j + 1, d as int));
                    if j + 1 < d {
                        assert(rest.last() == s@[d - 1]);
                        assert(rest.drop_last() =~= s@.subrange(j + 1, d - 1));
                    }
                }
                Some(SampleAt { name: (c, j), labels: (j + 1, end), value })
            } else {
                assert(s@.subrange(d as int, d as int) =~= Seq::<char>::empty());
                Some(SampleAt { name: (c, d), labels: (d, d), value })
            }
        },
    }
}

/// Where the label that begins at `from` ends.
fn first_end_in(s: &[char], from: usize, to: usize) -> (end: usize)
    requires
        from <= to <= s@.len(),
    ensures
        from <= end <= to,
        end - from == first_end(s@.subrange(from as int, to as int), false),
{
    let mut inside: bool = false;
    let mut i: usize = from;
    while i < to
        invariant_except_break
            first_end(s@.subrange(from as int, to as int), false) == i - from + first_end(
                s@.subrange(i as int, to as int),
                inside,
            ),
        invariant
            from <= i <= to <= s@.len(),
        ensures
            first_end(s@.subrange(from as int, to as int), false) == i - from,
        decreases to - i,
    {
        let ghost rest = s@.subrange(i as int, to as int);
        let c: char = s[i];
        proof {
            assert(rest[0] == c);
            assert(rest.skip(1) =~= s@.subrange(i + 1, to as int));
        }
        if inside && c == '\\' && to - i >= 2 {
            assert(rest.skip(2) =~= s@.subrange(i + 2, to as int));
            i += 2;
        } else if c == '"' {
            inside = !inside;
            i += 1;
        } else if c == ',' && !inside {
            break;
        } else {
            i += 1;
        }
    }
    i
}

/// Where the value of the label between `from` and `to` stands, if the label
/// has the key and a value in quotes.
fn pair_value_at(s: &[char], from: usize, to: usize, key: &[char]) -> (r: Option<(usize, usize)>)
    requires
        from <= to <= s@.len(),
    ensures
        ({
            let v = pair_value(s@.subrange(from as int, to as int), key@);
            &&& r is Some <==> v is Some
            &&& r matches Some(at) ==> from <= at.0 <= at.1 <= to && between(s@, at) == v->0
        }),
{
    let (a, b) = trim_range(s, from, to);
    let ghost part = s@.subrange(a as int, b as int);
    let e: usize = find_in(s, a, b, '=');
    if e == b {
        return None;
    }
    let (c, d) = trim_range(s, a, e);
    assert(part.take(e - a) =~= s@.subrange(a as int, e as int));
    if !reads(s, c, d, key) {
        return None;
    }
    let (f, g) = trim_range(s, e + 1, b);
    let ghost v = s@.subrange(f as int, g as int);
    assert(part.skip(e - a + 1) =~= s@.subrange(e + 1, b as int));
    if g - f >= 2 && s[f] == '"' && s[g - 1] == '"' {
        assert(v[0] == s@[f as int] && v.last() == s@[g - 1]);
        assert(v.subrange(1, v.len() - 1) =~= s@.subrange(f + 1, g - 1));
        Some((f + 1, g - 1))
    } else {
        assert(v.len() >= 2 ==> v[0] == s@[f as int] && v.last() == s@[g - 1]);
        None
    }
}

/// Where the value of the label `key` stands among the labels between `from`
/// and `to`.
pub fn label_at(s: &[char], from: usize, to: usize, key: &[char]) -> (r: Option<(usize, usize)>)
    requires
        from <= to <= s@.len(),
    ensures
        ({
            let l = label(s@.subrange(from as int, to as int), key@);
            &&& r is Some <==> l is Some
            &&& r matches Some(at) ==> from <= at.0 <= at.1 <= to && between(s@, at) == l->0
        }),
    decreases to - from,
{
    let ghost labels = s@.subrange(from as int, to as int);
    let end: usize = first_end_in(s, from, to);
    assert(labels.take(end - from) =~= s@.subrange(from as int, end as int));
    match pair_value_at(s, from, end, key) {
        Some(at) => Some(at),
        None => {
            if end < to {
                assert(labels.skip(end - from + 1) =~= s@.subrange(end + 1, to as int));
                label_at(s, end + 1, to, key)
            } else {
                None
            }
        },
    }
}

/// The value of the label `key` in the text between the braces of a line.
/// Neither its position nor the values of other labels matter.
pub fn extract_label<'a>(labels: &'a str, key: &str) -> (r: Option<&'a str>)
    ensures
        match label(labels@, key@) {
            Some(v) => r is Some && r->0@ == v,
            None => r is None,
        },
{
    let text: Vec<char> = chars_of(labels);
    let wanted: Vec<char> = chars_of(key);
    assert(text@.subrange(0, text@.len() as int) =~= labels@);
    match label_at(&text, 0, text.len(), &wanted) {
        Some((from, to)) => Some(labels.substring_char(from, to)),
        None => None,
    }
}

// ---------------------------------------------------------------------------
// From lines to values.
// ---------------------------------------------------------------------------

/// Whether `r` is what `expected` says: the same value, or a parse error that
/// carries the expected words.
pub open spec fn reads_as<T>(r: Result<T, MetricsError>, expected: Result<T, Seq<char>>) -> bool {
    match (r, expected) {
        (Ok(value), Ok(wanted)) => value == wanted,
        (Err(MetricsError::Parse { detail }), Err(words)) => detail@ == words,
        _ => false,
    }
}

/// The complaint about a value that is no number.
pub open spec fn not_a_number(metric: Seq<char>, value: Seq<char>) -> Seq<char> {
    "metric "@ + metric + ": value "@ + quoted(value) + " is not a number"@
}

/// A number in a complaint: what is not finite by its name, what is below zero
/// with as few digits as read as the same double-precision value.
pub open spec fn shown(value: Seq<char>) -> Seq<char> {
    match shape(value) {
        Shape::Nan => "NaN"@,
        Shape::Infinite { negative } => if negative {
            "-inf"@
        } else {
            "inf"@
        },
        Shape::Other => match below_zero(value) {
            Some(x) => "-"@ + shortest(x),
            None => value,
        },
    }
}

/// A number in a complaint.
fn show(value: &str) -> (s: String)
    ensures
        s@ == shown(value@),
{
    let text: Vec<char> = chars_of(value);
    assert(text@.subrange(0, text@.len() as int) =~= value@);
    match read_shape(&text, 0, text.len()) {
        Shape::Nan => String::from_str("NaN"),
        Shape::Infinite { negative } => if negative {
            String::from_str("-inf")
        } else {
            String::from_str("inf")
        },
        Shape::Other => match read_below_zero(&text, 0, text.len()) {
            Some(x) => {
                let mut s: String = String::from_str("-");
                push_shortest(&mut s, x);
                s
            },
            None => String::from_str(value),
        },
    }
}

/// The complaint about a value that is negative or not finite.
pub open spec fn not_valid(metric: Seq<char>, value: Seq<char>, verdict: Seq<char>) -> Seq<char> {
    "metric "@ + metric + ": value "@ + shown(value) + verdict
}

/// The complaint about a sum that is too large.
pub open spec fn too_large(metric: Seq<char>) -> Seq<char> {
    "metric "@ + metric + ": summed value overflows u64"@
}

/// The complaint about a series that is not in the body.
pub open spec fn missing(metric: Seq<char>, model_name: Seq<char>) -> Seq<char> {
    "metric "@ + metric + " not found for model_name "@ + quoted(model_name)
}

/// What a value text reads as, or what is wrong with it.
pub open spec fn reading_of(
    reading: Reading,
    value: Seq<char>,
    metric: Seq<char>,
    verdict: Seq<char>,
) -> Result<u64, Seq<char>> {
    match reading {
        Reading::NotANumber => Err(not_a_number(metric, value)),
        Reading::Invalid => Err(not_valid(metric, value, verdict)),
        Reading::Value(n) => Ok(n),
    }
}

/// A value text as a counter.
pub open spec fn counter_value(value: Seq<char>, metric: Seq<char>) -> Result<u64, Seq<char>> {
    reading_of(counter(value), value, metric, " is not a valid counter"@)
}

/// A value text as seconds, in nanoseconds.
pub open spec fn duration_value(value: Seq<char>, metric: Seq<char>) -> Result<u64, Seq<char>> {
    reading_of(nanoseconds(value), value, metric, " is not a valid duration"@)
}

/// Whether a sample belongs to the series for the model.
pub open spec fn belongs(
    s: Sample,
    name: Seq<char>,
    aggregation: Aggregation,
    model_name: Seq<char>,
) -> bool {
    &&& s.name == name
    &&& label(s.labels, "model_name"@) == Some(model_name)
    &&& match aggregation {
        Aggregation::Single => true,
        Aggregation::SumOverLabel { label: split, excluded } => label(s.labels, split@) != Some(
            excluded@,
        ),
    }
}

/// The value texts of the samples that belong to the series, in order.
pub open spec fn selected(
    ls: Seq<Seq<char>>,
    name: Seq<char>,
    aggregation: Aggregation,
    model_name: Seq<char>,
) -> Seq<Seq<char>>
    decreases ls.len(),
{
    if ls.len() == 0 {
        Seq::empty()
    } else {
        let before = selected(ls.drop_last(), name, aggregation, model_name);
        match sample(ls.last()) {
            Some(s) => if belongs(s, name, aggregation, model_name) {
                before.push(s.value)
            } else {
                before
            },
            None => before,
        }
    }
}

/// The sum of the value texts, from the first on; the first complaint if one
/// of them does not read or the sum grows too large.
pub open spec fn summed(values: Seq<Seq<char>>, metric: Seq<char>) -> Result<
    Option<u64>,
    Seq<char>,
>
    decreases values.len(),
{
    if values.len() == 0 {
        Ok(None)
    } else {
        match summed(values.drop_last(), metric) {
            Err(words) => Err(words),
            Ok(before) => match counter_value(values.last(), metric) {
                Err(words) => Err(words),
                Ok(n) => {
                    let running = match before {
                        Some(m) => m,
                        None => 0,
                    };
                    if running + n > u64::MAX {
                        Err(too_large(metric))
                    } else {
                        Ok(Some((running + n) as u64))
                    }
                },
            },
        }
    }
}

/// What a body holds of a series: nothing, a value, or a complaint.
pub open spec fn series_value(body: Seq<char>, series: Series, model_name: Seq<char>) -> Result<
    Option<u64>,
    Seq<char>,
> {
    let values = selected(lines(body), series.name@, series.aggregation, model_name);
    match series.aggregation {
        Aggregation::Single => if values.len() == 0 {
            Ok(None)
        } else {
            match counter_value(values[0], series.name@) {
                Ok(n) => Ok(Some(n)),
                Err(words) => Err(words),
            }
        },
        Aggregation::SumOverLabel { .. } => summed(values, series.name@),
    }
}

/// A value that has to be there.
pub open spec fn required(
    value: Result<Option<u64>, Seq<char>>,
    metric: Seq<char>,
    model_name: Seq<char>,
) -> Result<u64, Seq<char>> {
    match value {
        Err(words) => Err(words),
        Ok(Some(n)) => Ok(n),
        Ok(None) => Err(missing(metric, model_name)),
    }
}

/// What a body holds of a sum of seconds, in nanoseconds.
pub open spec fn seconds_value(
    body: Seq<char>,
    metric: Seq<char>,
    model_name: Seq<char>,
) -> Result<u64, Seq<char>> {
    let values = selected(lines(body), metric, Aggregation::Single, model_name);
    if values.len() == 0 {
        Err(missing(metric, model_name))
    } else {
        duration_value(values[0], metric)
    }
}

fn complain(start: &str, metric: &str, middle: &str, subject: &str, end: &str) -> (e: MetricsError)
    ensures
        e matches MetricsError::Parse { detail } && detail@ == start@ + metric@ + middle@ + subject@
            + end@,
{
    let mut detail: String = String::from_str(start);
    detail.append(metric);
    detail.append(middle);
    detail.append(subject);
    detail.append(end);
    MetricsError::Parse { detail }
}

/// Reads a value text as a counter: a non-negative finite number, cut to an
/// integer.
pub fn parse_counter_value(value: &str, metric: &str) -> (r: Result<u64, MetricsError>)
    ensures
        reads_as(r, counter_value(value@, metric@)),
{
    let text: Vec<char> = chars_of(value);
    assert(text@.subrange(0, text@.len() as int) =~= value@);
    match read_counter(&text, 0, text.len()) {
        Reading::Value(n) => Ok(n),
        Reading::NotANumber => {
            Err(complain("metric ", metric, ": value ", &quote(value), " is not a number"))
        },
        Reading::Invalid => {
            Err(complain("metric ", metric, ": value ", &show(value), " is not a valid counter"))
        },
    }
}

/// Reads a value text as a duration in seconds: a non-negative finite number,
/// rounded to whole nanoseconds.
pub fn parse_duration_value(value: &str, metric: &str) -> (r: Result<u64, MetricsError>)
    ensures
        reads_as(r, duration_value(value@, metric@)),
{
    let text: Vec<char> = chars_of(value);
    assert(text@.subrange(0, text@.len() as int) =~= value@);
    match read_nanoseconds(&text, 0, text.len()) {
        Reading::Value(n) => Ok(n),
        Reading::NotANumber => {
            Err(complain("metric ", metric, ": value ", &quote(value), " is not a number"))
        },
        Reading::Invalid => {
            Err(complain("metric ", metric, ": value ", &show(value), " is not a valid duration"))
        },
    }
}

/// The value texts of a series.
fn selected_texts(
    body: &str,
    name: &str,
    aggregation: Aggregation,
    model_name: &str,
) -> (r: Vec<String>)
    ensures
        r@.len() == selected(lines(body@), name@, aggregation, model_name@).len(),
        forall|i: int|
            0 <= i < r@.len() ==> (#[trigger] r@[i])@ == selected(
                lines(body@),
                name@,
                aggregation,
                model_name@,
            )[i],
{
    let text: Vec<char> = chars_of(body);
    let wanted: Vec<char> = chars_of(name);
    let key: Vec<char> = chars_of("model_name");
    let model: Vec<char> = chars_of(model_name);
    let ranges: Vec<(usize, usize)> = line_ranges(&text);
    let mut r: Vec<String> = Vec::new();
    let mut i: usize = 0;
    let ghost ls = lines(body@);
    assert(ls.take(0) =~= Seq::empty());
    while i < ranges.len()
        invariant
            i <= ranges@.len(),
            ls == lines(text@),
            ranges@.len() == ls.len(),
            forall|j: int|
                0 <= j < ranges@.len() ==> (#[trigger] ranges@[j]).0 <= ranges@[j].1 <= text@.len()
                    && text@.subrange(ranges@[j].0 as int, ranges@[j].1 as int) == ls[j],
            wanted@ == name@,
            key@ == "model_name"@,
            model@ == model_name@,
            r@.len() == selected(ls.take(i as int), name@, aggregation, model_name@).len(),
            forall|j: int|
                0 <= j < r@.len() ==> (#[trigger] r@[j])@ == selected(
                    ls.take(i as int),
                    name@,
                    aggregation,
                    model_name@,
                )[j],
        decreases ranges@.len() - i,
    {
        let (from, to) = ranges[i];
        let ghost now = ls.take(i + 1);
        assert(now.drop_last() =~= ls.take(i as int));
        assert(now.last() == ls[i as int]);
        assert(text@.subrange(ranges@[i as int].0 as int, ranges@[i as int].1 as int)
            == ls[i as int]);
        match sample_at(&text, from, to) {
            Some(at) => {
                if is_wanted(&text, &at, &wanted, &key, aggregation, &model) {
                    r.push(range_string(&text, at.value.0, at.value.1));
                }
            },
            None => {},
        }
        i += 1;
    }
    assert(ls.take(i as int) =~= ls);
    r
}

/// The characters between two positions, as a string.
pub fn range_string(s: &[char], from: usize, to: usize) -> (r: String)
    requires
        from <= to <= s@.len(),
    ensures
        r@ == s@.subrange(from as int, to as int),
{
    string_of(vstd::slice::slice_subrange(s, from, to))
}

/// Whether the label `key` carries `value`.
fn carries(s: &[char], at: (usize, usize), key: &[char], value: &[char]) -> (r: bool)
    requires
        is_range(s@, at),
    ensures
        r == (label(between(s@, at), key@) == Some(value@)),
{
    match label_at(s, at.0, at.1, key) {
        Some((from, to)) => reads(s, from, to, value),
        None => false,
    }
}

fn is_wanted(
    s: &[char],
    at: &SampleAt,
    name: &[char],
    key: &[char],
    aggregation: Aggregation,
    model: &[char],
) -> (r: bool)
    requires
        is_range(s@, at.name),
        is_range(s@, at.labels),
        key@ == "model_name"@,
    ensures
        r == belongs(
            (Sample {
                name: between(s@, at.name),
                labels: between(s@, at.labels),
                value: between(s@, at.value),
            }),
            name@,
            aggregation,
            model@,
        ),
{
    if !reads(s, at.name.0, at.name.1, name) || !carries(s, at.labels, key, model) {
        return false;
    }
    match aggregation {
        Aggregation::Single => true,
        Aggregation::SumOverLabel { label: split, excluded } => {
            let split: Vec<char> = chars_of(split);
            let excluded: Vec<char> = chars_of(excluded);
            !carries(s, at.labels, &split, &excluded)
        },
    }
}

/// Reads one series from a body: the lines with exactly its name and the given
/// model, reduced as the series declares. `None` says that the body does not
/// hold it, which is a fact and no failure.
pub fn parse_series(body: &str, series: &Series, model_name: &str) -> (r: Result<
    Option<u64>,
    MetricsError,
>)
    ensures
        reads_as(r, series_value(body@, *series, model_name@)),
{
    let texts: Vec<String> = selected_texts(body, series.name, series.aggregation, model_name);
    let ghost values = selected(lines(body@), series.name@, series.aggregation, model_name@);
    match series.aggregation {
        Aggregation::Single => {
            if texts.len() == 0 {
                return Ok(None);
            }
            match parse_counter_value(&texts[0], series.name) {
                Ok(n) => Ok(Some(n)),
                Err(e) => Err(e),
            }
        },
        Aggregation::SumOverLabel { .. } => {
            let mut total: Option<u64> = None;
            let mut i: usize = 0;
            assert(values.take(0) =~= Seq::empty());
            while i < texts.len()
                invariant
                    i <= texts@.len() == values.len(),
                    values == selected(
                        lines(body@),
                        series.name@,
                        series.aggregation,
                        model_name@,
                    ),
                    series.aggregation is SumOverLabel,
                    forall|j: int| 0 <= j < texts@.len() ==> (#[trigger] texts@[j])@ == values[j],
                    summed(values.take(i as int), series.name@) == Ok::<Option<u64>, Seq<char>>(
                        total,
                    ),
                decreases texts@.len() - i,
            {
                let ghost now = values.take(i + 1);
                assert(now.drop_last() =~= values.take(i as int));
                assert(now.last() == texts@[i as int]@);
                match parse_counter_value(&texts[i], series.name) {
                    Ok(n) => {
                        let running: u64 = match total {
                            Some(m) => m,
                            None => 0,
                        };
                        match running.checked_add(n) {
                            Some(sum) => {
                                total = Some(sum);
                            },
                            None => {
                                let e: MetricsError = complain(
                                    "metric ",
                                    series.name,
                                    ": summed value overflows u64",
                                    "",
                                    "",
                                );
                                proof {
                                    reveal_strlit("");
                                    assert(""@ =~= Seq::<char>::empty());
                                    lemma_stops(values, series.name@, i + 1);
                                }
                                return Err(e);
                            },
                        }
                    },
                    Err(e) => {
                        proof {
                            lemma_stops(values, series.name@, i + 1);
                        }
                        return Err(e);
                    },
                }
                i += 1;
            }
            assert(values.take(i as int) =~= values);
            Ok(total)
        },
    }
}

/// A complaint about the first values is the complaint about all of them.
proof fn lemma_stops(values: Seq<Seq<char>>, metric: Seq<char>, n: int)
    requires
        0 <= n <= values.len(),
        summed(values.take(n), metric) is Err,
    ensures
        summed(values, metric) == summed(values.take(n), metric),
    decreases values.len(),
{
    if n == values.len() {
        assert(values.take(n) =~= values);
    } else {
        let before = values.drop_last();
        assert(before.take(n) =~= values.take(n));
        lemma_stops(before, metric, n);
    }
}

/// Turns the absence of a required series into an error.
pub fn require(value: Option<u64>, metric: &str, model_name: &str) -> (r: Result<
    u64,
    MetricsError,
>)
    ensures
        reads_as(r, required(Ok(value), metric@, model_name@)),
{
    match value {
        Some(n) => Ok(n),
        None => {
            let e: MetricsError = complain(
                "metric ",
                metric,
                " not found for model_name ",
                &quote(model_name),
                "",
            );
            proof {
                reveal_strlit("");
                assert(""@ =~= Seq::<char>::empty());
            }
            Err(e)
        },
    }
}

/// Reads a sum of seconds from a body, in nanoseconds.
pub fn parse_seconds_as_nanos(body: &str, metric: &str, model_name: &str) -> (r: Result<
    u64,
    MetricsError,
>)
    ensures
        reads_as(r, seconds_value(body@, metric@, model_name@)),
{
    let texts: Vec<String> = selected_texts(body, metric, Aggregation::Single, model_name);
    if texts.len() == 0 {
        require(None, metric, model_name)
    } else {
        parse_duration_value(&texts[0], metric)
    }
}

/// What a body holds of a time the schema may not declare.
pub open spec fn phase_time_value(
    body: Seq<char>,
    metric: Option<&'static str>,
    model_name: Seq<char>,
) -> Result<Option<u64>, Seq<char>> {
    match metric {
        None => Ok(None),
        Some(metric) => match seconds_value(body, metric@, model_name) {
            Ok(n) => Ok(Some(n)),
            Err(words) => Err(words),
        },
    }
}

/// Reads a time the schema may not declare. An undeclared one is absent; a
/// declared one that the body does not hold is an error.
pub fn parse_phase_time(body: &str, metric: Option<&'static str>, model_name: &str) -> (r: Result<
    Option<u64>,
    MetricsError,
>)
    ensures
        reads_as(r, phase_time_value(body@, metric, model_name@)),
{
    match metric {
        None => Ok(None),
        Some(metric) => match parse_seconds_as_nanos(body, metric, model_name) {
            Ok(n) => Ok(Some(n)),
            Err(e) => Err(e),
        },
    }
}

/// The prefix-cache counters a body holds. The numerator may be absent; the
/// denominator has to be there.
pub open spec fn kvcache_values(
    body: Seq<char>,
    model_name: Seq<char>,
    schema: EngineSchema,
) -> Result<(Option<u64>, u64), Seq<char>> {
    let denominator = schema.hit_denominator;
    match series_value(body, schema.hit_numerator, model_name) {
        Err(words) => Err(words),
        Ok(hits) => match required(
            series_value(body, denominator, model_name),
            denominator.name@,
            model_name,
        ) {
            Err(words) => Err(words),
            Ok(queries) => Ok((hits, queries)),
        },
    }
}

/// The phase counters a body holds. The token counters have to be there, and
/// so do the times where the schema declares them.
pub open spec fn phase_values(
    body: Seq<char>,
    model_name: Seq<char>,
    schema: EngineSchema,
) -> Result<(u64, u64, Option<u64>, Option<u64>), Seq<char>> {
    let prompt = schema.prompt_tokens;
    let generation = schema.generation_tokens;
    match required(series_value(body, prompt, model_name), prompt.name@, model_name) {
        Err(words) => Err(words),
        Ok(prompts) => match required(
            series_value(body, generation, model_name),
            generation.name@,
            model_name,
        ) {
            Err(words) => Err(words),
            Ok(generated) => match phase_time_value(body, schema.prefill_time_sum, model_name) {
                Err(words) => Err(words),
                Ok(prefill) => match phase_time_value(body, schema.decode_time_sum, model_name) {
                    Err(words) => Err(words),
                    Ok(decode) => Ok((prompts, generated, prefill, decode)),
                },
            },
        },
    }
}

/// Reads a series that has to be there.
fn parse_required(body: &str, series: &Series, model_name: &str) -> (r: Result<u64, MetricsError>)
    ensures
        reads_as(
            r,
            required(series_value(body@, *series, model_name@), series.name@, model_name@),
        ),
{
    match parse_series(body, series, model_name) {
        Ok(value) => require(value, series.name, model_name),
        Err(e) => Err(e),
    }
}

/// Reads the prefix-cache counters `(hits, queries)` for a model from a body.
/// A hit rate that cannot be formed is no hit rate of zero, so an absent
/// numerator stays absent; an absent denominator is an error.
pub fn parse_kvcache(body: &str, model_name: &str, engine: Engine) -> (r: Result<
    (Option<u64>, u64),
    MetricsError,
>)
    ensures
        reads_as(r, kvcache_values(body@, model_name@, schema_of(engine))),
{
    let schema: EngineSchema = engine.schema();
    match parse_series(body, &schema.hit_numerator, model_name) {
        Err(e) => Err(e),
        Ok(hits) => match parse_required(body, &schema.hit_denominator, model_name) {
            Err(e) => Err(e),
            Ok(queries) => Ok((hits, queries)),
        },
    }
}

/// Reads the phase counters `(prompt_tokens, generation_tokens, prefill_ns,
/// decode_ns)` for a model from a body. The times are absent where the engine
/// has no such counter.
pub fn parse_phase(body: &str, model_name: &str, engine: Engine) -> (r: Result<
    (u64, u64, Option<u64>, Option<u64>),
    MetricsError,
>)
    ensures
        reads_as(r, phase_values(body@, model_name@, schema_of(engine))),
{
    let schema: EngineSchema = engine.schema();
    let prompts: u64 = match parse_required(body, &schema.prompt_tokens, model_name) {
        Ok(n) => n,
        Err(e) => {
            return Err(e);
        },
    };
    let generated: u64 = match parse_required(body, &schema.generation_tokens, model_name) {
        Ok(n) => n,
        Err(e) => {
            return Err(e);
        },
    };
    let prefill: Option<u64> = match parse_phase_time(body, schema.prefill_time_sum, model_name) {
        Ok(n) => n,
        Err(e) => {
            return Err(e);
        },
    };
    match parse_phase_time(body, schema.decode_time_sum, model_name) {
        Ok(decode) => Ok((prompts, generated, prefill, decode)),
        Err(e) => Err(e),
    }
}

/// One read of the speculative-decoding counters. A counter that the engine
/// does not expose, or that the body does not hold, is absent.
#[derive(Debug, Clone, Copy, PartialEq, Eq, Structural)]
pub struct SpecReading {
    /// Draft tokens proposed so far.
    pub draft_tokens: Option<u64>,
    /// Draft tokens that survived verification so far.
    pub accepted_tokens: Option<u64>,
    /// Speculation rounds so far.
    pub drafts: Option<u64>,
}

/// What a body holds of a counter the schema may not declare.
pub open spec fn optional_value(
    body: Seq<char>,
    series: Option<Series>,
    model_name: Seq<char>,
) -> Result<Option<u64>, Seq<char>> {
    match series {
        None => Ok(None),
        Some(series) => series_value(body, series, model_name),
    }
}

/// The speculative-decoding counters a body holds.
pub open spec fn spec_values(
    body: Seq<char>,
    model_name: Seq<char>,
    schema: EngineSchema,
) -> Result<SpecReading, Seq<char>> {
    match optional_value(body, schema.spec_draft_tokens, model_name) {
        Err(words) => Err(words),
        Ok(draft_tokens) => match optional_value(body, schema.spec_accepted_tokens, model_name) {
            Err(words) => Err(words),
            Ok(accepted_tokens) => match optional_value(body, schema.spec_drafts, model_name) {
                Err(words) => Err(words),
                Ok(drafts) => Ok(SpecReading { draft_tokens, accepted_tokens, drafts }),
            },
        },
    }
}

fn parse_optional(body: &str, series: Option<Series>, model_name: &str) -> (r: Result<
    Option<u64>,
    MetricsError,
>)
    ensures
        reads_as(r, optional_value(body@, series, model_name@)),
{
    match series {
        None => Ok(None),
        Some(series) => parse_series(body, &series, model_name),
    }
}

/// Reads the speculative-decoding counters for a model from a body.
pub fn parse_spec(body: &str, model_name: &str, engine: Engine) -> (r: Result<
    SpecReading,
    MetricsError,
>)
    ensures
        reads_as(r, spec_values(body@, model_name@, schema_of(engine))),
{
    let schema: EngineSchema = engine.schema();
    let draft_tokens: Option<u64> = match parse_optional(
        body,
        schema.spec_draft_tokens,
        model_name,
    ) {
        Ok(n) => n,
        Err(e) => {
            return Err(e);
        },
    };
    let accepted_tokens: Option<u64> = match parse_optional(
        body,
        schema.spec_accepted_tokens,
        model_name,
    ) {
        Ok(n) => n,
        Err(e) => {
            return Err(e);
        },
    };
    match parse_optional(body, schema.spec_drafts, model_name) {
        Ok(drafts) => Ok(SpecReading { draft_tokens, accepted_tokens, drafts }),
        Err(e) => Err(e),
    }
}

// ---------------------------------------------------------------------------
// Laws.
// ---------------------------------------------------------------------------

/// A series reads as absent exactly where no line of the body belongs to it:
/// absence never reads as zero, nor zero as absence.
pub proof fn law_absence_is_not_zero(body: Seq<char>, series: Series, model_name: Seq<char>)
    ensures
        series_value(body, series, model_name) == Ok::<Option<u64>, Seq<char>>(None) <==> selected(
            lines(body),
            series.name@,
            series.aggregation,
            model_name,
        ).len() == 0,
{
    let values = selected(lines(body), series.name@, series.aggregation, model_name);
    if values.len() > 0 {
        assert(summed(values, series.name@) != Ok::<Option<u64>, Seq<char>>(None));
    }
}

/// A line that does not belong to a series (a comment, another name, another
/// model, the reserved source of a split family) does not change its reading.
pub proof fn law_other_lines_ignored(
    before: Seq<Seq<char>>,
    line: Seq<char>,
    after: Seq<Seq<char>>,
    name: Seq<char>,
    aggregation: Aggregation,
    model_name: Seq<char>,
)
    requires
        sample(line) matches Some(s) ==> !belongs(s, name, aggregation, model_name),
    ensures
        selected(before.push(line) + after, name, aggregation, model_name) == selected(
            before + after,
            name,
            aggregation,
            model_name,
        ),
    decreases after.len(),
{
    if after.len() == 0 {
        assert(before.push(line) + after =~= before.push(line));
        assert(before + after =~= before);
        assert(before.push(line).drop_last() =~= before);
    } else {
        let long = before.push(line) + after;
        let short = before + after;
        assert(long.drop_last() =~= before.push(line) + after.drop_last());
        assert(short.drop_last() =~= before + after.drop_last());
        law_other_lines_ignored(before, line, after.drop_last(), name, aggregation, model_name);
    }
}

/// On an engine without a separate count of queried tokens, the denominator of
/// the hit rate and the prompt counter of the phase split read the same.
pub proof fn law_one_series_two_roles(body: Seq<char>, model_name: Seq<char>, page_size: u32)
    ensures
        ({
            let schema = schema_of(Engine::Sglang { page_size });
            let kv = kvcache_values(body, model_name, schema);
            let phase = phase_values(body, model_name, schema);
            kv is Ok && phase is Ok ==> (kv->Ok_0).1 == (phase->Ok_0).0
        }),
{
}

/// An engine whose schema declares no times reports none, whatever the body
/// holds.
pub proof fn law_undeclared_times_absent(body: Seq<char>, model_name: Seq<char>, page_size: u32)
    ensures
        ({
            let phase = phase_values(body, model_name, schema_of(Engine::Sglang { page_size }));
            phase is Ok ==> (phase->Ok_0).2 is None && (phase->Ok_0).3 is None
        }),
{
}

/// A sample that is written as a name, labels in braces, a space and a value
/// reads back as that name, those labels and that value.
pub proof fn law_sample_reads_back(name: Seq<char>, labels: Seq<char>, value: Seq<char>)
    requires
        name.len() > 0,
        name[0] != '#',
        !space(name[0]),
        forall|i: int| 0 <= i < name.len() ==> name[i] != '{',
        value.len() > 0,
        forall|i: int| 0 <= i < value.len() ==> !space(#[trigger] value[i]),
    ensures
        sample(name + seq!['{'] + labels + seq!['}', ' '] + value) == Some(
            Sample { name, labels, value },
        ),
{
    let raw = name + seq!['{'] + labels + seq!['}'];
    let text = raw + seq![' '] + value;
    assert(name + seq!['{'] + labels + seq!['}', ' '] + value =~= text);
    let n = raw.len() as int;
    assert(text[0] == name[0]);
    assert(text.last() == value.last());
    assert(!space(value[value.len() - 1]));
    law_trimming_keeps_the_rest(text);
    lemma_last_space_before(raw.push(' '), value);
    assert(raw.push(' ') + value =~= text);
    assert(text.take(n) =~= raw);
    assert(text.skip(n + 1) =~= value);
    assert(raw[0] == name[0]);
    assert(raw.last() == '}');
    law_trimming_keeps_the_rest(raw);
    assert(!space(value[0]));
    law_trimming_keeps_the_rest(value);
    let m = name.len() as int;
    assert(raw[m] == '{');
    assert forall|j: int| 0 <= j < m implies raw[j] != '{' by {
        assert(raw[j] == name[j]);
    }
    lemma_find_is(raw, '{', m);
    assert(raw.take(m) =~= name);
    let rest = raw.skip(m + 1);
    assert(rest =~= labels.push('}'));
    assert(rest.drop_last() =~= labels);
}

/// The last white space of a text stands where the part behind it has none.
proof fn lemma_last_space_before(front: Seq<char>, s: Seq<char>)
    requires
        front.len() > 0,
        space(front.last()),
        forall|i: int| 0 <= i < s.len() ==> !space(#[trigger] s[i]),
    ensures
        find_last_space(front + s) == Some(front.len() - 1),
    decreases s.len(),
{
    let all = front + s;
    if s.len() == 0 {
        assert(all =~= front);
    } else {
        let rest = s.drop_last();
        assert forall|i: int| 0 <= i < rest.len() implies !space(#[trigger] rest[i]) by {
            assert(rest[i] == s[i]);
        }
        lemma_last_space_before(front, rest);
        assert(all.drop_last() =~= front + rest);
        assert(all.last() == s[s.len() - 1]);
    }
}

/// One label as it is written: its key and its value in quotes.
pub open spec fn pair(key: Seq<char>, value: Seq<char>) -> Seq<char> {
    key + seq!['=', '"'] + value + seq!['"']
}

/// Whether a text can stand as a label's key.
pub open spec fn is_key(key: Seq<char>) -> bool {
    &&& key.len() > 0
    &&& forall|i: int|
        0 <= i < key.len() ==> !space(#[trigger] key[i]) && key[i] != '=' && key[i] != ','
            && key[i] != '"'
}

/// Whether a text can stand in quotes as it is.
pub open spec fn is_bare(value: Seq<char>) -> bool {
    forall|i: int| 0 <= i < value.len() ==> (#[trigger] value[i]) != '"' && value[i] != '\\'
}

/// A label that is written reads back under its key and under no other,
/// whatever its value holds besides quotes and backslashes, and what stands
/// behind it is read as if it stood alone.
pub proof fn law_labels_read_back(
    key: Seq<char>,
    value: Seq<char>,
    rest: Seq<char>,
    other: Seq<char>,
)
    requires
        is_key(key),
        is_bare(value),
    ensures
        label(pair(key, value), key) == Some(value),
        label(pair(key, value) + seq![','] + rest, key) == Some(value),
        other != key ==> label(pair(key, value), other) is None,
        other != key ==> label(pair(key, value) + seq![','] + rest, other) == label(rest, other),
{
    let p = pair(key, value);
    let n = p.len() as int;
    let whole = p + seq![','] + rest;
    lemma_pair_ends(key, value, Seq::empty());
    lemma_pair_ends(key, value, seq![','] + rest);
    assert(p + Seq::<char>::empty() =~= p);
    assert(p + (seq![','] + rest) =~= whole);
    assert(first_end(p, false) == n);
    assert(first_end(whole, false) == n);
    assert(p.take(n) =~= p);
    assert(whole.take(n) =~= p);
    assert(whole.skip(n + 1) =~= rest);
    lemma_pair_value(key, value, key);
    lemma_pair_value(key, value, other);
}

proof fn lemma_pair_value(key: Seq<char>, value: Seq<char>, wanted: Seq<char>)
    requires
        is_key(key),
    ensures
        pair_value(pair(key, value), wanted) == if wanted == key {
            Some(value)
        } else {
            None
        },
{
    let p = pair(key, value);
    let n = key.len() as int;
    assert(!space(key[0]) && !space(key[n - 1]));
    assert(p[0] == key[0] && p.last() == '"');
    law_trimming_keeps_the_rest(p);
    assert(p[n] == '=');
    assert forall|j: int| 0 <= j < n implies p[j] != '=' by {
        assert(p[j] == key[j]);
    }
    lemma_find_is(p, '=', n);
    assert(p.take(n) =~= key);
    law_trimming_keeps_the_rest(key);
    let quoted_value = p.skip(n + 1);
    assert(quoted_value =~= seq!['"'] + value + seq!['"']);
    law_trimming_keeps_the_rest(quoted_value);
    assert(quoted_value.subrange(1, quoted_value.len() - 1) =~= value);
}

/// A label ends behind its closing quote.
proof fn lemma_pair_ends(key: Seq<char>, value: Seq<char>, behind: Seq<char>)
    requires
        is_key(key),
        is_bare(value),
        behind.len() == 0 || behind[0] == ',',
    ensures
        first_end(pair(key, value) + behind, false) == pair(key, value).len(),
{
    let closing = seq!['"'] + behind;
    assert(closing.skip(1) =~= behind);
    assert(first_end(behind, false) == 0);
    assert(first_end(closing, true) == 1);
    lemma_end_inside(value, closing);
    let opening = seq!['"'] + (value + closing);
    assert(opening.skip(1) =~= value + closing);
    assert(first_end(opening, false) == value.len() + 2);
    let equals = seq!['='] + opening;
    assert(equals.skip(1) =~= opening);
    assert(first_end(equals, false) == value.len() + 3);
    lemma_end_outside(key, equals);
    assert(pair(key, value) + behind =~= key + equals);
}

proof fn lemma_end_inside(value: Seq<char>, behind: Seq<char>)
    requires
        is_bare(value),
    ensures
        first_end(value + behind, true) == value.len() + first_end(behind, true),
    decreases value.len(),
{
    let s = value + behind;
    if value.len() == 0 {
        assert(s =~= behind);
    } else {
        let rest = value.skip(1);
        assert(is_bare(rest)) by {
            assert forall|i: int| 0 <= i < rest.len() implies (#[trigger] rest[i]) != '"'
                && rest[i] != '\\' by {
                assert(rest[i] == value[i + 1]);
            }
        }
        lemma_end_inside(rest, behind);
        assert(s[0] == value[0]);
        assert(s.skip(1) =~= rest + behind);
    }
}

proof fn lemma_end_outside(key: Seq<char>, behind: Seq<char>)
    requires
        forall|i: int| 0 <= i < key.len() ==> (#[trigger] key[i]) != ',' && key[i] != '"',
    ensures
        first_end(key + behind, false) == key.len() + first_end(behind, false),
    decreases key.len(),
{
    let s = key + behind;
    if key.len() == 0 {
        assert(s =~= behind);
    } else {
        let rest = key.skip(1);
        assert forall|i: int| 0 <= i < rest.len() implies (#[trigger] rest[i]) != ',' && rest[i]
            != '"' by {
            assert(rest[i] == key[i + 1]);
        }
        lemma_end_outside(rest, behind);
        assert(s[0] == key[0]);
        assert(s.skip(1) =~= rest + behind);
    }
}

/// Whether a line carries a family for a model: a sample of that name whose
/// `model_name` is the model's.
pub open spec fn is_line_of(line: Seq<char>, name: Seq<char>, model_name: Seq<char>) -> bool {
    sample(line) matches Some(s) && s.name == name && label(s.labels, "model_name"@) == Some(
        model_name,
    )
}

/// A family that stands on one line is read off the first line that carries it
/// for the model, and off no other.
pub proof fn law_first_line_gives_the_value(
    body: Seq<char>,
    name: &'static str,
    model_name: Seq<char>,
    i: int,
)
    requires
        0 <= i < lines(body).len(),
        is_line_of(lines(body)[i], name@, model_name),
        forall|j: int| 0 <= j < i ==> !#[trigger] is_line_of(lines(body)[j], name@, model_name),
    ensures
        ({
            let value = sample(lines(body)[i])->0.value;
            let series = Series { name, aggregation: Aggregation::Single };
            &&& counter(value) matches Reading::Value(n) ==> series_value(body, series, model_name)
                == Ok::<Option<u64>, Seq<char>>(Some(n))
            &&& !(counter(value) is Value) ==> series_value(body, series, model_name) is Err
            &&& nanoseconds(value) matches Reading::Value(n) ==> seconds_value(
                body,
                name@,
                model_name,
            ) == Ok::<u64, Seq<char>>(n)
            &&& !(nanoseconds(value) is Value) ==> seconds_value(body, name@, model_name) is Err
        }),
{
    let ls = lines(body);
    lemma_first_selected(ls, name@, model_name, i);
}

proof fn lemma_first_selected(
    ls: Seq<Seq<char>>,
    name: Seq<char>,
    model_name: Seq<char>,
    i: int,
)
    requires
        0 <= i < ls.len(),
        is_line_of(ls[i], name, model_name),
        forall|j: int| 0 <= j < i ==> !#[trigger] is_line_of(ls[j], name, model_name),
    ensures
        selected(ls, name, Aggregation::Single, model_name).len() > 0,
        selected(ls, name, Aggregation::Single, model_name)[0] == sample(ls[i])->0.value,
    decreases ls.len(),
{
    let rest = ls.drop_last();
    if i == ls.len() - 1 {
        assert forall|j: int| 0 <= j < rest.len() implies !#[trigger] is_line_of(
            rest[j],
            name,
            model_name,
        ) by {
            assert(is_line_of(rest[j], name, model_name) == is_line_of(ls[j], name, model_name));
        }
        lemma_none_selected(rest, name, model_name);
    } else {
        assert(rest[i] == ls[i]);
        assert forall|j: int| 0 <= j < i implies !#[trigger] is_line_of(
            rest[j],
            name,
            model_name,
        ) by {
            assert(is_line_of(rest[j], name, model_name) == is_line_of(ls[j], name, model_name));
        }
        lemma_first_selected(rest, name, model_name, i);
    }
}

proof fn lemma_none_selected(ls: Seq<Seq<char>>, name: Seq<char>, model_name: Seq<char>)
    requires
        forall|j: int| 0 <= j < ls.len() ==> !#[trigger] is_line_of(ls[j], name, model_name),
    ensures
        selected(ls, name, Aggregation::Single, model_name).len() == 0,
    decreases ls.len(),
{
    if ls.len() > 0 {
        let rest = ls.drop_last();
        assert forall|j: int| 0 <= j < rest.len() implies !#[trigger] is_line_of(
            rest[j],
            name,
            model_name,
        ) by {
            assert(is_line_of(rest[j], name, model_name) == is_line_of(ls[j], name, model_name));
        }
        lemma_none_selected(rest, name, model_name);
        assert(!is_line_of(ls[ls.len() - 1], name, model_name));
    }
}

/// A family that no line carries for the model reads as absent.
pub proof fn law_no_line_no_value(body: Seq<char>, name: &'static str, model_name: Seq<char>)
    requires
        forall|j: int|
            0 <= j < lines(body).len() ==> !#[trigger] is_line_of(lines(body)[j], name@, model_name),
    ensures
        series_value(body, Series { name, aggregation: Aggregation::Single }, model_name) == Ok::<
            Option<u64>,
            Seq<char>,
        >(None),
        seconds_value(body, name@, model_name) is Err,
{
    lemma_none_selected(lines(body), name@, model_name);
}

/// What one line adds to a split family: its value if it carries the family for
/// the model and does not stand for the reserved part, else nothing.
pub open spec fn part_of(
    line: Seq<char>,
    name: Seq<char>,
    split: Seq<char>,
    reserved: Seq<char>,
    model_name: Seq<char>,
) -> nat {
    if is_line_of(line, name, model_name) && label(sample(line)->0.labels, split) != Some(reserved) {
        match counter(sample(line)->0.value) {
            Reading::Value(n) => n as nat,
            _ => 0,
        }
    } else {
        0
    }
}

/// A split family reads as the sum over its lines, each counted once and the
/// reserved part left out.
pub proof fn law_split_family_adds_up(
    body: Seq<char>,
    name: &'static str,
    split: &'static str,
    reserved: &'static str,
    model_name: Seq<char>,
)
    ensures
        ({
            let series = Series {
                name,
                aggregation: Aggregation::SumOverLabel { label: split, excluded: reserved },
            };
            series_value(body, series, model_name) matches Ok(Some(n)) ==> n == total(
                lines(body).map_values(
                    |line: Seq<char>| part_of(line, name@, split@, reserved@, model_name),
                ),
            )
        }),
{
    let ls = lines(body);
    lemma_sum_of_parts(ls, name@, split, reserved, model_name, name@);
}

proof fn lemma_sum_of_parts(
    ls: Seq<Seq<char>>,
    name: Seq<char>,
    split: &'static str,
    reserved: &'static str,
    model_name: Seq<char>,
    metric: Seq<char>,
)
    ensures
        ({
            let aggregation = Aggregation::SumOverLabel { label: split, excluded: reserved };
            let values = selected(ls, name, aggregation, model_name);
            let sum = total(
                ls.map_values(
                    |line: Seq<char>| part_of(line, name, split@, reserved@, model_name),
                ),
            );
            &&& summed(values, metric) matches Ok(Some(n)) ==> n == sum
            &&& summed(values, metric) matches Ok(None) ==> sum == 0
        }),
    decreases ls.len(),
{
    if ls.len() > 0 {
        let rest = ls.drop_last();
        lemma_sum_of_parts(rest, name, split, reserved, model_name, metric);
        let part = |line: Seq<char>| part_of(line, name, split@, reserved@, model_name);
        assert(ls.map_values(part).drop_last() =~= rest.map_values(part));
        let aggregation = Aggregation::SumOverLabel { label: split, excluded: reserved };
        let values = selected(ls, name, aggregation, model_name);
        let before = selected(rest, name, aggregation, model_name);
        if values != before {
            assert(values.drop_last() =~= before);
        }
    }
}

/// What the engine's metrics say of the cache is read off the two families that
/// its vocabulary names for it, hits first; of the phases, off the two token
/// counters and, where they are named, the two times, prefill first.
pub proof fn law_counters_keep_their_places(body: Seq<char>, model_name: Seq<char>, schema: EngineSchema)
    ensures
        kvcache_values(body, model_name, schema) matches Ok((hits, queries)) ==> {
            &&& series_value(body, schema.hit_numerator, model_name) == Ok::<
                Option<u64>,
                Seq<char>,
            >(hits)
            &&& series_value(body, schema.hit_denominator, model_name) == Ok::<
                Option<u64>,
                Seq<char>,
            >(Some(queries))
        },
        phase_values(body, model_name, schema) matches Ok((prompt, generation, prefill, decode))
            ==> {
            &&& series_value(body, schema.prompt_tokens, model_name) == Ok::<
                Option<u64>,
                Seq<char>,
            >(Some(prompt))
            &&& series_value(body, schema.generation_tokens, model_name) == Ok::<
                Option<u64>,
                Seq<char>,
            >(Some(generation))
            &&& prefill is Some <==> schema.prefill_time_sum is Some
            &&& decode is Some <==> schema.decode_time_sum is Some
            &&& prefill is Some ==> seconds_value(body, schema.prefill_time_sum->0@, model_name)
                == Ok::<u64, Seq<char>>(prefill->0)
            &&& decode is Some ==> seconds_value(body, schema.decode_time_sum->0@, model_name)
                == Ok::<u64, Seq<char>>(decode->0)
        },
        spec_values(body, model_name, schema) matches Ok(r) ==> {
            &&& schema.spec_draft_tokens is None ==> r.draft_tokens is None
            &&& schema.spec_accepted_tokens is None ==> r.accepted_tokens is None
            &&& schema.spec_drafts is None ==> r.drafts is None
            &&& schema.spec_draft_tokens is Some ==> series_value(
                body,
                schema.spec_draft_tokens->0,
                model_name,
            ) == Ok::<Option<u64>, Seq<char>>(r.draft_tokens)
            &&& schema.spec_accepted_tokens is Some ==> series_value(
                body,
                schema.spec_accepted_tokens->0,
                model_name,
            ) == Ok::<Option<u64>, Seq<char>>(r.accepted_tokens)
            &&& schema.spec_drafts is Some ==> series_value(
                body,
                schema.spec_drafts->0,
                model_name,
            ) == Ok::<Option<u64>, Seq<char>>(r.drafts)
        },
{
}

} // verus!
