//! Active LoRA adapters, read once as a window closes.
//!
//! The family `vllm:lora_requests_info` carries its data in its labels; its
//! value is the time a series was set. The series of the latest time is the
//! current one.
use vstd::prelude::*;
use vstd::string::*;

use crate::binary64::Binary64;
use crate::exposition::{
    between, is_bare, is_range, label, label_at, law_labels_read_back, pair, range_string, sample,
    sample_at, SampleAt,
};
use crate::numeral::{read_time, time};
use crate::procfs::bounded;
use crate::text::{chars_of, find, find_in, line_ranges, lines, parse_unsigned, reads};

verus! {

/// One series of the family.
#[derive(Debug, Clone, PartialEq, Eq)]
pub struct LoraSeries {
    /// The running adapters, in the order the producer wrote them.
    pub running_lora_adapters: Vec<String>,
    /// The waiting adapters, in the order the producer wrote them.
    pub waiting_lora_adapters: Vec<String>,
    /// How many adapters may be active; not every producer says.
    pub max_lora: Option<u32>,
    /// When the series was set.
    pub value: Binary64,
}

/// What one read of the family found. None of the outcomes says whether LoRA
/// is configured.
#[derive(Debug, Clone, PartialEq, Eq)]
pub enum LoraObservation {
    /// The body holds no series of the family.
    NoSeries,
    /// One series is later than every other.
    Latest {
        /// That series.
        series: LoraSeries,
    },
    /// Several series share the latest time; none is chosen.
    Tie {
        /// They, in body order.
        candidates: Vec<LoraSeries>,
    },
    /// The read did not complete: nothing is known.
    ReadFailed,
}

/// A series as a line writes it.
pub struct Written {
    /// The running adapters.
    pub running: Seq<Seq<char>>,
    /// The waiting adapters.
    pub waiting: Seq<Seq<char>>,
    /// How many adapters may be active.
    pub max_lora: Option<u32>,
    /// When the series was set.
    pub value: Binary64,
}

/// The names in a list separated by commas; none in an empty list.
pub open spec fn names(list: Seq<char>) -> Seq<Seq<char>>
    decreases list.len(),
{
    if list.len() == 0 {
        Seq::empty()
    } else {
        match find(list, ',') {
            None => seq![list],
            Some(i) => if 0 <= i < list.len() - 1 {
                seq![list.take(i)] + names(list.skip(i + 1))
            } else {
                seq![list.take(i), Seq::empty()]
            },
        }
    }
}

/// The series a sample of the family writes; `None` if it cannot be read.
pub open spec fn written(labels: Seq<char>, value: Seq<char>) -> Option<Written> {
    let running = label(labels, "running_lora_adapters"@);
    let waiting = label(labels, "waiting_lora_adapters"@);
    let limit = label(labels, "max_lora"@);
    if running is Some && waiting is Some && time(value) is Some && (limit is Some ==> bounded(
        limit->0,
        u32::MAX as nat,
    ) is Some) {
        Some(
            Written {
                running: names(running->0),
                waiting: names(waiting->0),
                max_lora: match limit {
                    Some(text) => Some(bounded(text, u32::MAX as nat)->0 as u32),
                    None => None,
                },
                value: time(value)->0,
            },
        )
    } else {
        None
    }
}

/// Every series of the family in a body, in order; `None` if one of them
/// cannot be read.
pub open spec fn all_written(ls: Seq<Seq<char>>) -> Option<Seq<Written>>
    decreases ls.len(),
{
    if ls.len() == 0 {
        Some(Seq::empty())
    } else {
        match all_written(ls.drop_last()) {
            None => None,
            Some(before) => match sample(ls.last()) {
                Some(s) => if s.name == "vllm:lora_requests_info"@ {
                    match written(s.labels, s.value) {
                        Some(w) => Some(before.push(w)),
                        None => None,
                    }
                } else {
                    Some(before)
                },
                None => Some(before),
            },
        }
    }
}

/// The latest time of the series, as a numerator over the common denominator.
pub open spec fn top(all: Seq<Written>) -> nat
    decreases all.len(),
{
    if all.len() == 0 {
        0
    } else {
        let before = top(all.drop_last());
        let last = all.last().value.num();
        if before < last {
            last
        } else {
            before
        }
    }
}

/// The series of a time, in order.
pub open spec fn of_time(all: Seq<Written>, t: nat) -> Seq<Written>
    decreases all.len(),
{
    if all.len() == 0 {
        Seq::empty()
    } else {
        let before = of_time(all.drop_last(), t);
        if all.last().value.num() == t {
            before.push(all.last())
        } else {
            before
        }
    }
}

/// The series of the latest time, in order.
pub open spec fn latest(all: Seq<Written>) -> Seq<Written> {
    of_time(all, top(all))
}

/// Whether `list` holds exactly the given texts.
pub open spec fn holds(list: Seq<String>, texts: Seq<Seq<char>>) -> bool {
    list.len() == texts.len() && forall|i: int|
        0 <= i < list.len() ==> (#[trigger] list[i])@ == texts[i]
}

/// Whether `series` is what was written.
pub open spec fn is_series(series: LoraSeries, w: Written) -> bool {
    &&& holds(series.running_lora_adapters@, w.running)
    &&& holds(series.waiting_lora_adapters@, w.waiting)
    &&& series.max_lora == w.max_lora
    &&& series.value == w.value
}

/// Whether `list` holds exactly what was written.
pub open spec fn are_series(list: Seq<LoraSeries>, ws: Seq<Written>) -> bool {
    list.len() == ws.len() && forall|i: int|
        0 <= i < list.len() ==> is_series(#[trigger] list[i], ws[i])
}

/// Whether `observation` says what a body holds.
pub open spec fn observes(observation: LoraObservation, body: Seq<char>) -> bool {
    match all_written(lines(body)) {
        None => observation is ReadFailed,
        Some(all) => {
            let top = latest(all);
            if all.len() == 0 {
                observation is NoSeries
            } else if top.len() == 1 {
                observation matches LoraObservation::Latest { series } && is_series(series, top[0])
            } else {
                observation matches LoraObservation::Tie { candidates } && are_series(
                    candidates@,
                    top,
                )
            }
        },
    }
}

fn names_in(s: &[char], from: usize, to: usize) -> (r: Vec<String>)
    requires
        from <= to <= s@.len(),
    ensures
        holds(r@, names(s@.subrange(from as int, to as int))),
{
    let ghost list = s@.subrange(from as int, to as int);
    let mut r: Vec<String> = Vec::new();
    if from == to {
        return r;
    }
    let mut at: usize = from;
    let ghost mut done: Seq<Seq<char>> = Seq::empty();
    assert(done + names(list) =~= names(list));
    while at < to
        invariant
            from <= at <= to <= s@.len(),
            list == s@.subrange(from as int, to as int),
            holds(r@, done),
            at < to ==> names(list) == done + names(s@.subrange(at as int, to as int)),
            at == to ==> names(list) == done,
        decreases to - at,
    {
        let ghost rest = s@.subrange(at as int, to as int);
        let end: usize = find_in(s, at, to, ',');
        let ghost name = s@.subrange(at as int, end as int);
        let ghost known = done;
        r.push(range_string(s, at, end));
        if end == to {
            proof {
                assert(rest =~= name);
                assert(names(rest) =~= seq![name]);
                done = done.push(name);
                assert(known + seq![name] =~= done);
            }
            at = to;
        } else if end + 1 == to {
            r.push(String::new());
            proof {
                let empty = Seq::<char>::empty();
                assert(rest.take(end - at) =~= name);
                assert(names(rest) =~= seq![name, empty]);
                done = done.push(name).push(empty);
                assert(known + seq![name, empty] =~= done);
            }
            at = to;
        } else {
            proof {
                let tail = s@.subrange(end + 1, to as int);
                assert(rest.take(end - at) =~= name);
                assert(rest.skip(end - at + 1) =~= tail);
                done = done.push(name);
                assert(known + (seq![name] + names(tail)) =~= done + names(tail));
            }
            at = end + 1;
        }
    }
    r
}

fn series_at(s: &[char], at: &SampleAt) -> (r: Option<LoraSeries>)
    requires
        is_range(s@, at.labels),
        is_range(s@, at.value),
    ensures
        match written(between(s@, at.labels), between(s@, at.value)) {
            Some(w) => r matches Some(series) && is_series(series, w) && series.value.within(1127),
            None => r is None,
        },
{
    let (from, to) = at.labels;
    let running_key: Vec<char> = chars_of("running_lora_adapters");
    let waiting_key: Vec<char> = chars_of("waiting_lora_adapters");
    let limit_key: Vec<char> = chars_of("max_lora");
    let running: (usize, usize) = match label_at(s, from, to, &running_key) {
        Some(range) => range,
        None => {
            return None;
        },
    };
    let waiting: (usize, usize) = match label_at(s, from, to, &waiting_key) {
        Some(range) => range,
        None => {
            return None;
        },
    };
    let max_lora: Option<u32> = match label_at(s, from, to, &limit_key) {
        Some((a, b)) => match parse_unsigned(s, a, b, u32::MAX as u64) {
            Some(n) => Some(n as u32),
            None => {
                return None;
            },
        },
        None => None,
    };
    match read_time(s, at.value.0, at.value.1) {
        Some(value) => Some(
            LoraSeries {
                running_lora_adapters: names_in(s, running.0, running.1),
                waiting_lora_adapters: names_in(s, waiting.0, waiting.1),
                max_lora,
                value,
            },
        ),
        None => None,
    }
}

fn all_series(body: &str) -> (r: Option<Vec<LoraSeries>>)
    ensures
        match all_written(lines(body@)) {
            Some(all) => r matches Some(list) && are_series(list@, all) && forall|i: int|
                0 <= i < list@.len() ==> (#[trigger] list@[i]).value.within(1127),
            None => r is None,
        },
{
    let text: Vec<char> = chars_of(body);
    let family: Vec<char> = chars_of("vllm:lora_requests_info");
    let ranges: Vec<(usize, usize)> = line_ranges(&text);
    let ghost ls = lines(body@);
    let mut list: Vec<LoraSeries> = Vec::new();
    let mut i: usize = 0;
    assert(ls.take(0) =~= Seq::empty());
    while i < ranges.len()
        invariant
            i <= ranges@.len() == ls.len(),
            ls == lines(body@),
            family@ == "vllm:lora_requests_info"@,
            forall|j: int|
                0 <= j < ranges@.len() ==> (#[trigger] ranges@[j]).0 <= ranges@[j].1 <= text@.len()
                    && text@.subrange(ranges@[j].0 as int, ranges@[j].1 as int) == ls[j],
            all_written(ls.take(i as int)) is Some,
            are_series(list@, all_written(ls.take(i as int))->0),
            forall|j: int| 0 <= j < list@.len() ==> (#[trigger] list@[j]).value.within(1127),
        decreases ranges@.len() - i,
    {
        let (from, to) = ranges[i];
        proof {
            assert(ls.take(i + 1).drop_last() =~= ls.take(i as int));
            assert(ls.take(i + 1).last() == ls[i as int]);
            assert(text@.subrange(ranges@[i as int].0 as int, ranges@[i as int].1 as int)
                == ls[i as int]);
        }
        match sample_at(&text, from, to) {
            Some(at) => {
                if reads(&text, at.name.0, at.name.1, &family) {
                    match series_at(&text, &at) {
                        Some(series) => {
                            list.push(series);
                        },
                        None => {
                            proof {
                                lemma_unread(ls, i + 1);
                            }
                            return None;
                        },
                    }
                }
            },
            None => {},
        }
        i += 1;
    }
    assert(ls.take(i as int) =~= ls);
    Some(list)
}

proof fn lemma_unread(ls: Seq<Seq<char>>, n: int)
    requires
        0 <= n <= ls.len(),
        all_written(ls.take(n)) is None,
    ensures
        all_written(ls) is None,
    decreases ls.len(),
{
    if n == ls.len() {
        assert(ls.take(n) =~= ls);
    } else {
        assert(ls.drop_last().take(n) =~= ls.take(n));
        lemma_unread(ls.drop_last(), n);
    }
}

/// What a body holds of the family.
pub fn observe_lora(body: &str) -> (observation: LoraObservation)
    ensures
        observes(observation, body@),
{
    let mut list: Vec<LoraSeries> = match all_series(body) {
        Some(list) => list,
        None => {
            return LoraObservation::ReadFailed;
        },
    };
    if list.len() == 0 {
        return LoraObservation::NoSeries;
    }
    let ghost all = all_written(lines(body@))->0;
    let mut best: Binary64 = list[0].value;
    let mut i: usize = 1;
    proof {
        assert(is_series(list@[0], all[0]));
        assert(all.take(1).drop_last() =~= Seq::empty());
        assert(all.take(1).last() == all[0]);
        assert(top(Seq::<Written>::empty()) == 0);
    }
    while i < list.len()
        invariant
            1 <= i <= list@.len(),
            are_series(list@, all),
            forall|j: int| 0 <= j < list@.len() ==> (#[trigger] list@[j]).value.within(1127),
            best.within(1127),
            best.num() == top(all.take(i as int)),
        decreases list@.len() - i,
    {
        proof {
            assert(is_series(list@[i as int], all[i as int]));
            assert(all.take(i + 1).drop_last() =~= all.take(i as int));
            assert(all.take(i + 1).last() == all[i as int]);
        }
        if best.is_less(list[i].value) {
            best = list[i].value;
        }
        i += 1;
    }
    assert(all.take(i as int) =~= all);
    let ghost t = best.num();
    let ghost given = list@;
    let mut candidates: Vec<LoraSeries> = Vec::new();
    let ghost mut k: int = 0;
    proof {
        assert(given.skip(0) =~= given);
        assert(all.take(0) =~= Seq::empty());
    }
    while list.len() > 0
        invariant
            0 <= k <= given.len(),
            list@ == given.skip(k),
            are_series(given, all),
            forall|j: int| 0 <= j < given.len() ==> (#[trigger] given[j]).value.within(1127),
            best.within(1127),
            t == best.num(),
            t == top(all),
            are_series(candidates@, of_time(all.take(k), t)),
        decreases list@.len(),
    {
        proof {
            assert(list@[0] == given[k]);
            assert(is_series(given[k], all[k]));
            assert(all.take(k + 1).drop_last() =~= all.take(k));
            assert(all.take(k + 1).last() == all[k]);
            lemma_top_bounds(all, k);
        }
        let series: LoraSeries = list.remove(0);
        assert(list@ =~= given.skip(k + 1));
        if !series.value.is_less(best) {
            candidates.push(series);
        }
        proof {
            k = k + 1;
        }
    }
    assert(all.take(k) =~= all);
    if candidates.len() == 1 {
        let series: LoraSeries = candidates.remove(0);
        LoraObservation::Latest { series }
    } else {
        LoraObservation::Tie { candidates }
    }
}

proof fn lemma_top_bounds(all: Seq<Written>, k: int)
    requires
        0 <= k < all.len(),
    ensures
        all[k].value.num() <= top(all),
    decreases all.len(),
{
    if k < all.len() - 1 {
        lemma_top_bounds(all.drop_last(), k);
    }
}

/// The latest time is that of some series, and of none later: a body with
/// series never gives an empty choice.
pub proof fn law_latest_is_reached(all: Seq<Written>)
    requires
        all.len() > 0,
    ensures
        latest(all).len() > 0,
        forall|i: int| 0 <= i < all.len() ==> (#[trigger] all[i]).value.num() <= top(all),
{
    lemma_top_reached(all);
    assert forall|i: int| 0 <= i < all.len() implies (#[trigger] all[i]).value.num() <= top(
        all,
    ) by {
        lemma_top_bounds(all, i);
    }
    let i = choose|i: int| 0 <= i < all.len() && (#[trigger] all[i]).value.num() == top(all);
    lemma_of_time_has(all, top(all), i);
}

proof fn lemma_top_reached(all: Seq<Written>)
    requires
        all.len() > 0,
    ensures
        exists|i: int| 0 <= i < all.len() && (#[trigger] all[i]).value.num() == top(all),
    decreases all.len(),
{
    let rest = all.drop_last();
    let n = all.len() - 1;
    if rest.len() == 0 {
        assert(all[n].value.num() == top(all));
    } else {
        lemma_top_reached(rest);
        let i = choose|i: int| 0 <= i < rest.len() && (#[trigger] rest[i]).value.num() == top(rest);
        if top(rest) < all.last().value.num() {
            assert(all[n].value.num() == top(all));
        } else {
            assert(all[i].value.num() == top(all));
        }
    }
}

proof fn lemma_of_time_has(all: Seq<Written>, t: nat, i: int)
    requires
        0 <= i < all.len(),
        all[i].value.num() == t,
    ensures
        of_time(all, t).len() > 0,
    decreases all.len(),
{
    if i < all.len() - 1 {
        lemma_of_time_has(all.drop_last(), t, i);
    }
}

proof fn lemma_of_time_is_filter(all: Seq<Written>, t: nat)
    ensures
        of_time(all, t) == all.filter(|w: Written| w.value.num() == t),
    decreases all.len(),
{
    reveal(Seq::filter);
    if all.len() > 0 {
        lemma_of_time_is_filter(all.drop_last(), t);
    }
}

/// A single latest series is one that was written, later than every other; a
/// tie is the series of one time, in order, that no other is later than.
pub proof fn law_observation_is_of_the_latest(
    observation: LoraObservation,
    body: Seq<char>,
    all: Seq<Written>,
)
    requires
        observes(observation, body),
        all_written(lines(body)) == Some(all),
    ensures
        observation is NoSeries <==> all.len() == 0,
        !(observation is ReadFailed),
        observation matches LoraObservation::Latest { series } ==> exists|k: int|
            0 <= k < all.len() && is_series(series, #[trigger] all[k]) && forall|i: int|
                0 <= i < all.len() && i != k ==> (#[trigger] all[i]).value.num()
                    < all[k].value.num(),
        observation matches LoraObservation::Tie { candidates } ==> {
            let t = candidates@[0].value.num();
            &&& candidates@.len() >= 2
            &&& forall|i: int| 0 <= i < all.len() ==> (#[trigger] all[i]).value.num() <= t
            &&& are_series(candidates@, all.filter(|w: Written| w.value.num() == t))
        },
{
    if all.len() > 0 {
        let t = top(all);
        law_latest_is_reached(all);
        lemma_of_time_is_filter(all, t);
        let late = latest(all);
        if late.len() == 1 {
            lemma_only_one(all, t);
            let k = choose|k: int|
                0 <= k < all.len() && #[trigger] all[k] == late[0] && all[k].value.num() == t
                    && forall|i: int|
                    0 <= i < all.len() && i != k ==> (#[trigger] all[i]).value.num() != t;
            assert(is_series(observation->series, all[k]));
        } else {
            let candidates = observation->candidates@;
            assert(is_series(candidates[0], late[0]));
            lemma_of_time_has_it(all, t);
            assert(candidates[0].value.num() == t);
        }
    }
}

/// The series of a time have that time.
proof fn lemma_of_time_has_it(all: Seq<Written>, t: nat)
    ensures
        forall|i: int|
            0 <= i < of_time(all, t).len() ==> (#[trigger] of_time(all, t)[i]).value.num() == t,
    decreases all.len(),
{
    if all.len() > 0 {
        lemma_of_time_has_it(all.drop_last(), t);
    }
}

/// Where one series alone has a time, it stands in one place.
proof fn lemma_only_one(all: Seq<Written>, t: nat)
    requires
        of_time(all, t).len() == 1,
    ensures
        exists|k: int|
            0 <= k < all.len() && #[trigger] all[k] == of_time(all, t)[0] && all[k].value.num() == t
                && forall|i: int|
                0 <= i < all.len() && i != k ==> (#[trigger] all[i]).value.num() != t,
    decreases all.len(),
{
    let rest = all.drop_last();
    let n = rest.len() as int;
    assert(all[n] == all.last());
    if all.last().value.num() == t {
        assert(of_time(rest, t).len() == 0);
        assert forall|i: int| 0 <= i < all.len() && i != n implies (#[trigger] all[i]).value.num()
            != t by {
            if all[i].value.num() == t {
                assert(rest[i] == all[i]);
                lemma_of_time_has(rest, t, i);
            }
        }
        assert(all[n] == of_time(all, t)[0]);
    } else {
        lemma_only_one(rest, t);
        let k = choose|k: int|
            0 <= k < rest.len() && #[trigger] rest[k] == of_time(rest, t)[0]
                && rest[k].value.num() == t && forall|i: int|
                0 <= i < rest.len() && i != k ==> (#[trigger] rest[i]).value.num() != t;
        assert(all[k] == rest[k]);
        assert forall|i: int| 0 <= i < all.len() && i != k implies (#[trigger] all[i]).value.num()
            != t by {
            if i < n {
                assert(rest[i] == all[i]);
            }
        }
    }
}

/// A comma separates names: what stands before it is one, and what stands
/// behind it is read as if it stood alone.
pub proof fn law_names_stand_between_commas(name: Seq<char>, rest: Seq<char>)
    requires
        forall|i: int| 0 <= i < name.len() ==> name[i] != ',',
    ensures
        name.len() > 0 ==> names(name) == seq![name],
        rest.len() > 0 ==> names(name + seq![','] + rest) == seq![name] + names(rest),
        names(name + seq![',']) == seq![name, Seq::<char>::empty()],
{
    let n = name.len() as int;
    let whole = name + seq![','] + rest;
    let cut = name + seq![','];
    crate::text::lemma_find_is(name, ',', n);
    assert forall|j: int| 0 <= j < n implies whole[j] != ',' && cut[j] != ',' by {
        assert(whole[j] == name[j] && cut[j] == name[j]);
    }
    assert(whole[n] == ',' && cut[n] == ',');
    crate::text::lemma_find_is(whole, ',', n);
    crate::text::lemma_find_is(cut, ',', n);
    assert(whole.take(n) =~= name);
    assert(cut.take(n) =~= name);
    assert(whole.skip(n + 1) =~= rest);
}

/// A series that is written with its labels reads back with them: the running
/// adapters, the waiting ones, the limit and the time.
pub proof fn law_series_reads_back(
    running: Seq<char>,
    waiting: Seq<char>,
    limit: u32,
    value: Seq<char>,
)
    requires
        is_bare(running),
        is_bare(waiting),
        time(value) is Some,
    ensures
        written(
            pair("max_lora"@, crate::text::digits(limit as nat)) + seq![','] + pair(
                "running_lora_adapters"@,
                running,
            ) + seq![','] + pair("waiting_lora_adapters"@, waiting),
            value,
        ) == Some(
            Written {
                running: names(running),
                waiting: names(waiting),
                max_lora: Some(limit),
                value: time(value)->0,
            },
        ),
{
    reveal_strlit("max_lora");
    reveal_strlit("running_lora_adapters");
    reveal_strlit("waiting_lora_adapters");
    let (m, r, w) = ("max_lora"@, "running_lora_adapters"@, "waiting_lora_adapters"@);
    let n = crate::text::digits(limit as nat);
    crate::text::law_digits_read_back(limit as nat);
    assert(is_bare(n)) by {
        assert forall|i: int| 0 <= i < n.len() implies (#[trigger] n[i]) != '"' && n[i]
            != '\\' by {
            assert('0' <= n[i] <= '9');
        }
    }
    assert(m.len() == 8 && r.len() == 21 && w.len() == 21);
    assert(r[0] == 'r' && w[0] == 'w');
    let last = pair(w, waiting);
    let rest = pair(r, running) + seq![','] + last;
    let labels = pair(m, n) + seq![','] + rest;
    assert(pair(m, n) + seq![','] + pair(r, running) + seq![','] + pair(w, waiting) =~= labels);
    law_labels_read_back(m, n, rest, r);
    law_labels_read_back(m, n, rest, w);
    law_labels_read_back(r, running, last, w);
    law_labels_read_back(w, waiting, Seq::empty(), r);
}

} // verus!
