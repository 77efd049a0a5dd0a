//! Reading a process's footprint off `/proc`: the text of its files, and what
//! one reading becomes.
use vstd::prelude::*;
use vstd::string::*;

use crate::resource::ResourceSample;
use crate::stats::total;
use crate::text::{
    begins_with, chars_of, digits, find_last, find_last_in, first_word, first_word_end,
    law_digits_read_back, law_words_stand_between_spaces, line_ranges, lines, parse_unsigned, push_decimal, starts, string_of, trim, trim_range,
    unsigned, word_ranges, words,
};

verus! {

/// What can go wrong while sampling a process.
#[derive(Debug, Clone, PartialEq, Eq)]
pub enum SysmonError {
    /// A file could not be read.
    Io {
        /// The file.
        path: String,
        /// What the system reported.
        message: String,
    },
    /// A required field is not in the file.
    MissingField {
        /// The file.
        path: String,
        /// The field.
        field: &'static str,
    },
    /// A field does not hold a number of the expected kind.
    InvalidValue {
        /// The file.
        path: String,
        /// The field.
        field: &'static str,
        /// What it holds.
        value: String,
    },
}

impl SysmonError {
    /// The error in words.
    pub open spec fn words(self) -> Seq<char> {
        match self {
            SysmonError::Io { path, message } => "failed to read "@ + path@ + ": "@ + message@,
            SysmonError::MissingField { path, field } => "missing field "@ + field@ + " in "@
                + path@,
            SysmonError::InvalidValue { path, field, value } => "invalid value for field "@ + field@
                + " in "@ + path@ + ": "@ + value@,
        }
    }

    /// The error in words.
    pub fn message(&self) -> (text: String)
        ensures
            text@ == self.words(),
    {
        match self {
            SysmonError::Io { path, message } => {
                let mut text: String = String::from_str("failed to read ");
                text.append(path.as_str());
                text.append(": ");
                text.append(message.as_str());
                text
            },
            SysmonError::MissingField { path, field } => {
                let mut text: String = String::from_str("missing field ");
                text.append(field);
                text.append(" in ");
                text.append(path.as_str());
                text
            },
            SysmonError::InvalidValue { path, field, value } => {
                let mut text: String = String::from_str("invalid value for field ");
                text.append(field);
                text.append(" in ");
                text.append(path.as_str());
                text.append(": ");
                text.append(value.as_str());
                text
            },
        }
    }
}

/// What is wrong with the text of a file.
pub enum Fault {
    /// The field is not there.
    Missing(Seq<char>),
    /// The field holds this instead of a number.
    Invalid(Seq<char>, Seq<char>),
}

/// Whether `e` reports `fault` in the file `path`.
pub open spec fn reports(e: SysmonError, fault: Fault, path: Seq<char>) -> bool {
    match (e, fault) {
        (SysmonError::MissingField { path: at, field }, Fault::Missing(name)) => at@ == path
            && field@ == name,
        (SysmonError::InvalidValue { path: at, field, value }, Fault::Invalid(name, text)) => at@
            == path && field@ == name && value@ == text,
        _ => false,
    }
}

/// Whether `r` is what `expected` says: the same value, or the fault reported.
pub open spec fn answers<T>(
    r: Result<T, SysmonError>,
    expected: Result<T, Fault>,
    path: Seq<char>,
) -> bool {
    match (r, expected) {
        (Ok(value), Ok(wanted)) => value == wanted,
        (Err(e), Err(fault)) => reports(e, fault, path),
        _ => false,
    }
}

fn missing_field(path: &str, field: &'static str) -> (e: SysmonError)
    ensures
        reports(e, Fault::Missing(field@), path@),
{
    SysmonError::MissingField { path: String::from_str(path), field }
}

fn invalid_value(path: &str, field: &'static str, text: &[char], from: usize, to: usize) -> (e:
    SysmonError)
    requires
        from <= to <= text@.len(),
    ensures
        reports(e, Fault::Invalid(field@, text@.subrange(from as int, to as int)), path@),
{
    let value: String = string_of(vstd::slice::slice_subrange(text, from, to));
    SysmonError::InvalidValue { path: String::from_str(path), field, value }
}

// ---------------------------------------------------------------------------
// /proc/<pid>/status
// ---------------------------------------------------------------------------

/// What the status file gives.
#[derive(Debug, Clone, Copy, PartialEq, Eq, Structural)]
pub struct StatusFields {
    /// Resident memory in bytes.
    pub rss_bytes: u64,
    /// Number of threads.
    pub thread_count: u32,
}

/// What has been found so far: resident memory in kibibytes, and threads.
pub struct StatusScan {
    /// Resident memory in kibibytes.
    pub rss_kib: Option<u64>,
    /// Number of threads.
    pub threads: Option<u32>,
}

/// A text as a number of at most `limit`.
pub open spec fn bounded(text: Seq<char>, limit: nat) -> Option<nat> {
    match unsigned(text) {
        Some(n) => if n <= limit {
            Some(n)
        } else {
            None
        },
        None => None,
    }
}

/// What one line adds to what has been found.
pub open spec fn scan_line(found: StatusScan, line: Seq<char>) -> Result<StatusScan, Fault> {
    if begins_with(line, "VmRSS:"@) {
        let text = first_word(trim(line.skip("VmRSS:"@.len() as int)));
        match bounded(text, u64::MAX as nat) {
            Some(n) => Ok(StatusScan { rss_kib: Some(n as u64), threads: found.threads }),
            None => Err(Fault::Invalid("VmRSS"@, text)),
        }
    } else if begins_with(line, "Threads:"@) {
        let text = trim(line.skip("Threads:"@.len() as int));
        match bounded(text, u32::MAX as nat) {
            Some(n) => Ok(StatusScan { rss_kib: found.rss_kib, threads: Some(n as u32) }),
            None => Err(Fault::Invalid("Threads"@, text)),
        }
    } else {
        Ok(found)
    }
}

/// What the lines give, read from the first until both fields are found.
pub open spec fn scan(ls: Seq<Seq<char>>) -> Result<StatusScan, Fault>
    decreases ls.len(),
{
    if ls.len() == 0 {
        Ok(StatusScan { rss_kib: None, threads: None })
    } else {
        match scan(ls.drop_last()) {
            Err(fault) => Err(fault),
            Ok(found) => if found.rss_kib is Some && found.threads is Some {
                Ok(found)
            } else {
                scan_line(found, ls.last())
            },
        }
    }
}

/// Both fields of a status file: kibibytes and threads.
pub open spec fn status_of(content: Seq<char>) -> Result<(u64, u32), Fault> {
    match scan(lines(content)) {
        Err(fault) => Err(fault),
        Ok(found) => match (found.rss_kib, found.threads) {
            (None, _) => Err(Fault::Missing("VmRSS"@)),
            (Some(_), None) => Err(Fault::Missing("Threads"@)),
            (Some(kib), Some(threads)) => Ok((kib, threads)),
        },
    }
}

/// Once both fields are found, or a line is at fault, later lines do not
/// matter.
proof fn lemma_scan_settled(ls: Seq<Seq<char>>, n: int)
    requires
        0 <= n <= ls.len(),
        match scan(ls.take(n)) {
            Err(_) => true,
            Ok(found) => found.rss_kib is Some && found.threads is Some,
        },
    ensures
        scan(ls) == scan(ls.take(n)),
    decreases ls.len(),
{
    if n == ls.len() {
        assert(ls.take(n) =~= ls);
    } else {
        assert(ls.drop_last().take(n) =~= ls.take(n));
        lemma_scan_settled(ls.drop_last(), n);
    }
}

/// Reads the kibibytes and threads off a status file.
fn status_fields(content: &str, path: &str) -> (r: Result<(u64, u32), SysmonError>)
    ensures
        answers(r, status_of(content@), path@),
{
    let text: Vec<char> = chars_of(content);
    let rss_key: Vec<char> = chars_of("VmRSS:");
    let threads_key: Vec<char> = chars_of("Threads:");
    let ranges: Vec<(usize, usize)> = line_ranges(&text);
    let mut rss_kib: Option<u64> = None;
    let mut threads: Option<u32> = None;
    let mut i: usize = 0;
    let ghost ls = lines(content@);
    assert(ls.take(0) =~= Seq::empty());
    while i < ranges.len() && (rss_kib.is_none() || threads.is_none())
        invariant
            i <= ranges@.len() == ls.len(),
            ls == lines(text@),
            ls == lines(content@),
            rss_key@ == "VmRSS:"@,
            threads_key@ == "Threads:"@,
            forall|j: int|
                0 <= j < ranges@.len() ==> (#[trigger] ranges@[j]).0 <= ranges@[j].1 <= text@.len()
                    && text@.subrange(ranges@[j].0 as int, ranges@[j].1 as int) == ls[j],
            scan(ls.take(i as int)) == Ok::<StatusScan, Fault>(StatusScan { rss_kib, threads }),
        decreases ranges@.len() - i,
    {
        let (from, to) = ranges[i];
        let ghost line = ls[i as int];
        proof {
            assert(ls.take(i + 1).drop_last() =~= ls.take(i as int));
            assert(ls.take(i + 1).last() == line);
            assert(text@.subrange(ranges@[i as int].0 as int, ranges@[i as int].1 as int) == line);
        }
        if starts(&text, from, to, &rss_key) {
            let begin: usize = from + rss_key.len();
            assert(line.skip("VmRSS:"@.len() as int) =~= text@.subrange(begin as int, to as int));
            let (a, b) = trim_range(&text, begin, to);
            let end: usize = first_word_end(&text, a, b);
            match parse_unsigned(&text, a, end, u64::MAX) {
                Some(n) => {
                    rss_kib = Some(n);
                },
                None => {
                    proof {
                        lemma_scan_settled(ls, i + 1);
                    }
                    return Err(invalid_value(path, "VmRSS", &text, a, end));
                },
            }
        } else if starts(&text, from, to, &threads_key) {
            let begin: usize = from + threads_key.len();
            assert(line.skip("Threads:"@.len() as int) =~= text@.subrange(begin as int, to as int));
            let (a, b) = trim_range(&text, begin, to);
            match parse_unsigned(&text, a, b, u32::MAX as u64) {
                Some(n) => {
                    threads = Some(n as u32);
                },
                None => {
                    proof {
                        lemma_scan_settled(ls, i + 1);
                    }
                    return Err(invalid_value(path, "Threads", &text, a, b));
                },
            }
        }
        i += 1;
    }
    proof {
        if rss_kib is Some && threads is Some {
            lemma_scan_settled(ls, i as int);
        } else {
            assert(ls.take(i as int) =~= ls);
        }
    }
    match (rss_kib, threads) {
        (None, _) => Err(missing_field(path, "VmRSS")),
        (Some(_), None) => Err(missing_field(path, "Threads")),
        (Some(kib), Some(threads)) => Ok((kib, threads)),
    }
}

/// Whether the resident memory in a status file, counted in bytes, still fits
/// 64 bits.
pub open spec fn rss_fits(content: Seq<char>) -> bool {
    status_of(content) matches Ok((kib, threads)) ==> kib * 1024 <= u64::MAX
}

/// Whether the resident memory in a status file, counted in bytes, still fits
/// 64 bits.
pub fn status_fits(content: &str) -> (fits: bool)
    ensures
        fits == rss_fits(content@),
{
    match status_fields(content, "") {
        Ok((kib, _)) => kib <= u64::MAX / 1024,
        Err(_) => true,
    }
}

/// The fields of a status file, memory in bytes.
pub open spec fn status_value(content: Seq<char>) -> Result<StatusFields, Fault> {
    match status_of(content) {
        Err(fault) => Err(fault),
        Ok((kib, threads)) => Ok(
            StatusFields { rss_bytes: (kib * 1024) as u64, thread_count: threads },
        ),
    }
}

/// Reads resident memory and threads off the text of a status file.
pub fn parse_status(content: &str, path: &str) -> (r: Result<StatusFields, SysmonError>)
    requires
        rss_fits(content@),
    ensures
        answers(r, status_value(content@), path@),
{
    match status_fields(content, path) {
        Err(e) => Err(e),
        Ok((kib, thread_count)) => Ok(StatusFields { rss_bytes: kib * 1024, thread_count }),
    }
}

// ---------------------------------------------------------------------------
// /proc/<pid>/stat
// ---------------------------------------------------------------------------

/// What the stat file gives.
#[derive(Debug, Clone, Copy, PartialEq, Eq, Structural)]
pub struct StatFields {
    /// User-mode CPU time in scheduler jiffies.
    pub cpu_user_jiffies: u64,
    /// Kernel-mode CPU time in scheduler jiffies.
    pub cpu_system_jiffies: u64,
}

/// The fields of a stat file. The command name stands in parentheses and may
/// hold anything; what follows its last closing parenthesis is words, of which
/// the twelfth and the thirteenth are the CPU times.
pub open spec fn stat_value(content: Seq<char>) -> Result<StatFields, Fault> {
    match find_last(content, ')') {
        None => Err(Fault::Missing("comm_close_paren"@)),
        Some(i) => {
            let fields = words(content.skip(i + 1));
            if fields.len() < 12 {
                Err(Fault::Missing("utime"@))
            } else if fields.len() < 13 {
                Err(Fault::Missing("stime"@))
            } else {
                match (bounded(fields[11], u64::MAX as nat), bounded(fields[12], u64::MAX as nat)) {
                    (None, _) => Err(Fault::Invalid("utime"@, fields[11])),
                    (Some(_), None) => Err(Fault::Invalid("stime"@, fields[12])),
                    (Some(user), Some(system)) => Ok(
                        StatFields {
                            cpu_user_jiffies: user as u64,
                            cpu_system_jiffies: system as u64,
                        },
                    ),
                }
            }
        },
    }
}

/// Reads the CPU times off the text of a stat file.
pub fn parse_stat(content: &str, path: &str) -> (r: Result<StatFields, SysmonError>)
    ensures
        answers(r, stat_value(content@), path@),
{
    let text: Vec<char> = chars_of(content);
    assert(text@.subrange(0, text@.len() as int) =~= content@);
    let close: usize = match find_last_in(&text, 0, text.len(), ')') {
        Some(i) => i,
        None => {
            return Err(missing_field(path, "comm_close_paren"));
        },
    };
    assert(content@.skip(close + 1) =~= text@.subrange(close + 1, text@.len() as int));
    let fields: Vec<(usize, usize)> = word_ranges(&text, close + 1, text.len());
    let ghost ws = words(content@.skip(close + 1));
    if fields.len() < 12 {
        return Err(missing_field(path, "utime"));
    }
    if fields.len() < 13 {
        return Err(missing_field(path, "stime"));
    }
    let (a, b) = fields[11];
    let (c, d) = fields[12];
    assert(text@.subrange(fields@[11].0 as int, fields@[11].1 as int) == ws[11]);
    assert(text@.subrange(fields@[12].0 as int, fields@[12].1 as int) == ws[12]);
    match parse_unsigned(&text, a, b, u64::MAX) {
        None => Err(invalid_value(path, "utime", &text, a, b)),
        Some(cpu_user_jiffies) => match parse_unsigned(&text, c, d, u64::MAX) {
            None => Err(invalid_value(path, "stime", &text, c, d)),
            Some(cpu_system_jiffies) => Ok(StatFields { cpu_user_jiffies, cpu_system_jiffies }),
        },
    }
}

// ---------------------------------------------------------------------------
// /proc/<pid>/task/<pid>/children
// ---------------------------------------------------------------------------

/// Words as process numbers, in order; the first that is none is a fault.
pub open spec fn pids(ws: Seq<Seq<char>>) -> Result<Seq<u32>, Fault>
    decreases ws.len(),
{
    if ws.len() == 0 {
        Ok(Seq::empty())
    } else {
        match pids(ws.drop_last()) {
            Err(fault) => Err(fault),
            Ok(before) => match bounded(ws.last(), u32::MAX as nat) {
                None => Err(Fault::Invalid("children_pid"@, ws.last())),
                Some(n) => Ok(before.push(n as u32)),
            },
        }
    }
}

proof fn lemma_pids_settled(ws: Seq<Seq<char>>, n: int)
    requires
        0 <= n <= ws.len(),
        pids(ws.take(n)) is Err,
    ensures
        pids(ws) == pids(ws.take(n)),
    decreases ws.len(),
{
    if n == ws.len() {
        assert(ws.take(n) =~= ws);
    } else {
        assert(ws.drop_last().take(n) =~= ws.take(n));
        lemma_pids_settled(ws.drop_last(), n);
    }
}

/// Reads the direct children off the text of a children file, which may be
/// empty.
pub fn parse_children(content: &str, path: &str) -> (r: Result<Vec<u32>, SysmonError>)
    ensures
        match (r, pids(words(content@))) {
            (Ok(children), Ok(wanted)) => children@ == wanted,
            (Err(e), Err(fault)) => reports(e, fault, path@),
            _ => false,
        },
{
    let text: Vec<char> = chars_of(content);
    assert(text@.subrange(0, text@.len() as int) =~= content@);
    let ranges: Vec<(usize, usize)> = word_ranges(&text, 0, text.len());
    let ghost ws = words(content@);
    let mut children: Vec<u32> = Vec::new();
    let mut i: usize = 0;
    assert(ws.take(0) =~= Seq::empty());
    while i < ranges.len()
        invariant
            i <= ranges@.len() == ws.len(),
            ws == words(content@),
            forall|j: int|
                0 <= j < ranges@.len() ==> (#[trigger] ranges@[j]).0 <= ranges@[j].1 <= text@.len()
                    && text@.subrange(ranges@[j].0 as int, ranges@[j].1 as int) == ws[j],
            pids(ws.take(i as int)) == Ok::<Seq<u32>, Fault>(children@),
        decreases ranges@.len() - i,
    {
        let (from, to) = ranges[i];
        proof {
            assert(ws.take(i + 1).drop_last() =~= ws.take(i as int));
            assert(ws.take(i + 1).last() == ws[i as int]);
            assert(text@.subrange(ranges@[i as int].0 as int, ranges@[i as int].1 as int)
                == ws[i as int]);
        }
        match parse_unsigned(&text, from, to, u32::MAX as u64) {
            Some(n) => {
                children.push(n as u32);
            },
            None => {
                proof {
                    lemma_pids_settled(ws, i + 1);
                }
                return Err(invalid_value(path, "children_pid", &text, from, to));
            },
        }
        i += 1;
    }
    assert(ws.take(i as int) =~= ws);
    Ok(children)
}

// ---------------------------------------------------------------------------
// From files to samples.
// ---------------------------------------------------------------------------

/// Appends `/proc/` and a process number.
fn proc_path(pid: u32) -> (path: String)
    ensures
        path@ == "/proc/"@ + digits(pid as nat),
{
    let mut path: String = String::from_str("/proc/");
    push_decimal(&mut path, pid as u128);
    path
}

/// The status file of a process.
pub fn status_path(pid: u32) -> (path: String)
    ensures
        path@ == "/proc/"@ + digits(pid as nat) + "/status"@,
{
    let mut path: String = proc_path(pid);
    path.append("/status");
    path
}

/// The stat file of a process.
pub fn stat_path(pid: u32) -> (path: String)
    ensures
        path@ == "/proc/"@ + digits(pid as nat) + "/stat"@,
{
    let mut path: String = proc_path(pid);
    path.append("/stat");
    path
}

/// The file that lists the direct children of a process.
pub fn children_path(pid: u32) -> (path: String)
    ensures
        path@ == "/proc/"@ + digits(pid as nat) + "/task/"@ + digits(pid as nat) + "/children"@,
{
    let mut path: String = proc_path(pid);
    path.append("/task/");
    push_decimal(&mut path, pid as u128);
    path.append("/children");
    path
}

/// The sample that the two files of a process give, read at `elapsed_ns`. A
/// fault in the status file comes first.
pub fn process_sample(pid: u32, elapsed_ns: u64, status: &str, stat: &str) -> (r: Result<
    ResourceSample,
    SysmonError,
>)
    requires
        rss_fits(status@),
    ensures
        match (status_value(status@), stat_value(stat@)) {
            (Err(fault), _) => r matches Err(e) && reports(
                e,
                fault,
                "/proc/"@ + digits(pid as nat) + "/status"@,
            ),
            (Ok(_), Err(fault)) => r matches Err(e) && reports(
                e,
                fault,
                "/proc/"@ + digits(pid as nat) + "/stat"@,
            ),
            (Ok(memory), Ok(cpu)) => r == Ok::<ResourceSample, SysmonError>(
                ResourceSample {
                    elapsed_ns,
                    rss_bytes: memory.rss_bytes,
                    cpu_user_jiffies: cpu.cpu_user_jiffies,
                    cpu_system_jiffies: cpu.cpu_system_jiffies,
                    thread_count: memory.thread_count,
                },
            ),
        },
{
    match parse_status(status, &status_path(pid)) {
        Err(e) => Err(e),
        Ok(memory) => match parse_stat(stat, &stat_path(pid)) {
            Err(e) => Err(e),
            Ok(cpu) => Ok(
                ResourceSample {
                    elapsed_ns,
                    rss_bytes: memory.rss_bytes,
                    cpu_user_jiffies: cpu.cpu_user_jiffies,
                    cpu_system_jiffies: cpu.cpu_system_jiffies,
                    thread_count: memory.thread_count,
                },
            ),
        },
    }
}

/// The direct children to sample: those the file lists, none if it does not
/// read.
pub fn listed_children(pid: u32, content: &str) -> (children: Vec<u32>)
    ensures
        children@ == match pids(words(content@)) {
            Ok(listed) => listed,
            Err(_) => Seq::<u32>::empty(),
        },
{
    match parse_children(content, &children_path(pid)) {
        Ok(listed) => listed,
        Err(_) => Vec::new(),
    }
}

/// The sum of one figure over a process and its children.
pub open spec fn figure_sum(
    parent: int,
    children: Seq<ResourceSample>,
    figure: spec_fn(ResourceSample) -> int,
) -> int
    decreases children.len(),
{
    if children.len() == 0 {
        parent
    } else {
        figure_sum(parent, children.drop_last(), figure) + figure(children.last())
    }
}

/// `n`, held at `limit`.
pub open spec fn capped(n: int, limit: int) -> int {
    if n > limit {
        limit
    } else {
        n
    }
}

/// Whether `sum` is a process and its children as one: the figures added up,
/// held at the largest value their type has, at the time of the parent's sample.
pub open spec fn is_aggregate(
    sum: ResourceSample,
    parent: ResourceSample,
    children: Seq<ResourceSample>,
) -> bool {
    &&& sum.elapsed_ns == parent.elapsed_ns
    &&& sum.rss_bytes == capped(
        figure_sum(parent.rss_bytes as int, children, |s: ResourceSample| s.rss_bytes as int),
        u64::MAX as int,
    )
    &&& sum.cpu_user_jiffies == capped(
        figure_sum(
            parent.cpu_user_jiffies as int,
            children,
            |s: ResourceSample| s.cpu_user_jiffies as int,
        ),
        u64::MAX as int,
    )
    &&& sum.cpu_system_jiffies == capped(
        figure_sum(
            parent.cpu_system_jiffies as int,
            children,
            |s: ResourceSample| s.cpu_system_jiffies as int,
        ),
        u64::MAX as int,
    )
    &&& sum.thread_count == capped(
        figure_sum(
            parent.thread_count as int,
            children,
            |s: ResourceSample| s.thread_count as int,
        ),
        u32::MAX as int,
    )
}

/// A process and its children as one: the figures added up, held at the
/// largest value their type has, at the time of the parent's sample.
pub fn aggregate(parent: ResourceSample, children: &[ResourceSample]) -> (sum: ResourceSample)
    ensures
        is_aggregate(sum, parent, children@),
{
    let ghost rss = |s: ResourceSample| s.rss_bytes as int;
    let ghost user = |s: ResourceSample| s.cpu_user_jiffies as int;
    let ghost system = |s: ResourceSample| s.cpu_system_jiffies as int;
    let ghost threads = |s: ResourceSample| s.thread_count as int;
    let mut sum: ResourceSample = parent;
    let mut i: usize = 0;
    assert(children@.take(0) =~= Seq::empty());
    while i < children.len()
        invariant
            i <= children@.len(),
            rss == |s: ResourceSample| s.rss_bytes as int,
            user == |s: ResourceSample| s.cpu_user_jiffies as int,
            system == |s: ResourceSample| s.cpu_system_jiffies as int,
            threads == |s: ResourceSample| s.thread_count as int,
            sum.elapsed_ns == parent.elapsed_ns,
            sum.rss_bytes == capped(
                figure_sum(parent.rss_bytes as int, children@.take(i as int), rss),
                u64::MAX as int,
            ),
            sum.cpu_user_jiffies == capped(
                figure_sum(parent.cpu_user_jiffies as int, children@.take(i as int), user),
                u64::MAX as int,
            ),
            sum.cpu_system_jiffies == capped(
                figure_sum(parent.cpu_system_jiffies as int, children@.take(i as int), system),
                u64::MAX as int,
            ),
            sum.thread_count == capped(
                figure_sum(parent.thread_count as int, children@.take(i as int), threads),
                u32::MAX as int,
            ),
        decreases children@.len() - i,
    {
        let child: ResourceSample = children[i];
        proof {
            let now = children@.take(i + 1);
            assert(now.drop_last() =~= children@.take(i as int));
            assert(now.last() == child);
        }
        sum.rss_bytes = sum.rss_bytes.saturating_add(child.rss_bytes);
        sum.cpu_user_jiffies = sum.cpu_user_jiffies.saturating_add(child.cpu_user_jiffies);
        sum.cpu_system_jiffies = sum.cpu_system_jiffies.saturating_add(child.cpu_system_jiffies);
        sum.thread_count = sum.thread_count.saturating_add(child.thread_count);
        i += 1;
    }
    assert(children@.take(i as int) =~= children@);
    sum
}

/// Children only add to the figures of a process, and a process without
/// children is its own sum.
pub proof fn law_children_only_add(
    parent: int,
    children: Seq<ResourceSample>,
    figure: spec_fn(ResourceSample) -> int,
)
    requires
        forall|s: ResourceSample| #[trigger] figure(s) >= 0,
    ensures
        figure_sum(parent, children, figure) >= parent,
        children.len() == 0 ==> figure_sum(parent, children, figure) == parent,
    decreases children.len(),
{
    if children.len() > 0 {
        law_children_only_add(parent, children.drop_last(), figure);
    }
}

proof fn lemma_figure_sum(
    parent: int,
    children: Seq<ResourceSample>,
    figure: spec_fn(ResourceSample) -> int,
    whole: spec_fn(ResourceSample) -> nat,
)
    requires
        forall|s: ResourceSample| #[trigger] figure(s) == whole(s),
    ensures
        figure_sum(parent, children, figure) == parent + total(children.map_values(whole)),
    decreases children.len(),
{
    if children.len() > 0 {
        let rest = children.drop_last();
        lemma_figure_sum(parent, rest, figure, whole);
        assert(children.map_values(whole).drop_last() =~= rest.map_values(whole));
        assert(figure(children.last()) == whole(children.last()));
    }
}

/// Each figure of a process with its children is the parent's and the children's
/// added up, as long as that fits, at the time of the parent's sample.
pub proof fn law_figures_of_a_family_add_up(
    sum: ResourceSample,
    parent: ResourceSample,
    children: Seq<ResourceSample>,
)
    requires
        is_aggregate(sum, parent, children),
    ensures
        ({
            let rss = parent.rss_bytes + total(
                children.map_values(|s: ResourceSample| s.rss_bytes as nat),
            );
            let user = parent.cpu_user_jiffies + total(
                children.map_values(|s: ResourceSample| s.cpu_user_jiffies as nat),
            );
            let system = parent.cpu_system_jiffies + total(
                children.map_values(|s: ResourceSample| s.cpu_system_jiffies as nat),
            );
            let threads = parent.thread_count + total(
                children.map_values(|s: ResourceSample| s.thread_count as nat),
            );
            &&& sum.elapsed_ns == parent.elapsed_ns
            &&& rss <= u64::MAX ==> sum.rss_bytes == rss
            &&& user <= u64::MAX ==> sum.cpu_user_jiffies == user
            &&& system <= u64::MAX ==> sum.cpu_system_jiffies == system
            &&& threads <= u32::MAX ==> sum.thread_count == threads
            &&& rss > u64::MAX ==> sum.rss_bytes == u64::MAX
            &&& user > u64::MAX ==> sum.cpu_user_jiffies == u64::MAX
            &&& system > u64::MAX ==> sum.cpu_system_jiffies == u64::MAX
            &&& threads > u32::MAX ==> sum.thread_count == u32::MAX
        }),
{
    lemma_figure_sum(
        parent.rss_bytes as int,
        children,
        |s: ResourceSample| s.rss_bytes as int,
        |s: ResourceSample| s.rss_bytes as nat,
    );
    lemma_figure_sum(
        parent.cpu_user_jiffies as int,
        children,
        |s: ResourceSample| s.cpu_user_jiffies as int,
        |s: ResourceSample| s.cpu_user_jiffies as nat,
    );
    lemma_figure_sum(
        parent.cpu_system_jiffies as int,
        children,
        |s: ResourceSample| s.cpu_system_jiffies as int,
        |s: ResourceSample| s.cpu_system_jiffies as nat,
    );
    lemma_figure_sum(
        parent.thread_count as int,
        children,
        |s: ResourceSample| s.thread_count as int,
        |s: ResourceSample| s.thread_count as nat,
    );
}

/// The CPU times of a stat file stand behind eleven words behind the command
/// name, user mode first. What the command name holds, parentheses and spaces
/// included, does not matter, nor what follows.
pub proof fn law_cpu_times_read_back(
    front: Seq<char>,
    before: Seq<char>,
    user: u64,
    system: u64,
    behind: Seq<char>,
)
    requires
        words(before).len() == 11,
        forall|i: int| 0 <= i < before.len() ==> before[i] != ')',
        forall|i: int| 0 <= i < behind.len() ==> behind[i] != ')',
    ensures
        stat_value(
            front + seq![')'] + before + seq![' '] + digits(user as nat) + seq![' '] + digits(
                system as nat,
            ) + seq![' '] + behind,
        ) == Ok::<StatFields, Fault>(
            StatFields { cpu_user_jiffies: user, cpu_system_jiffies: system },
        ),
{
    let u = digits(user as nat);
    let v = digits(system as nat);
    let tail = behind;
    let third = v.push(' ') + tail;
    let second = u.push(' ') + third;
    let rest = before.push(' ') + second;
    let content = front + seq![')'] + before + seq![' '] + u + seq![' '] + v + seq![' '] + tail;
    assert(content =~= front.push(')') + rest);
    law_digits_read_back(user as nat);
    law_digits_read_back(system as nat);
    assert forall|i: int| 0 <= i < rest.len() implies rest[i] != ')' by {
        let a = before.len() as int;
        let b = a + 1 + u.len();
        let c = b + 1 + v.len();
        if i < a {
            assert(rest[i] == before[i]);
        } else if a < i < b {
            assert(rest[i] == u[i - a - 1]);
            assert('0' <= u[i - a - 1] <= '9');
        } else if b < i < c {
            assert(rest[i] == v[i - b - 1]);
            assert('0' <= v[i - b - 1] <= '9');
        } else if c < i {
            assert(rest[i] == behind[i - c - 1]);
        }
    }
    lemma_last_is(front, ')', rest);
    assert(content.skip(front.len() as int + 1) =~= rest);
    law_words_stand_between_spaces(before, ' ', second);
    law_words_stand_between_spaces(u, ' ', third);
    law_words_stand_between_spaces(v, ' ', tail);
    lemma_one_word(u);
    lemma_one_word(v);
    let fields = words(rest);
    assert(fields =~= words(before) + (seq![u] + (seq![v] + words(tail))));
    assert(fields[11] == u && fields[12] == v);
}

proof fn lemma_one_word(s: Seq<char>)
    requires
        s.len() > 0,
        crate::text::all_decimal(s),
    ensures
        words(s) == seq![s],
{
    assert forall|i: int| 0 <= i < s.len() implies !crate::text::space(#[trigger] s[i]) by {
        assert('0' <= s[i] <= '9');
    }
    law_words_stand_between_spaces(Seq::empty(), ' ', s);
}

proof fn lemma_last_is(front: Seq<char>, c: char, rest: Seq<char>)
    requires
        forall|i: int| 0 <= i < rest.len() ==> rest[i] != c,
    ensures
        find_last(front.push(c) + rest, c) == Some(front.len() as int),
    decreases rest.len(),
{
    let all = front.push(c) + rest;
    if rest.len() == 0 {
        assert(all =~= front.push(c));
    } else {
        assert(all.drop_last() =~= front.push(c) + rest.drop_last());
        assert(all.last() == rest[rest.len() - 1]);
        lemma_last_is(front, c, rest.drop_last());
    }
}

/// Whether a line gives `kib` as the resident memory.
pub open spec fn gives_memory(line: Seq<char>, kib: nat) -> bool {
    begins_with(line, "VmRSS:"@) && unsigned(
        first_word(trim(line.skip("VmRSS:"@.len() as int))),
    ) == Some(kib)
}

/// Whether a line gives `n` as the number of threads.
pub open spec fn gives_threads(line: Seq<char>, n: nat) -> bool {
    begins_with(line, "Threads:"@) && unsigned(trim(line.skip("Threads:"@.len() as int))) == Some(n)
}

/// The memory and the threads of a status file are what lines of it give, the
/// memory in units of 1024 bytes.
pub proof fn law_status_is_given_by_lines(content: Seq<char>)
    requires
        rss_fits(content),
    ensures
        status_value(content) matches Ok(fields) ==> {
            &&& exists|i: int, kib: nat|
                0 <= i < lines(content).len() && #[trigger] gives_memory(lines(content)[i], kib)
                    && fields.rss_bytes == kib * 1024
            &&& exists|i: int|
                0 <= i < lines(content).len() && #[trigger] gives_threads(
                    lines(content)[i],
                    fields.thread_count as nat,
                )
        },
{
    let ls = lines(content);
    lemma_scan_is_given(ls);
    if let Ok(fields) = status_value(content) {
        let found = scan(ls)->Ok_0;
        let kib = found.rss_kib->0;
        assert(status_of(content) == Ok::<(u64, u32), Fault>((kib, found.threads->0)));
        assert(fields.rss_bytes == kib * 1024);
        let i = choose|i: int| 0 <= i < ls.len() && #[trigger] gives_memory(ls[i], kib as nat);
        assert(gives_memory(lines(content)[i], kib as nat));
        let j = choose|j: int|
            0 <= j < ls.len() && #[trigger] gives_threads(ls[j], found.threads->0 as nat);
        assert(gives_threads(lines(content)[j], fields.thread_count as nat));
    }
}

proof fn lemma_scan_is_given(ls: Seq<Seq<char>>)
    ensures
        scan(ls) matches Ok(found) ==> {
            &&& found.rss_kib is Some ==> exists|i: int|
                0 <= i < ls.len() && #[trigger] gives_memory(ls[i], found.rss_kib->0 as nat)
            &&& found.threads is Some ==> exists|i: int|
                0 <= i < ls.len() && #[trigger] gives_threads(ls[i], found.threads->0 as nat)
        },
    decreases ls.len(),
{
    if ls.len() > 0 {
        let rest = ls.drop_last();
        lemma_scan_is_given(rest);
        let n = rest.len() as int;
        assert(ls[n] == ls.last());
        if let Ok(found) = scan(ls) {
            let before = scan(rest)->Ok_0;
            if found.rss_kib is Some {
                if found.rss_kib == before.rss_kib {
                    let i = choose|i: int|
                        0 <= i < rest.len() && #[trigger] gives_memory(
                            rest[i],
                            found.rss_kib->0 as nat,
                        );
                    assert(gives_memory(ls[i], found.rss_kib->0 as nat));
                } else {
                    assert(gives_memory(ls[n], found.rss_kib->0 as nat));
                }
            }
            if found.threads is Some {
                if found.threads == before.threads {
                    let i = choose|i: int|
                        0 <= i < rest.len() && #[trigger] gives_threads(
                            rest[i],
                            found.threads->0 as nat,
                        );
                    assert(gives_threads(ls[i], found.threads->0 as nat));
                } else {
                    assert(gives_threads(ls[n], found.threads->0 as nat));
                }
            }
        }
    }
}

/// The children of a process are the words of the file, each a number, in
/// order.
pub proof fn law_children_are_read_in_order(ws: Seq<Seq<char>>)
    ensures
        pids(ws) matches Ok(list) ==> list.len() == ws.len() && forall|i: int|
            0 <= i < ws.len() ==> unsigned(#[trigger] ws[i]) == Some(list[i] as nat),
        pids(ws) is Ok <==> forall|i: int|
            0 <= i < ws.len() ==> unsigned(#[trigger] ws[i]) is Some && unsigned(ws[i])->0
                <= u32::MAX,
    decreases ws.len(),
{
    if ws.len() > 0 {
        let rest = ws.drop_last();
        law_children_are_read_in_order(rest);
        let n = rest.len() as int;
        assert(ws[n] == ws.last());
        assert forall|i: int| 0 <= i < n implies rest[i] == #[trigger] ws[i] by {}
        if pids(rest) is Err {
            let i = choose|i: int|
                0 <= i < rest.len() && !(unsigned(#[trigger] rest[i]) is Some && unsigned(
                    rest[i],
                )->0 <= u32::MAX);
            assert(!(unsigned(ws[i]) is Some && unsigned(ws[i])->0 <= u32::MAX));
        } else {
            assert forall|i: int| 0 <= i < n implies unsigned(#[trigger] ws[i]) is Some && unsigned(
                ws[i],
            )->0 <= u32::MAX by {
                assert(unsigned(rest[i]) is Some);
            }
            if pids(ws) is Ok {
                let list = pids(ws)->Ok_0;
                assert forall|i: int| 0 <= i < ws.len() implies unsigned(#[trigger] ws[i]) == Some(
                    list[i] as nat,
                ) by {
                    if i < n {
                        assert(unsigned(rest[i]) == Some(pids(rest)->Ok_0[i] as nat));
                    }
                }
            }
        }
    }
}

} // verus!
