//! The step file of an agentic trajectory: one step boundary per line, written
//! by the driver that runs the steps.
//!
//! Checking is structural: unreadable records, inverted windows and repeated
//! ids are errors of the file. Where a step lies against the run is judged
//! when the trajectory is derived.
use std::collections::HashMap;
use vstd::prelude::*;
use vstd::string::*;

use crate::text::{
    chars_of, digits, line_ranges, lines as text_lines, push_decimal, string_of, trim, trim_range,
};

verus! {

broadcast use vstd::std_specs::hash::group_hash_axioms;

/// What a step did: talked to the model, or ran a tool.
#[derive(Debug, Clone, Copy, PartialEq, Eq, Structural)]
pub enum StepKind {
    /// A call of the serving endpoint.
    LlmCall,
    /// A tool execution outside the engine.
    Tool,
}

/// One step boundary, on the driver's wall clock.
#[derive(Debug, Clone, Copy, PartialEq, Eq, Structural)]
pub struct StepRecord {
    /// Identifier, unique within the file.
    pub step_id: u64,
    /// What the step did.
    pub kind: StepKind,
    /// Start of the step, UTC unix-epoch nanoseconds.
    pub t_start_unix_ns: u64,
    /// End of the step, UTC unix-epoch nanoseconds.
    pub t_end_unix_ns: u64,
}

/// A structural failure of the step file, with the 1-based line it is on.
#[derive(Debug, Clone, PartialEq, Eq)]
pub enum StepFileError {
    /// A line does not hold a step record.
    Malformed {
        /// The line.
        line: usize,
        /// What is wrong with it.
        message: String,
    },
    /// A step ends before it starts.
    InvertedWindow {
        /// The line.
        line: usize,
        /// The step.
        step_id: u64,
        /// Its start.
        t_start_unix_ns: u64,
        /// Its end.
        t_end_unix_ns: u64,
    },
    /// The same step id stands on two lines.
    DuplicateId {
        /// The second line.
        line: usize,
        /// The first line.
        first_line: usize,
        /// The id.
        step_id: u64,
    },
}

impl StepFileError {
    /// The error in words.
    pub open spec fn words(self) -> Seq<char> {
        match self {
            StepFileError::Malformed { line, message } => "line "@ + digits(line as nat)
                + ": not a valid step record: "@ + message@,
            StepFileError::InvertedWindow { line, step_id, t_start_unix_ns, t_end_unix_ns } =>
                "line "@ + digits(line as nat) + ": step "@ + digits(step_id as nat)
                + " ends before it starts (t_end "@ + digits(t_end_unix_ns as nat) + " < t_start "@
                + digits(t_start_unix_ns as nat) + ")"@,
            StepFileError::DuplicateId { line, first_line, step_id } => "line "@ + digits(
                line as nat,
            ) + ": duplicate step_id "@ + digits(step_id as nat) + " (first seen on line "@
                + digits(first_line as nat) + ")"@,
        }
    }

    /// The error in words.
    pub fn message(&self) -> (text: String)
        ensures
            text@ == self.words(),
    {
        let mut text: String = String::from_str("line ");
        match self {
            StepFileError::Malformed { line, message } => {
                push_decimal(&mut text, *line as u128);
                text.append(": not a valid step record: ");
                text.append(message.as_str());
            },
            StepFileError::InvertedWindow { line, step_id, t_start_unix_ns, t_end_unix_ns } => {
                push_decimal(&mut text, *line as u128);
                text.append(": step ");
                push_decimal(&mut text, *step_id as u128);
                text.append(" ends before it starts (t_end ");
                push_decimal(&mut text, *t_end_unix_ns as u128);
                text.append(" < t_start ");
                push_decimal(&mut text, *t_start_unix_ns as u128);
                text.append(")");
            },
            StepFileError::DuplicateId { line, first_line, step_id } => {
                push_decimal(&mut text, *line as u128);
                text.append(": duplicate step_id ");
                push_decimal(&mut text, *step_id as u128);
                text.append(" (first seen on line ");
                push_decimal(&mut text, *first_line as u128);
                text.append(")");
            },
        }
        text
    }
}

/// A line of the step file that holds something.
#[derive(Debug, Clone, PartialEq, Eq)]
pub struct StepLine {
    /// 1-based line number.
    pub line: usize,
    /// Its text, without surrounding white space.
    pub text: String,
}

/// The lines that hold something, each with its 1-based number.
pub open spec fn filled_lines(ls: Seq<Seq<char>>) -> Seq<(nat, Seq<char>)>
    decreases ls.len(),
{
    if ls.len() == 0 {
        Seq::empty()
    } else {
        let before = filled_lines(ls.drop_last());
        let text = trim(ls.last());
        if text.len() == 0 {
            before
        } else {
            before.push((ls.len(), text))
        }
    }
}

/// Splits a step file into the lines that hold something. Blank lines are
/// passed over, and counted.
pub fn step_lines(content: &str) -> (r: Vec<StepLine>)
    ensures
        ({
            let filled = filled_lines(text_lines(content@));
            &&& r@.len() == filled.len()
            &&& forall|i: int|
                0 <= i < r@.len() ==> (#[trigger] r@[i]).line == filled[i].0 && r@[i].text@
                    == filled[i].1
        }),
{
    let text: Vec<char> = chars_of(content);
    let ranges: Vec<(usize, usize)> = line_ranges(&text);
    let ghost ls = text_lines(content@);
    let mut r: Vec<StepLine> = Vec::new();
    let mut i: usize = 0;
    assert(ls.take(0) =~= Seq::empty());
    while i < ranges.len()
        invariant
            i <= ranges@.len() == ls.len(),
            forall|j: int|
                0 <= j < ranges@.len() ==> (#[trigger] ranges@[j]).0 <= ranges@[j].1 <= text@.len()
                    && text@.subrange(ranges@[j].0 as int, ranges@[j].1 as int) == ls[j],
            r@.len() == filled_lines(ls.take(i as int)).len(),
            forall|j: int|
                0 <= j < r@.len() ==> (#[trigger] r@[j]).line == filled_lines(
                    ls.take(i as int),
                )[j].0 && r@[j].text@ == filled_lines(ls.take(i as int))[j].1,
        decreases ranges@.len() - i,
    {
        let (from, to) = ranges[i];
        proof {
            assert(ls.take(i + 1).drop_last() =~= ls.take(i as int));
            assert(ls.take(i + 1).last() == ls[i as int]);
            assert(text@.subrange(ranges@[i as int].0 as int, ranges@[i as int].1 as int)
                == ls[i as int]);
        }
        let (a, b) = trim_range(&text, from, to);
        if a < b {
            r.push(
                StepLine {
                    line: i + 1,
                    text: string_of(vstd::slice::slice_subrange(text.as_slice(), a, b)),
                },
            );
        }
        i += 1;
    }
    assert(ls.take(i as int) =~= ls);
    r
}

/// A line of the step file with the record it holds, or what kept it from
/// being read.
#[derive(Debug, PartialEq, Eq)]
pub struct DecodedLine {
    /// 1-based line number.
    pub line: usize,
    /// The record, or why there is none.
    pub record: Result<StepRecord, String>,
}

/// Whether line `i` repeats the id of an earlier line.
pub open spec fn repeats(lines: Seq<DecodedLine>, i: int) -> bool {
    lines[i].record is Ok && exists|j: int|
        0 <= j < i && (#[trigger] lines[j]).record is Ok && lines[j].record->Ok_0.step_id
            == lines[i].record->Ok_0.step_id
}

/// Whether line `i` ends before it starts.
pub open spec fn inverted(lines: Seq<DecodedLine>, i: int) -> bool {
    lines[i].record is Ok && lines[i].record->Ok_0.t_end_unix_ns
        < lines[i].record->Ok_0.t_start_unix_ns
}

/// Whether line `i` is unreadable, inverted or a repetition.
pub open spec fn faulty(lines: Seq<DecodedLine>, i: int) -> bool {
    lines[i].record is Err || inverted(lines, i) || repeats(lines, i)
}

/// Whether `i` is the first faulty line.
pub open spec fn first_fault(lines: Seq<DecodedLine>, i: int) -> bool {
    &&& 0 <= i < lines.len()
    &&& faulty(lines, i)
    &&& forall|j: int| 0 <= j < i ==> !#[trigger] faulty(lines, j)
}

/// Whether `error` says what is wrong with line `i`.
pub open spec fn describes(error: StepFileError, lines: Seq<DecodedLine>, i: int) -> bool {
    match error {
        StepFileError::Malformed { line, message } => {
            &&& lines[i].record is Err
            &&& line == lines[i].line
            &&& message@ == lines[i].record->Err_0@
        },
        StepFileError::InvertedWindow { line, step_id, t_start_unix_ns, t_end_unix_ns } => {
            &&& inverted(lines, i)
            &&& line == lines[i].line
            &&& step_id == lines[i].record->Ok_0.step_id
            &&& t_start_unix_ns == lines[i].record->Ok_0.t_start_unix_ns
            &&& t_end_unix_ns == lines[i].record->Ok_0.t_end_unix_ns
        },
        StepFileError::DuplicateId { line, first_line, step_id } => {
            &&& lines[i].record is Ok
            &&& !inverted(lines, i)
            &&& line == lines[i].line
            &&& step_id == lines[i].record->Ok_0.step_id
            &&& exists|j: int|
                0 <= j < i && (#[trigger] lines[j]).record is Ok && lines[j].record->Ok_0.step_id
                    == step_id && first_line == lines[j].line
        },
    }
}

/// The records of readable lines, in order.
pub open spec fn records_of(lines: Seq<DecodedLine>) -> Seq<StepRecord> {
    Seq::new(lines.len(), |i: int| lines[i].record->Ok_0)
}

/// Checks the decoded lines of a step file and returns the steps in file
/// order. The first faulty line decides the error.
pub fn parse_steps(lines: &[DecodedLine]) -> (steps: Result<Vec<StepRecord>, StepFileError>)
    ensures
        steps is Ok <==> forall|i: int| 0 <= i < lines@.len() ==> !#[trigger] faulty(lines@, i),
        steps is Ok ==> steps->Ok_0@ == records_of(lines@),
        steps is Err ==> exists|i: int|
            #[trigger] first_fault(lines@, i) && describes(steps->Err_0, lines@, i),
{
    let mut steps: Vec<StepRecord> = Vec::new();
    // The line each step id was first seen on.
    let mut seen: HashMap<u64, usize> = HashMap::new();
    let mut i: usize = 0;
    while i < lines.len()
        invariant
            i <= lines@.len(),
            steps@ == records_of(lines@.take(i as int)),
            forall|j: int| 0 <= j < i ==> !#[trigger] faulty(lines@, j),
            forall|id: u64| #[trigger]
                seen@.contains_key(id) <==> exists|j: int|
                    0 <= j < i && (#[trigger] lines@[j]).record->Ok_0.step_id == id,
            forall|id: u64| #[trigger]
                seen@.contains_key(id) ==> exists|j: int|
                    0 <= j < i && (#[trigger] lines@[j]).record->Ok_0.step_id == id && seen@[id]
                        == lines@[j].line,
        decreases lines@.len() - i,
    {
        let line: usize = lines[i].line;
        match &lines[i].record {
            Err(message) => {
                assert(faulty(lines@, i as int));
                assert(first_fault(lines@, i as int));
                return Err(StepFileError::Malformed { line, message: message.clone() });
            },
            Ok(record) => {
                let record: StepRecord = *record;
                if record.t_end_unix_ns < record.t_start_unix_ns {
                    assert(first_fault(lines@, i as int));
                    return Err(
                        StepFileError::InvertedWindow {
                            line,
                            step_id: record.step_id,
                            t_start_unix_ns: record.t_start_unix_ns,
                            t_end_unix_ns: record.t_end_unix_ns,
                        },
                    );
                }
                if let Some(first_line) = seen.get(&record.step_id) {
                    proof {
                        let j = choose|j: int|
                            0 <= j < i && (#[trigger] lines@[j]).record->Ok_0.step_id
                                == record.step_id && seen@[record.step_id] == lines@[j].line;
                        assert(!faulty(lines@, j));
                        assert(repeats(lines@, i as int));
                        assert(first_fault(lines@, i as int));
                    }
                    return Err(
                        StepFileError::DuplicateId {
                            line,
                            first_line: *first_line,
                            step_id: record.step_id,
                        },
                    );
                }
                let ghost before = seen@;
                seen.insert(record.step_id, line);
                steps.push(record);
                proof {
                    assert(!repeats(lines@, i as int)) by {
                        if repeats(lines@, i as int) {
                            let j = choose|j: int|
                                0 <= j < i && (#[trigger] lines@[j]).record is Ok
                                    && lines@[j].record->Ok_0.step_id == record.step_id;
                            assert(before.contains_key(record.step_id));
                        }
                    }
                    assert(steps@ =~= records_of(lines@.take(i + 1)));
                    assert forall|id: u64| #[trigger] seen@.contains_key(id) <==> exists|j: int|
                        0 <= j < i + 1 && (#[trigger] lines@[j]).record->Ok_0.step_id == id by {
                        if id == record.step_id {
                            assert(lines@[i as int].record->Ok_0.step_id == id);
                        } else {
                            if before.contains_key(id) {
                                let j = choose|j: int|
                                    0 <= j < i && (#[trigger] lines@[j]).record->Ok_0.step_id == id;
                                assert(j < i + 1);
                            }
                        }
                    }
                    assert forall|id: u64| #[trigger] seen@.contains_key(id) implies exists|j: int|
                        0 <= j < i + 1 && (#[trigger] lines@[j]).record->Ok_0.step_id == id
                            && seen@[id] == lines@[j].line by {
                        if id == record.step_id {
                            assert(lines@[i as int].record->Ok_0.step_id == id);
                        } else {
                            let j = choose|j: int|
                                0 <= j < i && (#[trigger] lines@[j]).record->Ok_0.step_id == id
                                    && before[id] == lines@[j].line;
                            assert(j < i + 1);
                        }
                    }
                }
            },
        }
        i += 1;
    }
    assert(lines@.take(i as int) =~= lines@);
    Ok(steps)
}

/// The steps of an accepted file end no earlier than they start, and no two of
/// them share an id.
pub proof fn law_accepted_steps_are_sound(lines: Seq<DecodedLine>)
    requires
        forall|i: int| 0 <= i < lines.len() ==> !#[trigger] faulty(lines, i),
    ensures
        ({
            let steps = records_of(lines);
            &&& forall|i: int|
                0 <= i < steps.len() ==> (#[trigger] steps[i]).t_start_unix_ns
                    <= steps[i].t_end_unix_ns
            &&& forall|i: int, j: int|
                0 <= i < j < steps.len() ==> (#[trigger] steps[i]).step_id != (
                #[trigger] steps[j]).step_id
        }),
{
    let steps = records_of(lines);
    assert forall|i: int| 0 <= i < steps.len() implies (#[trigger] steps[i]).t_start_unix_ns
        <= steps[i].t_end_unix_ns by {
        assert(!faulty(lines, i));
    }
    assert forall|i: int, j: int| 0 <= i < j < steps.len() implies (#[trigger] steps[i]).step_id
        != (#[trigger] steps[j]).step_id by {
        assert(!faulty(lines, i));
        assert(!faulty(lines, j));
        assert(!repeats(lines, j));
        assert(lines[i].record is Ok);
    }
}

/// The lines of a steps file that hold something are all there, each once and in
/// order, under the number of the line it stands on and without the white space
/// around it; the others are not.
pub proof fn law_filled_lines_keep_their_numbers(ls: Seq<Seq<char>>)
    ensures
        forall|k: int|
            0 <= k < filled_lines(ls).len() ==> {
                let (n, text) = #[trigger] filled_lines(ls)[k];
                1 <= n <= ls.len() && text == trim(ls[n - 1]) && text.len() > 0
            },
        forall|j: int, k: int|
            0 <= j < k < filled_lines(ls).len() ==> (#[trigger] filled_lines(ls)[j]).0 < (
            #[trigger] filled_lines(ls)[k]).0,
        forall|i: int|
            0 <= i < ls.len() && trim(#[trigger] ls[i]).len() > 0 ==> filled_lines(ls).contains(
                ((i + 1) as nat, trim(ls[i])),
            ),
    decreases ls.len(),
{
    if ls.len() > 0 {
        let rest = ls.drop_last();
        law_filled_lines_keep_their_numbers(rest);
        let before = filled_lines(rest);
        let all = filled_lines(ls);
        assert forall|k: int| 0 <= k < all.len() implies {
            let (n, text) = #[trigger] all[k];
            1 <= n <= ls.len() && text == trim(ls[n - 1]) && text.len() > 0
        } by {
            if k < before.len() {
                assert(all[k] == before[k]);
                assert(rest[before[k].0 - 1] == ls[before[k].0 - 1]);
            }
        }
        assert forall|j: int, k: int| 0 <= j < k < all.len() implies (#[trigger] all[j]).0 < (
        #[trigger] all[k]).0 by {
            assert(all[j] == before[j]);
            assert(1 <= before[j].0 <= rest.len());
            if k < before.len() {
                assert(all[k] == before[k]);
            }
        }
        assert forall|i: int| 0 <= i < ls.len() && trim(#[trigger] ls[i]).len() > 0 implies all.contains(
            ((i + 1) as nat, trim(ls[i])),
        ) by {
            if i < rest.len() {
                assert(rest[i] == ls[i]);
                let x = ((i + 1) as nat, trim(rest[i]));
                let k = choose|k: int| 0 <= k < before.len() && before[k] == x;
                assert(all[k] == x);
            } else {
                assert(all[before.len() as int] == ((i + 1) as nat, trim(ls[i])));
            }
        }
    }
}

/// A line is at fault exactly if it does not decode, ends before it starts, or
/// has the id of an earlier line; a step of no length is none.
pub proof fn law_faults_are_of_three_kinds(lines: Seq<DecodedLine>, i: int)
    requires
        0 <= i < lines.len(),
    ensures
        lines[i].record is Err ==> faulty(lines, i),
        lines[i].record matches Ok(r) ==> (faulty(lines, i) <==> r.t_end_unix_ns
            < r.t_start_unix_ns || exists|j: int|
            0 <= j < i && (#[trigger] lines[j]).record is Ok && lines[j].record->Ok_0.step_id
                == r.step_id),
{
}

} // verus!
