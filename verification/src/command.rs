//! The command line: what flags mean together.
use vstd::prelude::*;
use vstd::string::*;

use crate::render::{lemma_shows_behind, lemma_shows_itself, lemma_shows_more, shows};
use crate::schema::Engine;
use crate::text::{chars_of, digits, push_decimal};

verus! {

/// The vocabulary that the engine flag names.
#[derive(Debug, Clone, Copy, PartialEq, Eq, Structural)]
pub enum EngineKind {
    /// The `vllm:` vocabulary.
    Vllm,
    /// The `sglang:` vocabulary.
    Sglang,
}

/// Resolves the engine flag and the page-size flag. The page size has to be
/// given where it matters and must not be given where it does not.
pub fn resolve_engine(kind: Option<EngineKind>, page_size: Option<u32>) -> (r: Result<
    Option<Engine>,
    String,
>)
    ensures
        match (kind, page_size) {
            (None, _) => r == Ok::<Option<Engine>, String>(None),
            (Some(EngineKind::Vllm), None) => r == Ok::<Option<Engine>, String>(
                Some(Engine::Vllm),
            ),
            (Some(EngineKind::Sglang), Some(page_size)) => r == Ok::<Option<Engine>, String>(
                Some(Engine::Sglang { page_size }),
            ),
            (Some(EngineKind::Vllm), Some(_)) => r matches Err(words) && words@
                == "--page-size applies to --engine sglang only; vLLM's block size does not change the hit-rate accounting class"@,
            (Some(EngineKind::Sglang), None) => r matches Err(words) && words@
                == "--engine sglang requires --page-size: it is not exposed on /metrics and it selects the hit-rate accounting class"@,
        },
{
    match (kind, page_size) {
        (None, _) => Ok(None),
        (Some(EngineKind::Vllm), None) => Ok(Some(Engine::Vllm)),
        (Some(EngineKind::Sglang), Some(page_size)) => Ok(Some(Engine::Sglang { page_size })),
        (Some(EngineKind::Vllm), Some(_)) => Err(
            String::from_str(
                "--page-size applies to --engine sglang only; vLLM's block size does not change the hit-rate accounting class",
            ),
        ),
        (Some(EngineKind::Sglang), None) => Err(
            String::from_str(
                "--engine sglang requires --page-size: it is not exposed on /metrics and it selects the hit-rate accounting class",
            ),
        ),
    }
}

/// `s` with every underscore turned into a hyphen.
pub open spec fn hyphenated(s: Seq<char>) -> Seq<char> {
    s.map_values(
        |c: char|
            if c == '_' {
                '-'
            } else {
                c
            },
    )
}

/// The flag with the given id, as it is written.
pub open spec fn flag_text(id: Seq<char>) -> Seq<char> {
    "--"@ + hyphenated(id)
}

/// The flags with the given ids, separated by commas.
pub open spec fn flag_list(ids: Seq<Seq<char>>) -> Seq<char>
    decreases ids.len(),
{
    if ids.len() == 0 {
        Seq::empty()
    } else if ids.len() == 1 {
        flag_text(ids[0])
    } else {
        flag_list(ids.drop_last()) + ", "@ + flag_text(ids.last())
    }
}

/// The complaint about run flags next to a subcommand.
pub open spec fn conflict_text(ids: Seq<Seq<char>>) -> Seq<char> {
    "a subcommand does not take run flags, but "@ + flag_list(ids) + (if ids.len() == 1 {
        " was given. The subcommand would have run and the flag would have been ignored; drop one of the two."@
    } else {
        " were given. The subcommand would have run and the flags would have been ignored; drop one of the two."@
    })
}

/// The characters of the ids.
pub open spec fn texts(ids: Seq<&'static str>) -> Seq<Seq<char>> {
    ids.map_values(|id: &'static str| id@)
}

fn format_flag(id: &str) -> (s: String)
    ensures
        s@ == flag_text(id@),
{
    let chars: Vec<char> = chars_of(id);
    let mut s: String = String::from_str("--");
    let mut i: usize = 0;
    assert(s@ =~= "--"@ + hyphenated(id@.take(0)));
    while i < chars.len()
        invariant
            i <= chars@.len(),
            chars@ == id@,
            s@ == "--"@ + hyphenated(id@.take(i as int)),
        decreases chars@.len() - i,
    {
        let ghost before = s@;
        let c: char = if chars[i] == '_' {
            '-'
        } else {
            chars[i]
        };
        s.push(c);
        proof {
            let now = id@.take(i + 1);
            assert(hyphenated(now) =~= hyphenated(id@.take(i as int)).push(c));
            assert(s@ =~= "--"@ + hyphenated(now));
        }
        i += 1;
    }
    assert(id@.take(i as int) =~= id@);
    s
}

/// Every flag of a run, by its id.
pub fn run_flag_ids() -> (ids: Vec<&'static str>)
    ensures
        ids@ == seq![
            "endpoint",
            "model",
            "prompt",
            "max_tokens",
            "pid",
            "sample_period_ms",
            "metrics_endpoint",
            "engine",
            "page_size",
            "metrics_period_ms",
            "steps_file",
            "include_descendants",
            "sample_only",
            "duration_secs",
            "json",
            "gpu",
            "otel_endpoint",
        ],
{
    let mut ids: Vec<&'static str> = Vec::new();
    ids.push("endpoint");
    ids.push("model");
    ids.push("prompt");
    ids.push("max_tokens");
    ids.push("pid");
    ids.push("sample_period_ms");
    ids.push("metrics_endpoint");
    ids.push("engine");
    ids.push("page_size");
    ids.push("metrics_period_ms");
    ids.push("steps_file");
    ids.push("include_descendants");
    ids.push("sample_only");
    ids.push("duration_secs");
    ids.push("json");
    ids.push("gpu");
    ids.push("otel_endpoint");
    ids
}

/// Refuses a subcommand next to the given run flags: it would run, and the
/// flags would be ignored without a word. Every flag is named.
pub fn check_run_flags(given: &[&'static str]) -> (r: Result<(), String>)
    ensures
        if given@.len() == 0 {
            r == Ok::<(), String>(())
        } else {
            r matches Err(words) && words@ == conflict_text(texts(given@))
        },
{
    if given.len() == 0 {
        return Ok(());
    }
    let ghost ids = texts(given@);
    let mut flags: String = format_flag(given[0]);
    let mut i: usize = 1;
    assert(ids.take(1)[0] == given@[0]@);
    while i < given.len()
        invariant
            1 <= i <= given@.len(),
            ids == texts(given@),
            flags@ == flag_list(ids.take(i as int)),
        decreases given@.len() - i,
    {
        proof {
            let now = ids.take(i + 1);
            assert(now.drop_last() =~= ids.take(i as int));
            assert(now.last() == given@[i as int]@);
        }
        flags.append(", ");
        flags.append(&format_flag(given[i]));
        i += 1;
    }
    assert(ids.take(i as int) =~= ids);
    let mut words: String = String::from_str("a subcommand does not take run flags, but ");
    words.append(&flags);
    if given.len() == 1 {
        words.append(
            " was given. The subcommand would have run and the flag would have been ignored; drop one of the two.",
        );
    } else {
        words.append(
            " were given. The subcommand would have run and the flags would have been ignored; drop one of the two.",
        );
    }
    Err(words)
}

/// What sampling without a probe needs: a process and a duration in seconds.
pub fn sample_only_window(pid: Option<u32>, duration_secs: Option<u64>) -> (r: Result<
    (u32, u64),
    String,
>)
    ensures
        match (pid, duration_secs) {
            (None, _) => r matches Err(words) && words@ == "--sample-only requires --pid"@,
            (Some(_), None) => r matches Err(words) && words@
                == "--sample-only requires --duration-secs"@,
            (Some(pid), Some(secs)) => r == Ok::<(u32, u64), String>((pid, secs)),
        },
{
    match (pid, duration_secs) {
        (None, _) => Err(String::from_str("--sample-only requires --pid")),
        (Some(_), None) => Err(String::from_str("--sample-only requires --duration-secs")),
        (Some(pid), Some(secs)) => Ok((pid, secs)),
    }
}

/// Refuses a process that does not exist, before anything is sent.
pub fn check_process(pid: u32, exists_in_proc: bool) -> (r: Result<(), String>)
    ensures
        if exists_in_proc {
            r == Ok::<(), String>(())
        } else {
            r matches Err(words) && words@ == "process with pid "@ + digits(pid as nat)
                + " does not exist (no /proc/"@ + digits(pid as nat) + ")"@
        },
{
    if exists_in_proc {
        return Ok(());
    }
    let mut words: String = String::from_str("process with pid ");
    push_decimal(&mut words, pid as u128);
    words.append(" does not exist (no /proc/");
    push_decimal(&mut words, pid as u128);
    words.append(")");
    Err(words)
}

/// A flag is written as two hyphens and its id, with hyphens for underscores and
/// every other character as it is.
pub proof fn law_flags_are_hyphenated_ids(id: Seq<char>)
    ensures
        flag_text(id).len() == id.len() + 2,
        flag_text(id)[0] == '-' && flag_text(id)[1] == '-',
        forall|i: int|
            0 <= i < id.len() ==> #[trigger] flag_text(id)[i + 2] == if id[i] == '_' {
                '-'
            } else {
                id[i]
            },
{
    reveal_strlit("--");
}

/// Every flag that stands in the way is named in the complaint, in the order
/// given.
pub proof fn law_every_flag_is_named(ids: Seq<Seq<char>>, more: Seq<char>)
    requires
        ids.len() > 0,
    ensures
        flag_list(ids.push(more)) == flag_list(ids) + ", "@ + flag_text(more),
        flag_list(seq![more]) == flag_text(more),
        shows(conflict_text(ids), flag_list(ids)),
{
    assert(ids.push(more).drop_last() =~= ids);
    lemma_shows_itself(flag_list(ids));
    lemma_shows_behind(
        "a subcommand does not take run flags, but "@,
        flag_list(ids),
        flag_list(ids),
    );
    broadcast use lemma_shows_more;

}

} // verus!
