//! Decisions about the command line.
use inferscope::command::{
    check_process, check_run_flags, resolve_engine, run_flag_ids, sample_only_window, EngineKind,
};
use inferscope::schema::Engine;

#[test]
fn vllm_resolves_without_a_page_size() {
    assert_eq!(resolve_engine(Some(EngineKind::Vllm), None), Ok(Some(Engine::Vllm)));
}

#[test]
fn sglang_carries_the_declared_page_size() {
    assert_eq!(
        resolve_engine(Some(EngineKind::Sglang), Some(16)),
        Ok(Some(Engine::Sglang { page_size: 16 }))
    );
}

#[test]
fn sglang_without_a_page_size_is_an_error() {
    let err = resolve_engine(Some(EngineKind::Sglang), None)
        .expect_err("sglang without --page-size should not resolve");
    assert!(err.contains("--page-size"), "{err}");
}

#[test]
fn a_page_size_supplied_with_vllm_is_an_error() {
    let err = resolve_engine(Some(EngineKind::Vllm), Some(16))
        .expect_err("--page-size with vLLM should not resolve");
    assert!(err.contains("sglang"), "{err}");
}

#[test]
fn no_engine_resolves_to_none() {
    assert_eq!(resolve_engine(None, None), Ok(None));
}

#[test]
fn a_subcommand_next_to_run_flags_is_rejected() {
    let err = check_run_flags(&["pid", "sample_only", "duration_secs"]).unwrap_err();
    assert!(err.contains("--sample-only"), "{err}");
    assert!(err.contains("--duration-secs"), "{err}");
    assert!(err.contains("--pid"), "{err}");
    assert!(err.contains("were given"), "{err}");
}

#[test]
fn one_offending_flag_reads_as_singular() {
    let err = check_run_flags(&["max_tokens"]).unwrap_err();
    assert!(err.contains("--max-tokens was given"), "{err}");
}

#[test]
fn a_subcommand_alone_is_accepted() {
    assert_eq!(check_run_flags(&[]), Ok(()));
}

#[test]
fn every_run_flag_is_listed_once() {
    let ids = run_flag_ids();
    assert_eq!(ids.len(), 17);
    for (i, id) in ids.iter().enumerate() {
        assert!(!ids[..i].contains(id), "{id}");
    }
}

#[test]
fn fails_fast_when_pid_does_not_exist() {
    let err = check_process(9_999_999, false).unwrap_err();
    assert!(err.contains("pid 9999999 does not exist"), "{err}");
    assert_eq!(check_process(1, true), Ok(()));
}

#[test]
fn sampling_alone_needs_a_process_and_a_duration() {
    assert_eq!(sample_only_window(Some(4242), Some(30)), Ok((4242, 30)));
    assert_eq!(
        sample_only_window(None, Some(30)),
        Err("--sample-only requires --pid".to_string())
    );
    assert_eq!(
        sample_only_window(Some(4242), None),
        Err("--sample-only requires --duration-secs".to_string())
    );
}
