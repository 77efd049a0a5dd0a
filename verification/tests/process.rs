//! Sampling a process and its devices.
use std::time::Duration;

use inferscope::gpu::GpuSample;
use inferscope::procfs::{
    aggregate, children_path, listed_children, parse_children, parse_stat, parse_status,
    process_sample, stat_path, status_fits, status_path, SysmonError,
};
use inferscope::resource::ResourceSample;
use inferscope::sampling::{device_sample, DeviceMemory, GpuError, SysmonConfig};

#[test]
fn config_new_applies_the_default_period() {
    let cfg = SysmonConfig::new(1234);
    assert_eq!(cfg.pid, 1234);
    assert_eq!(cfg.sample_period, Duration::from_millis(50));
    assert_eq!(cfg.sample_period, SysmonConfig::default_period());
}

#[test]
fn config_with_period_overrides_the_default() {
    let cfg = SysmonConfig::with_period(5678, Duration::from_millis(20));
    assert_eq!(cfg.pid, 5678);
    assert_eq!(cfg.sample_period, Duration::from_millis(20));
}

#[test]
fn new_disables_descendants_by_default() {
    let cfg = SysmonConfig::new(1234);
    assert!(!cfg.include_descendants);
}

#[test]
fn with_period_disables_descendants_by_default() {
    let cfg = SysmonConfig::with_period(5678, Duration::from_millis(20));
    assert!(!cfg.include_descendants);
}

#[test]
fn with_descendants_enables_aggregation() {
    let cfg = SysmonConfig::new(1234).with_descendants();
    assert!(cfg.include_descendants);
    assert_eq!(cfg.pid, 1234);
    assert_eq!(cfg.sample_period, SysmonConfig::default_period());
}

#[test]
fn with_descendants_preserves_explicit_period() {
    let cfg = SysmonConfig::with_period(5678, Duration::from_millis(20)).with_descendants();
    assert!(cfg.include_descendants);
    assert_eq!(cfg.sample_period, Duration::from_millis(20));
}

#[test]
fn timelines_record_the_period() {
    let cfg = SysmonConfig::with_period(1, Duration::from_millis(20));
    assert_eq!(cfg.resource_timeline().sample_period_ns, 20_000_000);
    assert_eq!(cfg.gpu_timeline().sample_period_ns, 20_000_000);
    assert!(cfg.gpu_timeline().energy.is_none());
}

#[test]
fn parse_status_extracts_rss_and_threads() {
    let content = "\
Name:   test
Umask:  0022
State:  S (sleeping)
VmRSS:\t   612672 kB
VmData:    102400 kB
Threads:\t8
SigQ:   0/63881
";
    let got = parse_status(content, "/proc/1/status").unwrap();
    assert_eq!(got.rss_bytes, 612672 * 1024);
    assert_eq!(got.thread_count, 8);
}

#[test]
fn parse_status_returns_early_after_both_fields_found() {
    let content = "VmRSS:\t1024 kB\nThreads:\t2\nGarbage:   not-a-number\n";
    let got = parse_status(content, "/proc/1/status").unwrap();
    assert_eq!(got.rss_bytes, 1024 * 1024);
    assert_eq!(got.thread_count, 2);
}

#[test]
fn parse_status_errors_on_missing_vmrss() {
    let content = "Name: x\nThreads:\t1\n";
    let err = parse_status(content, "/proc/1/status").unwrap_err();
    assert!(
        matches!(err, SysmonError::MissingField { field: "VmRSS", .. }),
        "expected MissingField VmRSS, got {err:?}"
    );
}

#[test]
fn parse_status_errors_on_missing_threads() {
    let content = "VmRSS:\t1024 kB\n";
    let err = parse_status(content, "/proc/1/status").unwrap_err();
    assert!(
        matches!(err, SysmonError::MissingField { field: "Threads", .. }),
        "expected MissingField Threads, got {err:?}"
    );
}

#[test]
fn parse_status_errors_on_unparseable_rss() {
    let content = "VmRSS:\txyz kB\nThreads:\t1\n";
    let err = parse_status(content, "/proc/1/status").unwrap_err();
    assert!(
        matches!(err, SysmonError::InvalidValue { field: "VmRSS", .. }),
        "expected InvalidValue VmRSS, got {err:?}"
    );
}

#[test]
fn the_last_of_two_values_counts_until_both_fields_are_found() {
    let got = parse_status("VmRSS: 1 kB\nVmRSS: 2 kB\nThreads: 3\nVmRSS: x\n", "p").unwrap();
    assert_eq!(got.rss_bytes, 2048);
    assert_eq!(got.thread_count, 3);
}

#[test]
fn a_status_value_that_is_no_number_is_named() {
    assert_eq!(
        parse_status("Threads: 4294967296\nVmRSS: 1 kB\n", "p").unwrap_err(),
        SysmonError::InvalidValue {
            path: "p".to_string(),
            field: "Threads",
            value: "4294967296".to_string(),
        }
    );
    assert_eq!(
        parse_status("VmRSS:\n", "p").unwrap_err(),
        SysmonError::InvalidValue { path: "p".to_string(), field: "VmRSS", value: String::new() }
    );
}

#[test]
fn memory_that_cannot_be_counted_in_bytes_is_noticed() {
    assert!(status_fits("VmRSS: 18014398509481983 kB\nThreads: 1\n"));
    assert!(!status_fits("VmRSS: 18014398509481984 kB\nThreads: 1\n"));
    assert!(status_fits("nothing"));
    let most = parse_status("VmRSS: 18014398509481983 kB\nThreads: 1\n", "p").unwrap();
    assert_eq!(most.rss_bytes, u64::MAX - 1023);
}

#[test]
fn parse_stat_extracts_utime_and_stime() {
    let content = "1234 (test) S 1 1234 1234 0 -1 4194304 100 0 0 0 \
                   1234 56 0 0 20 0 1 0 1000 5000000 612 \
                   18446744073709551615 1 1 0 0 0 0 0 0 0 0 0 0 17 0 0 0 0 0 0\n";
    let got = parse_stat(content, "/proc/1/stat").unwrap();
    assert_eq!(got.cpu_user_jiffies, 1234);
    assert_eq!(got.cpu_system_jiffies, 56);
}

#[test]
fn parse_stat_handles_command_with_spaces_and_parens() {
    let content = "1234 (rust llm (srv)) S 1 1234 1234 0 -1 4194304 100 0 0 0 \
                   1234 56 0 0 20 0 1 0 1000 5000000 612\n";
    let got = parse_stat(content, "/proc/1/stat").unwrap();
    assert_eq!(got.cpu_user_jiffies, 1234);
    assert_eq!(got.cpu_system_jiffies, 56);
}

#[test]
fn parse_stat_errors_on_missing_close_paren() {
    let content = "1234 broken-line\n";
    let err = parse_stat(content, "/proc/1/stat").unwrap_err();
    assert!(
        matches!(err, SysmonError::MissingField { field: "comm_close_paren", .. }),
        "expected MissingField comm_close_paren, got {err:?}"
    );
}

#[test]
fn parse_stat_errors_when_utime_missing() {
    let content = "1234 (test) S 1 1234 1234 0 -1\n";
    let err = parse_stat(content, "/proc/1/stat").unwrap_err();
    assert!(
        matches!(err, SysmonError::MissingField { field: "utime", .. }),
        "expected MissingField utime, got {err:?}"
    );
}

#[test]
fn parse_stat_errors_on_unparseable_utime() {
    let content = "1234 (test) S 1 1234 1234 0 -1 4194304 100 0 0 0 \
                   xyz 56 0\n";
    let err = parse_stat(content, "/proc/1/stat").unwrap_err();
    assert!(
        matches!(err, SysmonError::InvalidValue { field: "utime", .. }),
        "expected InvalidValue utime, got {err:?}"
    );
}

#[test]
fn stime_is_checked_after_utime() {
    let twelve = "1 (x) S 1 1 1 0 -1 4194304 100 0 0 0 7\n";
    assert!(matches!(
        parse_stat(twelve, "p").unwrap_err(),
        SysmonError::MissingField { field: "stime", .. }
    ));
    let bad = "1 (x) S 1 1 1 0 -1 4194304 100 0 0 0 7 -8\n";
    assert_eq!(
        parse_stat(bad, "p").unwrap_err(),
        SysmonError::InvalidValue {
            path: "p".to_string(),
            field: "stime",
            value: "-8".to_string(),
        }
    );
}

#[test]
fn parse_children_empty_returns_empty_vec() {
    let pids = parse_children("", "/proc/1/task/1/children").unwrap();
    assert!(pids.is_empty());
}

#[test]
fn parse_children_single_pid() {
    let pids = parse_children("24865", "/proc/1/task/1/children").unwrap();
    assert_eq!(pids, vec![24865]);
}

#[test]
fn parse_children_multiple_pids() {
    let pids = parse_children("24865 24866 24867", "/proc/1/task/1/children").unwrap();
    assert_eq!(pids, vec![24865, 24866, 24867]);
}

#[test]
fn parse_children_tolerates_trailing_whitespace() {
    let pids = parse_children("24865 24866 \n", "/proc/1/task/1/children").unwrap();
    assert_eq!(pids, vec![24865, 24866]);
}

#[test]
fn parse_children_errors_on_non_numeric_token() {
    let err = parse_children("24865 abc 24867", "/proc/1/task/1/children").unwrap_err();
    assert!(
        matches!(
            &err,
            SysmonError::InvalidValue { field: "children_pid", value, .. } if value == "abc"
        ),
        "expected InvalidValue children_pid with value=abc, got {err:?}"
    );
}

#[test]
fn numbers_are_read_as_the_standard_library_reads_them() {
    for text in ["0", "+5", "007", "4294967295", "4294967296", "-1", "+", "1a", "\u{0665}"] {
        let expected: Option<Vec<u32>> = text.parse::<u32>().ok().map(|n| vec![n]);
        assert_eq!(parse_children(text, "p").ok(), expected, "{text:?}");
    }
}

#[test]
fn paths_name_the_process() {
    assert_eq!(status_path(42), "/proc/42/status");
    assert_eq!(stat_path(42), "/proc/42/stat");
    assert_eq!(children_path(4294967295), "/proc/4294967295/task/4294967295/children");
}

const STATUS: &str = "VmRSS:\t1024 kB\nThreads:\t2\n";
const STAT: &str = "7 (x) S 1 1 1 0 -1 4194304 100 0 0 0 70 9 0\n";

#[test]
fn two_files_make_a_sample() {
    assert_eq!(
        process_sample(7, 99, STATUS, STAT).unwrap(),
        ResourceSample {
            elapsed_ns: 99,
            rss_bytes: 1024 * 1024,
            cpu_user_jiffies: 70,
            cpu_system_jiffies: 9,
            thread_count: 2,
        }
    );
    assert_eq!(
        process_sample(7, 99, "", "").unwrap_err().message(),
        "missing field VmRSS in /proc/7/status"
    );
    assert_eq!(
        process_sample(7, 99, STATUS, "").unwrap_err().message(),
        "missing field comm_close_paren in /proc/7/stat"
    );
}

#[test]
fn a_failed_reading_leaves_no_sample() {
    let mut timeline = SysmonConfig::new(7).resource_timeline();
    timeline.record(process_sample(7, 1, STATUS, STAT));
    timeline.record(process_sample(7, 2, STATUS, ""));
    timeline.record(Err(SysmonError::Io {
        path: "p".to_string(),
        message: "gone".to_string(),
    }));
    assert_eq!(timeline.len(), 1);
}

#[test]
fn a_children_file_that_does_not_read_lists_none() {
    assert_eq!(listed_children(1, "5 6\n"), vec![5, 6]);
    assert_eq!(listed_children(1, "5 x\n"), Vec::<u32>::new());
}

fn sample(elapsed_ns: u64, rss: u64, user: u64, system: u64, threads: u32) -> ResourceSample {
    ResourceSample {
        elapsed_ns,
        rss_bytes: rss,
        cpu_user_jiffies: user,
        cpu_system_jiffies: system,
        thread_count: threads,
    }
}

#[test]
fn children_are_added_to_the_parent() {
    let parent = sample(10, 100, 1, 2, 3);
    assert_eq!(aggregate(parent, &[]), parent);
    let children = [sample(11, 50, 10, 20, 4), sample(12, 7, 0, 1, 1)];
    assert_eq!(aggregate(parent, &children), sample(10, 157, 11, 23, 8));
}

#[test]
fn sums_are_held_at_the_largest_value() {
    let parent = sample(10, u64::MAX, u64::MAX - 1, 0, u32::MAX);
    let children = [sample(11, 1, 1, 5, 1), sample(12, 1, 1, 6, 1)];
    assert_eq!(aggregate(parent, &children), sample(10, u64::MAX, u64::MAX, 11, u32::MAX));
}

#[test]
fn process_errors_say_what_failed() {
    assert_eq!(
        SysmonError::Io { path: "/proc/1/stat".to_string(), message: "gone".to_string() }.message(),
        "failed to read /proc/1/stat: gone"
    );
    assert_eq!(
        SysmonError::InvalidValue {
            path: "p".to_string(),
            field: "utime",
            value: "x".to_string(),
        }
        .message(),
        "invalid value for field utime in p: x"
    );
    assert_eq!(
        GpuError::NvmlUnavailable { details: "no driver".to_string() }.message(),
        "NVML unavailable: no driver"
    );
    assert_eq!(
        GpuError::DeviceQueryFailed { stage: "device_count", details: "x".to_string() }.message(),
        "NVML query failed during device_count: x"
    );
}

#[test]
fn a_device_sample_is_complete_or_not_taken() {
    let memory = Some(DeviceMemory { used: 5, total: 9 });
    assert_eq!(
        device_sample(1, 2, memory, Some(130), Some(60), Some(250_000)),
        Some(GpuSample {
            elapsed_ns: 1,
            device_index: 2,
            memory_used_bytes: 5,
            memory_total_bytes: 9,
            utilization_percent: 100,
            temperature_celsius: 60,
            power_draw_milliwatts: 250_000,
        })
    );
    assert_eq!(
        device_sample(1, 2, memory, Some(99), Some(60), Some(1)).unwrap().utilization_percent,
        99
    );
    assert_eq!(device_sample(1, 2, None, Some(1), Some(1), Some(1)), None);
    assert_eq!(device_sample(1, 2, memory, None, Some(1), Some(1)), None);
    assert_eq!(device_sample(1, 2, memory, Some(1), None, Some(1)), None);
    assert_eq!(device_sample(1, 2, memory, Some(1), Some(1), None), None);
}
