use fan::system::{
    cpu_times_overflow, cpu_usage, cpu_usage_overflow, disk_share, disk_usage, mem_usage,
    mem_usage_overflow, read_cpu_times,
};

#[test]
fn processor_times_are_summed() {
    let stat = "cpu  10 20 30 400 50 6 7 0 0 0\ncpu0 1 2 3 4 5\nintr 99\n";
    assert!(!cpu_times_overflow(stat));
    assert_eq!(read_cpu_times(stat), Some((523, 450)));
}

#[test]
fn four_counters_are_enough() {
    assert_eq!(read_cpu_times("cpu 1 2 3 4"), Some((10, 4)));
    assert_eq!(read_cpu_times("cpu 1 x 2 3 4 5"), Some((15, 9)));
}

#[test]
fn other_texts_give_no_times() {
    for stat in ["", "\ncpu 1 2 3 4", "cpu0 1 2 3 4", "cpu 1 2 3", "   ", "intr 1 2 3 4"] {
        assert!(!cpu_times_overflow(stat));
        assert_eq!(read_cpu_times(stat), None);
    }
}

#[test]
fn times_too_large_are_told() {
    assert!(cpu_times_overflow("cpu 18446744073709551615 0 0 1"));
    assert!(!cpu_times_overflow("cpu 18446744073709551615 0 0 0"));
    assert_eq!(
        read_cpu_times("cpu 18446744073709551615 0 0 0"),
        Some((u64::MAX, 0))
    );
    assert!(!cpu_times_overflow("cpu0 18446744073709551615 0 0 1"));
}

#[test]
fn use_is_the_busy_part_of_the_time() {
    assert_eq!(cpu_usage(Some((100, 50)), Some((200, 75))), Some((75, 100)));
    assert_eq!(cpu_usage(Some((100, 50)), Some((200, 150))), Some((0, 100)));
    assert_eq!(cpu_usage(Some((100, 50)), Some((200, 40))), Some((100, 100)));
    assert_eq!(cpu_usage(Some((100, 50)), Some((100, 60))), None);
    assert_eq!(cpu_usage(Some((100, 50)), Some((90, 40))), None);
    assert_eq!(cpu_usage(None, Some((90, 40))), None);
    assert_eq!(cpu_usage(Some((90, 40)), None), None);
}

#[test]
fn idle_time_beyond_the_time_is_told() {
    assert!(cpu_usage_overflow(Some((100, 50)), Some((110, 80))));
    assert!(!cpu_usage_overflow(Some((100, 50)), Some((110, 60))));
    assert!(!cpu_usage_overflow(Some((100, 50)), Some((100, 80))));
    assert!(!cpu_usage_overflow(None, Some((100, 80))));
}

#[test]
fn memory_in_use_is_what_is_not_available() {
    let meminfo = "MemTotal:        8000 kB\nMemFree:          100 kB\nMemAvailable:    6000 kB\n";
    assert!(!mem_usage_overflow(meminfo));
    assert_eq!(mem_usage(meminfo), Some((2000, 8000)));
}

#[test]
fn memory_needs_both_figures() {
    for meminfo in [
        "",
        "MemTotal: 8000 kB",
        "MemAvailable: 8000 kB",
        "MemTotal: 0 kB\nMemAvailable: 5 kB",
        "MemTotal: many\nMemAvailable: 5 kB",
        "MemTotal:\nMemAvailable: 5 kB",
        "MemTotal:8000 kB\nMemAvailable: 5 kB",
    ] {
        assert!(!mem_usage_overflow(meminfo));
        assert_eq!(mem_usage(meminfo), None, "{}", meminfo);
    }
}

#[test]
fn the_last_line_of_a_figure_counts() {
    let meminfo = "MemTotal: 1 kB\nMemTotal: 50 kB\nMemAvailable: 20 kB\nOther: 3\n\n";
    assert_eq!(mem_usage(meminfo), Some((30, 50)));
    assert_eq!(mem_usage("MemTotal: 50\nMemAvailable: 20\nMemTotal: x"), None);
}

#[test]
fn more_available_than_there_is_is_told() {
    assert!(mem_usage_overflow("MemTotal: 5 kB\nMemAvailable: 6 kB"));
    assert!(!mem_usage_overflow("MemTotal: 5 kB\nMemAvailable: 5 kB"));
}

const DF: &str = "Filesystem 1024-blocks Used Available Capacity Mounted on\n/dev/root 30000000 9000000 21000000 31% /\n";

#[test]
fn the_share_stands_below_the_heading() {
    assert_eq!(disk_share(DF), Some("31".to_string()));
    assert_eq!(disk_usage(DF.as_bytes()), Some("31".to_string()));
}

#[test]
fn a_report_without_a_share_gives_none() {
    for report in ["", "Filesystem\n", "one\n/dev/root 1 2 3\n", "a b c d 5% /"] {
        assert_eq!(disk_share(report), None);
        assert_eq!(disk_usage(report.as_bytes()), None);
    }
}

#[test]
fn bytes_that_are_no_text_are_replaced() {
    let out = b"heading\n/dev/\xff 1 2 3 \xfe4% /\n";
    assert_eq!(disk_usage(out), Some("\u{fffd}4".to_string()));
    assert_eq!(disk_usage("头\n设备 1 2 3 满% /\n".as_bytes()), Some("满".to_string()));
}
