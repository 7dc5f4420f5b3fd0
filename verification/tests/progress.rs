//! Progress bars and sizes for people.

use thor::progress::{human_bytes, is_critical_partition, progress_bar};

#[test]
fn progress_bar_empty_is_zero_percent() {
    assert_eq!(progress_bar(0, 100, 10), "[----------] 0%");
}

#[test]
fn progress_bar_partial_fills_proportionally() {
    assert_eq!(progress_bar(40, 100, 10), "[####------] 40%");
}

#[test]
fn progress_bar_full_is_hundred_percent() {
    assert_eq!(progress_bar(100, 100, 10), "[##########] 100%");
}

#[test]
fn progress_bar_overshoot_clamps_to_full() {
    // sent past total (padding on the last sequence) must not draw past the end.
    assert_eq!(progress_bar(150, 100, 10), "[##########] 100%");
}

#[test]
fn progress_bar_zero_total_is_full() {
    // A zero-length flash has nothing to do — show it done, not a divide-by-zero.
    assert_eq!(progress_bar(0, 0, 10), "[##########] 100%");
}

#[test]
fn critical_partitions_are_flagged() {
    for name in ["BOOTLOADER", "SBL1", "xbl", "ABOOT", "PARAM", "PIT"] {
        assert!(is_critical_partition(name), "{name} should be critical");
    }
}

#[test]
fn ordinary_partitions_are_not_flagged() {
    for name in ["BOOT", "RECOVERY", "SYSTEM", "USERDATA", "CACHE"] {
        assert!(
            !is_critical_partition(name),
            "{name} should not be critical"
        );
    }
}

#[test]
fn human_bytes_scales_units() {
    assert_eq!(human_bytes(512), "512 B");
    assert_eq!(human_bytes(1024), "1.0 KiB");
    assert_eq!(human_bytes(1536), "1.5 KiB");
    assert_eq!(human_bytes(1_048_576), "1.0 MiB");
    assert_eq!(human_bytes(1_610_612_736), "1.5 GiB");
}

/// The bar that double-precision arithmetic gives.
fn bar_in_floats(sent: i64, total: i64, width: usize) -> String {
    let frac = if total <= 0 {
        1.0
    } else {
        (sent.clamp(0, total) as f64) / (total as f64)
    };
    let filled = ((frac * width as f64).round() as usize).min(width);
    let pct = (frac * 100.0).round() as i64;
    format!("[{}{}] {pct}%", "#".repeat(filled), "-".repeat(width - filled))
}

/// The size that double-precision arithmetic gives.
fn size_in_floats(n: i64) -> String {
    let kib = 1024.0;
    let f = n as f64;
    if f < kib {
        format!("{n} B")
    } else if f < kib * kib {
        format!("{:.1} KiB", f / kib)
    } else if f < kib * kib * kib {
        format!("{:.1} MiB", f / (kib * kib))
    } else {
        format!("{:.1} GiB", f / (kib * kib * kib))
    }
}

/// Numbers of all magnitudes, in no pattern.
fn numbers(count: usize) -> Vec<i64> {
    let mut x: u64 = 0x9e37_79b9_7f4a_7c15;
    let mut all = vec![0, 1, 2, 3, 99, 100, 101, 1023, 1024, 1025, i64::MAX, i64::MAX - 1, -1, i64::MIN];
    for i in 0..count {
        x ^= x << 13;
        x ^= x >> 7;
        x ^= x << 17;
        all.push((x >> (i % 64)) as i64);
    }
    all
}

#[test]
fn bars_are_rounded_as_doubles_are() {
    for total in 1..60i64 {
        for sent in 0..=total {
            for width in [0usize, 1, 7, 10, 30] {
                assert_eq!(progress_bar(sent, total, width), bar_in_floats(sent, total, width));
            }
        }
    }
    let all = numbers(400);
    for &total in &all {
        for &sent in all.iter().step_by(7) {
            assert_eq!(progress_bar(sent, total, 30), bar_in_floats(sent, total, 30));
        }
    }
}

#[test]
fn sizes_are_rounded_as_doubles_are() {
    for n in numbers(20_000) {
        assert_eq!(human_bytes(n), size_in_floats(n), "{n}");
    }
    for k in 0..4000i64 {
        let n = 1024 * k + 52 * (k % 20);
        assert_eq!(human_bytes(n), size_in_floats(n), "{n}");
    }
    for n in [(1i64 << 20) - 1, (1 << 30) - 1, (1 << 30) - 53_687_091, (1 << 53) + 1] {
        assert_eq!(human_bytes(n), size_in_floats(n), "{n}");
    }
}

#[test]
fn a_finished_bar_is_full_and_a_started_one_empty() {
    for total in [1i64, 3, 1 << 40, i64::MAX] {
        assert_eq!(progress_bar(total, total, 4), "[####] 100%");
        assert_eq!(progress_bar(0, total, 4), "[----] 0%");
        assert_eq!(progress_bar(-5, total, 4), "[----] 0%");
    }
}

#[test]
fn partition_tables_and_efs_are_critical() {
    assert!(is_critical_partition("gpt"));
    assert!(is_critical_partition("Efs"));
    assert!(!is_critical_partition(""));
}

#[test]
fn percentages_stay_within_a_hundred() {
    let totals = [1, 3, 7, 200, 1 << 53, (1 << 53) + 1, i64::MAX - 1, i64::MAX];
    for total in totals {
        for sent in [0, 1, total / 3, total / 2, total - total / 1000, total - 1, total] {
            let bar = progress_bar(sent, total, 10);
            let digits: String = bar.chars().filter(|c| c.is_ascii_digit()).collect();
            assert!(digits.parse::<u32>().unwrap() <= 100, "{bar}");
        }
    }
    assert_eq!(progress_bar(i64::MAX - 1, i64::MAX, 4), "[####] 100%");
}
