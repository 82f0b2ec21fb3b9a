use memwatch::memory::Percent;
use memwatch::render::{format_bytes, format_percent, format_speed, truncate};
use memwatch::snapshot::gather_diagnostics;
use memwatch::text::is_whitespace;

fn float_format(bytes: u64) -> String {
    const KIB: f64 = 1024.0;
    const MIB: f64 = KIB * 1024.0;
    const GIB: f64 = MIB * 1024.0;
    let bytes = bytes as f64;
    if bytes >= GIB {
        format!("{:.1} GiB", bytes / GIB)
    } else if bytes >= MIB {
        format!("{:.1} MiB", bytes / MIB)
    } else if bytes >= KIB {
        format!("{:.1} KiB", bytes / KIB)
    } else {
        format!("{bytes:.0} B")
    }
}

#[test]
fn formats_bytes_with_binary_units() {
    assert_eq!(format_bytes(0), "0 B");
    assert_eq!(format_bytes(1023), "1023 B");
    assert_eq!(format_bytes(1024), "1.0 KiB");
    assert_eq!(format_bytes(1536), "1.5 KiB");
    assert_eq!(format_bytes(64 * 1024 * 1024 * 1024), "64.0 GiB");
    assert_eq!(format_bytes(32 * 1024 * 1024), "32.0 MiB");
}

#[test]
fn byte_formatting_matches_float_formatting() {
    let mut samples: Vec<u64> = vec![
        0, 1, 9, 10, 1023, 1024, 1025, 1075, 1076, 1126, 1127, 10 * 1024 + 51, 10 * 1024 + 52,
        1_048_575, 1_048_576, 1_153_433, 1_153_434, 1_342_177_280, 1_395_864_371,
        (1 << 53) - 1, 1 << 53, (1 << 53) + 1, (1 << 53) + 3, u64::MAX, u64::MAX - 1,
        u64::MAX / 3, 0x0123_4567_89ab_cdef,
    ];
    // Exact ties at the tenths digit for each unit.
    for shift in [10u32, 20, 30] {
        for k in [1u64, 3, 5, 7, 25, 35, 45] {
            samples.push(k << (shift - 1));
            samples.push(((k * 2 + 1) << shift) / 20);
        }
    }
    let mut x: u64 = 0x9e37_79b9_7f4a_7c15;
    for _ in 0..20000 {
        x ^= x << 13;
        x ^= x >> 7;
        x ^= x << 17;
        samples.push(x >> (x % 64));
    }
    for b in samples {
        assert_eq!(format_bytes(b), float_format(b), "bytes = {b}");
    }
}

#[test]
fn formats_speeds() {
    assert_eq!(format_speed(Some(5600)), "5600 MT/s");
    assert_eq!(format_speed(Some(0)), "0 MT/s");
    assert_eq!(format_speed(None), "N/A");
}

#[test]
fn truncates_by_characters() {
    assert_eq!(truncate("worker", 22), "worker");
    assert_eq!(truncate("abcdef", 3), "abc");
    assert_eq!(truncate("äöü", 2), "äö");
}

#[test]
fn whitespace_matches_char_is_whitespace() {
    for u in 0u32..0x3100 {
        if let Some(c) = char::from_u32(u) {
            assert_eq!(is_whitespace(c), c.is_whitespace(), "U+{u:04X}");
        }
    }
}

#[test]
fn diagnostics_come_in_source_order() {
    let notes = gather_diagnostics(
        0,
        "/proc/meminfo",
        Some("dmidecode unavailable: x".to_string()),
        None,
        Some("failed to read imc0 data_read: y".to_string()),
    );
    assert_eq!(
        notes,
        vec![
            "meminfo unavailable or unreadable at /proc/meminfo".to_string(),
            "dmidecode unavailable: x".to_string(),
            "failed to read imc0 data_read: y".to_string(),
        ]
    );
    assert!(gather_diagnostics(1, "/proc/meminfo", None, None, None).is_empty());
}

fn float_percent(part: u64, whole: u64) -> String {
    format!("{:.1}%", (part as f64 / whole as f64) * 100.0)
}

#[test]
fn formats_percentages() {
    assert_eq!(format_percent(None), "N/A");
    assert_eq!(format_percent(Some(Percent { part: 300, whole: 1000 })), "30.0%");
    assert_eq!(format_percent(Some(Percent { part: 0, whole: 1000 })), "0.0%");
    assert_eq!(format_percent(Some(Percent { part: 1, whole: 3 })), "33.3%");
    assert_eq!(format_percent(Some(Percent { part: 2, whole: 3 })), "66.7%");
    assert_eq!(format_percent(Some(Percent { part: 1000, whole: 1000 })), "100.0%");
    assert_eq!(format_percent(Some(Percent { part: 0, whole: 0 })), "NaN%");
    assert_eq!(format_percent(Some(Percent { part: 5, whole: 0 })), "inf%");
}

#[test]
fn percent_formatting_matches_float_formatting() {
    let mut samples: Vec<(u64, u64)> = vec![
        (1, 1),
        (1, 2),
        (1, 8),
        (1, 16),
        (1, 2000),
        (3, 2000),
        (5, 2000),
        (1, 4000),
        (1, u64::MAX),
        (u64::MAX, 1),
        (u64::MAX, u64::MAX),
        (u64::MAX - 1, u64::MAX),
        ((1 << 53) + 1, (1 << 53) + 3),
        (300_000 * 1024, 1_000_000 * 1024),
        (100_000 * 1024, 1_000_000 * 1024),
        (7, 9),
        (123_456_789, 987_654_321),
    ];
    let mut x: u64 = 0x2545_f491_4f6c_dd1d;
    for _ in 0..50000 {
        x ^= x << 13;
        x ^= x >> 7;
        x ^= x << 17;
        let part = x >> (x % 64);
        x ^= x << 13;
        x ^= x >> 7;
        x ^= x << 17;
        let whole = (x >> (x % 64)).max(1);
        samples.push((part, whole));
        samples.push((part % (whole + 1), whole));
        samples.push((part % 2001, 2000));
    }
    for (part, whole) in samples {
        assert_eq!(
            format_percent(Some(Percent { part, whole })),
            float_percent(part, whole),
            "part = {part}, whole = {whole}"
        );
    }
}
