use memwatch::memory::{parse_meminfo, summarize, MemoryInfo, Percent};

const MEMINFO: &str = "\
MemTotal:       1000000 kB
MemFree:         100000 kB
MemAvailable:    700000 kB
Buffers:          20000 kB
Cached:          300000 kB
SwapCached:           0 kB
Active:          200000 kB
Inactive:        300000 kB
Shmem:            50000 kB
SwapTotal:       200000 kB
SwapFree:        150000 kB
Dirty:             4000 kB
Writeback:         1000 kB
AnonPages:       250000 kB
Slab:             80000 kB
SReclaimable:     30000 kB
";

fn as_percent(p: Option<Percent>) -> Option<f64> {
    p.map(|p| (p.part as f64 / p.whole as f64) * 100.0)
}

#[test]
fn parses_meminfo_values_as_bytes() {
    let info = parse_meminfo(MEMINFO);

    assert_eq!(info.total_bytes, 1_000_000 * 1024);
    assert_eq!(info.free_bytes, 100_000 * 1024);
    assert_eq!(info.available_bytes, 700_000 * 1024);
    assert_eq!(info.buffers_bytes, 20_000 * 1024);
    assert_eq!(info.cached_bytes, 300_000 * 1024);
    assert_eq!(info.sreclaimable_bytes, 30_000 * 1024);
    assert_eq!(info.shmem_bytes, 50_000 * 1024);
    assert_eq!(info.swap_total_bytes, 200_000 * 1024);
    assert_eq!(info.swap_free_bytes, 150_000 * 1024);
    assert_eq!(info.dirty_bytes, 4_000 * 1024);
    assert_eq!(info.writeback_bytes, 1_000 * 1024);
    assert_eq!(info.anon_bytes, 250_000 * 1024);
    assert_eq!(info.slab_bytes, 80_000 * 1024);
}

#[test]
fn summarizes_memory_usage() {
    let summary = summarize(&parse_meminfo(MEMINFO));

    assert_eq!(summary.used_bytes, 300_000 * 1024);
    assert_eq!(summary.cache_bytes, 280_000 * 1024);
    assert_eq!(summary.swap_used_bytes, 50_000 * 1024);
    assert_eq!(as_percent(summary.used_percent), Some(30.0));
}

#[test]
fn meminfo_later_lines_override_earlier_ones() {
    let info = parse_meminfo("MemTotal: 10 kB\nMemTotal: 20 kB\n");
    assert_eq!(info.total_bytes, 20 * 1024);
}

#[test]
fn meminfo_skips_lines_without_colon_or_number() {
    let info = parse_meminfo("garbage line\nMemFree: lots kB\nMemTotal:\nBuffers: 7\n");
    assert_eq!(info.free_bytes, 0);
    assert_eq!(info.total_bytes, 0);
    assert_eq!(info.buffers_bytes, 7 * 1024);
}

#[test]
fn meminfo_key_is_not_trimmed() {
    let info = parse_meminfo(" MemTotal: 5 kB\n");
    assert_eq!(info.total_bytes, 0);
}

#[test]
fn meminfo_handles_crlf_and_missing_final_newline() {
    let info = parse_meminfo("MemTotal: 3 kB\r\nMemFree: 2 kB");
    assert_eq!(info.total_bytes, 3 * 1024);
    assert_eq!(info.free_bytes, 2 * 1024);
}

#[test]
fn meminfo_value_saturates() {
    let info = parse_meminfo("MemTotal: 18446744073709551615 kB\n");
    assert_eq!(info.total_bytes, u64::MAX);
}

#[test]
fn meminfo_rejects_overflowing_numbers() {
    let info = parse_meminfo("MemTotal: 18446744073709551616 kB\nMemFree: +4 kB\n");
    assert_eq!(info.total_bytes, 0);
    assert_eq!(info.free_bytes, 4 * 1024);
}

#[test]
fn empty_meminfo_is_all_zero() {
    let info = parse_meminfo("");
    assert_eq!(info, MemoryInfo::default());
    let summary = summarize(&info);
    assert_eq!(summary.used_percent, None);
    assert_eq!(summary.used_bytes, 0);
}

#[test]
fn summary_saturates_instead_of_wrapping() {
    let mut info = MemoryInfo::default();
    info.total_bytes = 10;
    info.available_bytes = 20;
    info.cached_bytes = u64::MAX;
    info.sreclaimable_bytes = 5;
    info.shmem_bytes = 1;
    info.swap_total_bytes = 1;
    info.swap_free_bytes = 2;
    let summary = summarize(&info);
    assert_eq!(summary.used_bytes, 0);
    assert_eq!(summary.cache_bytes, u64::MAX - 1);
    assert_eq!(summary.swap_used_bytes, 0);
    assert_eq!(summary.used_percent, Some(Percent { part: 0, whole: 10 }));
}

#[test]
fn meminfo_text_read_after_another() {
    let a = "MemTotal: 100 kB\nMemFree: 10 kB\nDirty: 3 kB\n";
    let b = "MemFree: 20 kB\nDirty: x kB\nSlab: 4 kB\n";
    let joined = parse_meminfo(&format!("{a}{b}"));
    let (first, second) = (parse_meminfo(a), parse_meminfo(b));
    assert_eq!(joined.total_bytes, first.total_bytes);
    assert_eq!(joined.free_bytes, second.free_bytes);
    assert_eq!(joined.dirty_bytes, first.dirty_bytes);
    assert_eq!(joined.slab_bytes, second.slab_bytes);
    assert_eq!(parse_meminfo(&format!("{MEMINFO}{MEMINFO}")), parse_meminfo(MEMINFO));
}
