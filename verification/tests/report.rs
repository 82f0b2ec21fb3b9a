use memwatch::dmi::{MemoryDetails, MemoryDevice};
use memwatch::memory::{MemorySummary, Percent};
use memwatch::processes::ProcessMemory;
use memwatch::render::{format_bytes, format_speed};
use memwatch::report::{
    bandwidth_text, dimms_text, format_text_report, memory_text, process_text, BandwidthTexts,
    ControllerRateTexts, RateTexts,
};

const GIB: u64 = 1024 * 1024 * 1024;

fn percent(value: Option<Percent>) -> String {
    value
        .map(|share| (share.part as f64 / share.whole as f64) * 100.0)
        .map(|value| format!("{value:.1}%"))
        .unwrap_or_else(|| "N/A".to_string())
}

fn rate(value: Option<f64>) -> String {
    value
        .map(|mib_s| {
            if mib_s >= 1024.0 {
                format!("{:.2} GiB/s", mib_s / 1024.0)
            } else {
                format!("{mib_s:.1} MiB/s")
            }
        })
        .unwrap_or_else(|| "N/A".to_string())
}

fn summary() -> MemorySummary {
    MemorySummary {
        total_bytes: 64 * GIB,
        used_bytes: 16 * GIB,
        available_bytes: 48 * GIB,
        free_bytes: 8 * GIB,
        buffers_bytes: GIB,
        cache_bytes: 12 * GIB,
        swap_total_bytes: 8 * GIB,
        swap_used_bytes: 0,
        dirty_bytes: 32 * 1024 * 1024,
        writeback_bytes: 0,
        anon_bytes: 10 * GIB,
        slab_bytes: 2 * GIB,
        used_percent: Some(Percent { part: 16 * GIB, whole: 64 * GIB }),
    }
}

fn device(locator: Option<&str>, size_bytes: u64, memory_type: Option<&str>, configured: Option<u64>, speed: Option<u64>) -> MemoryDevice {
    MemoryDevice {
        locator: locator.map(|s| s.to_string()),
        bank_locator: None,
        size_bytes,
        memory_type: memory_type.map(|s| s.to_string()),
        speed_mts: speed,
        configured_speed_mts: configured,
        manufacturer: None,
    }
}

fn maker(device: &MemoryDevice) -> String {
    device.manufacturer.as_ref().map(|m| format!(" {m}")).unwrap_or_default()
}

fn details() -> MemoryDetails {
    MemoryDetails {
        total_installed_bytes: 64 * GIB,
        configured_speed_mts: Some(5600),
        devices: vec![
            device(Some("DIMM0"), 32 * GIB, Some("DDR5"), Some(5600), None),
            device(Some("Controller0-ChannelB-DIMM0-long"), 32 * GIB, None, None, Some(4800)),
            device(None, 512, Some("LPDDR5X"), None, None),
            MemoryDevice { manufacturer: Some("Kingston".to_string()), ..device(Some("DIMM3"), GIB, Some("DDR4"), Some(3200), None) },
        ],
    }
}

fn process(pid: u32, name: &str, rss_bytes: u64, total: u64) -> ProcessMemory {
    let mut p = ProcessMemory::new(pid, name.to_string(), Some(1000), rss_bytes);
    p.rss_percent = if total > 0 { Some(Percent { part: rss_bytes, whole: total }) } else { None };
    p
}

fn processes() -> Vec<ProcessMemory> {
    vec![
        process(42, "worker", 2 * GIB, 64 * GIB),
        process(1234567, "a-process-with-a-rather-long-name", 123_456_789, 64 * GIB),
        process(7, "äöü", 0, 0),
    ]
}

fn expected_memory_text(m: &MemorySummary) -> String {
    let mut text = String::new();
    text.push_str(&format!("used:       {:>10}  {}\n", format_bytes(m.used_bytes), percent(m.used_percent)));
    text.push_str(&format!("available:  {:>10}\n", format_bytes(m.available_bytes)));
    text.push_str(&format!("total:      {:>10}\n", format_bytes(m.total_bytes)));
    text.push_str(&format!("free:       {:>10}\n", format_bytes(m.free_bytes)));
    text.push_str(&format!("buf/cache:  {:>10} / {}\n", format_bytes(m.buffers_bytes), format_bytes(m.cache_bytes)));
    text.push_str(&format!("swap:       {:>10} / {}\n", format_bytes(m.swap_used_bytes), format_bytes(m.swap_total_bytes)));
    text.push_str(&format!("dirty/wb:   {:>10} / {}\n", format_bytes(m.dirty_bytes), format_bytes(m.writeback_bytes)));
    text
}

fn expected_dimms_text(d: &MemoryDetails) -> String {
    let mut text = String::new();
    text.push_str(&format!("installed: {}\n", format_bytes(d.total_installed_bytes)));
    text.push_str(&format!("speed:     {}\n", format_speed(d.configured_speed_mts)));
    for device in &d.devices {
        text.push_str(&format!(
            "{:<18} {:>8} {:<6} {}{}\n",
            device.locator.as_deref().unwrap_or("unknown"),
            format_bytes(device.size_bytes),
            device.memory_type.as_deref().unwrap_or("unknown"),
            format_speed(device.configured_speed_mts.or(device.speed_mts)),
            maker(device)
        ));
    }
    text
}

fn expected_process_text(ps: &[ProcessMemory]) -> String {
    let mut text = String::new();
    text.push_str(&format!("{:>6} {:<22} {:>10} {:>7}\n", "pid", "name", "rss", "mem"));
    for p in ps {
        let name: String = p.name.chars().take(22).collect();
        text.push_str(&format!(
            "{:>6} {:<22} {:>10} {:>7}\n",
            p.pid,
            name,
            format_bytes(p.rss_bytes),
            percent(p.rss_percent)
        ));
    }
    text
}

fn rates(read: f64, write: f64, total: f64) -> RateTexts {
    RateTexts { read: rate(Some(read)), write: rate(Some(write)), total: rate(Some(total)) }
}

fn texts() -> BandwidthTexts {
    BandwidthTexts {
        overall: rates(1000.0, 500.0, 1500.0),
        controllers: vec![
            ControllerRateTexts {
                controller: "uncore_imc_free_running_0".to_string(),
                rates: rates(1000.0, 500.0, 1500.0),
            },
            ControllerRateTexts {
                controller: "uncore_imc_free_running_1_with_a_long_name".to_string(),
                rates: RateTexts { read: rate(None), write: rate(Some(2.25)), total: rate(Some(4096.0)) },
            },
        ],
    }
}

fn expected_panel(b: &Option<BandwidthTexts>) -> String {
    let mut text = String::new();
    if let Some(b) = b {
        text.push_str(&format!("read:  {}\n", b.overall.read));
        text.push_str(&format!("write: {}\n", b.overall.write));
        text.push_str(&format!("total: {}\n", b.overall.total));
        for c in &b.controllers {
            text.push_str(&format!("{:<26} r={} w={} t={}\n", c.controller, c.rates.read, c.rates.write, c.rates.total));
        }
    } else {
        text.push_str("read:  N/A\nwrite: N/A\ntotal: N/A\n");
    }
    text
}

fn expected_section(b: &Option<BandwidthTexts>) -> String {
    let mut text = String::new();
    if let Some(b) = b {
        text.push_str(&format!("  read: {}, write: {}, total: {}\n", b.overall.read, b.overall.write, b.overall.total));
        for c in &b.controllers {
            text.push_str(&format!("  {}: read={}, write={}, total={}\n", c.controller, c.rates.read, c.rates.write, c.rates.total));
        }
    } else {
        text.push_str("  read: N/A, write: N/A, total: N/A\n");
    }
    text
}

#[test]
fn bandwidth_texts_fill_the_panel_and_the_section() {
    for b in [Some(texts()), None] {
        assert_eq!(bandwidth_text(&b), expected_panel(&b));
        let report = format_text_report(&summary(), &details(), &b, &vec![], &vec![]);
        assert!(report.contains(&format!("bandwidth:\n{}top_rss:\n", expected_section(&b))));
    }
    assert!(bandwidth_text(&Some(texts())).contains("\nuncore_imc_free_running_0  r=1000.0 MiB/s w=500.0 MiB/s t=1.46 GiB/s\n"));
}

fn expected_report(m: &MemorySummary, d: &MemoryDetails, bandwidth: &str, ps: &[ProcessMemory], diagnostics: &[String]) -> String {
    let mut report = String::new();
    report.push_str(&format!("memory:\n"));
    report.push_str(&format!("  total: {}\n", format_bytes(m.total_bytes)));
    report.push_str(&format!("  used: {} ({})\n", format_bytes(m.used_bytes), percent(m.used_percent)));
    report.push_str(&format!("  available: {}\n", format_bytes(m.available_bytes)));
    report.push_str(&format!("  free: {}\n", format_bytes(m.free_bytes)));
    report.push_str(&format!("  buffers_cache: {} buffers, {} cache\n", format_bytes(m.buffers_bytes), format_bytes(m.cache_bytes)));
    report.push_str(&format!("  swap: {} used / {} total\n", format_bytes(m.swap_used_bytes), format_bytes(m.swap_total_bytes)));
    report.push_str(&format!("  dirty_writeback: {} dirty, {} writeback\n", format_bytes(m.dirty_bytes), format_bytes(m.writeback_bytes)));
    report.push_str(&format!("dimms:\n"));
    report.push_str(&format!("  installed: {}\n", format_bytes(d.total_installed_bytes)));
    report.push_str(&format!("  speed: {}\n", format_speed(d.configured_speed_mts)));
    for device in &d.devices {
        report.push_str(&format!(
            "  {}: {} {} {}{}\n",
            device.locator.as_deref().unwrap_or("unknown"),
            format_bytes(device.size_bytes),
            device.memory_type.as_deref().unwrap_or("unknown"),
            format_speed(device.configured_speed_mts.or(device.speed_mts)),
            maker(device)
        ));
    }
    report.push_str(&format!("bandwidth:\n"));
    report.push_str(bandwidth);
    report.push_str(&format!("top_rss:\n"));
    for p in ps {
        report.push_str(&format!("  {:>6} {:<24} {:>10} {:>7}\n", p.pid, p.name, format_bytes(p.rss_bytes), percent(p.rss_percent)));
    }
    if !diagnostics.is_empty() {
        report.push_str(&format!("diagnostics:\n"));
        for diagnostic in diagnostics {
            report.push_str(&format!("  {diagnostic}\n"));
        }
    }
    report
}

#[test]
fn text_report_contains_all_major_sections() {
    let memory = summary();
    let dmi = MemoryDetails {
        total_installed_bytes: 64 * GIB,
        configured_speed_mts: Some(5600),
        devices: vec![MemoryDevice {
            locator: Some("DIMM0".to_string()),
            size_bytes: 32 * GIB,
            memory_type: Some("DDR5".to_string()),
            configured_speed_mts: Some(5600),
            ..MemoryDevice::default()
        }],
    };
    let processes = vec![ProcessMemory {
        pid: 42,
        name: "worker".to_string(),
        uid: Some(1000),
        rss_bytes: 2 * GIB,
        rss_percent: Some(Percent { part: 2 * GIB, whole: 64 * GIB }),
    }];
    let diagnostics = vec!["perf unavailable".to_string()];

    let report = format_text_report(&memory, &dmi, &Some(texts()), &processes, &diagnostics);

    assert!(report.contains("memory:"));
    assert!(report.contains("dimms:"));
    assert!(report.contains("bandwidth:"));
    assert!(report.contains("top_rss:"));
    assert!(report.contains("diagnostics:"));
    assert!(report.contains("worker"));
}

#[test]
fn text_report_lines() {
    let memory = summary();
    let dmi = details();
    let ps = processes();
    let diagnostics = vec!["perf unavailable".to_string(), "dmidecode unavailable".to_string()];
    let bandwidth = expected_section(&Some(texts()));

    let report = format_text_report(&memory, &dmi, &Some(texts()), &ps, &diagnostics);
    assert_eq!(report, expected_report(&memory, &dmi, &bandwidth, &ps, &diagnostics));
    assert!(report.starts_with("memory:\n  total: 64.0 GiB\n  used: 16.0 GiB (25.0%)\n"));
    assert!(report.contains("  speed: 5600 MT/s\n  DIMM0: 32.0 GiB DDR5 5600 MT/s\n"));
    assert!(report.contains("  unknown: 512 B LPDDR5X N/A\n"));
    assert!(report.contains("  DIMM3: 1.0 GiB DDR4 3200 MT/s Kingston\n"));
    assert!(report.contains("top_rss:\n      42 worker                      2.0 GiB    3.1%\n"));
    assert!(report.ends_with("diagnostics:\n  perf unavailable\n  dmidecode unavailable\n"));

    let quiet = format_text_report(&memory, &dmi, &None, &vec![], &vec![]);
    assert!(quiet.ends_with("bandwidth:\n  read: N/A, write: N/A, total: N/A\ntop_rss:\n"));
    assert!(!quiet.contains("diagnostics:"));
}

#[test]
fn panels_match_column_formatting() {
    let memory = summary();
    assert_eq!(memory_text(&memory), expected_memory_text(&memory));
    assert!(memory_text(&memory).starts_with("used:         16.0 GiB  25.0%\n"));
    assert!(memory_text(&memory).contains("\nbuf/cache:     1.0 GiB / 12.0 GiB\n"));

    let empty = MemorySummary {
        total_bytes: 0,
        used_bytes: 0,
        available_bytes: 0,
        free_bytes: 0,
        buffers_bytes: 0,
        cache_bytes: 0,
        swap_total_bytes: 0,
        swap_used_bytes: 0,
        dirty_bytes: 0,
        writeback_bytes: 0,
        anon_bytes: 0,
        slab_bytes: 0,
        used_percent: None,
    };
    assert_eq!(memory_text(&empty), expected_memory_text(&empty));
    assert!(memory_text(&empty).starts_with("used:              0 B  N/A\n"));

    let dmi = details();
    assert_eq!(dimms_text(&dmi), expected_dimms_text(&dmi));
    assert!(dimms_text(&dmi).contains("\nDIMM0              32.0 GiB DDR5   5600 MT/s\n"));
    assert!(dimms_text(&dmi).contains("\nDIMM3               1.0 GiB DDR4   3200 MT/s Kingston\n"));

    let ps = processes();
    assert_eq!(process_text(&ps), expected_process_text(&ps));
    assert!(process_text(&ps).starts_with("   pid name                          rss     mem\n"));
    assert!(process_text(&ps).contains("\n1234567 a-process-with-a-rathe  117.7 MiB    0.2%\n"));
    assert_eq!(process_text(&vec![]), expected_process_text(&[]));
}
