//! The one-shot text report and the text of the interactive view's panels:
//! fixed labels, values padded to columns as `{:>width}` and `{:<width}` pad
//! them (counting characters), one line per value, device or process.
use vstd::prelude::*;

use crate::dmi::{device_speed, devices_view, DeviceView, MemoryDetails, MemoryDevice};
use crate::memory::MemorySummary;
use crate::processes::{processes_view, ProcessMemory, ProcessView};
use crate::render::{
    bytes_text, decimal, decimal_chars, format_bytes, format_percent, format_speed, percent_text,
    speed_text, truncate,
};
use crate::snapshot::texts_view;
use crate::text::{chars_of, string_of};

verus! {

/// `n` spaces.
pub open spec fn spaces(n: nat) -> Seq<char> {
    Seq::new(n, |i: int| ' ')
}

/// `{:>width}`: `s` after as many spaces as it takes to fill `width`
/// characters.
pub open spec fn pad_left(s: Seq<char>, width: nat) -> Seq<char> {
    if s.len() < width {
        spaces((width - s.len()) as nat) + s
    } else {
        s
    }
}

/// `{:<width}`: `s` before as many spaces as it takes to fill `width`
/// characters.
pub open spec fn pad_right(s: Seq<char>, width: nat) -> Seq<char> {
    if s.len() < width {
        s + spaces((width - s.len()) as nat)
    } else {
        s
    }
}

/// The memory panel of the interactive view: used (with its share), available,
/// total, free, buffers/cache, swap and dirty/writeback, the first value of each line
/// right-aligned in ten columns.
pub open spec fn memory_panel(m: MemorySummary) -> Seq<char> {
    "used:       "@ + pad_left(bytes_text(m.used_bytes), 10) + "  "@ + percent_text(m.used_percent)
        + "\n"@ + "available:  "@ + pad_left(bytes_text(m.available_bytes), 10) + "\n"@
        + "total:      "@ + pad_left(bytes_text(m.total_bytes), 10) + "\n"@ + "free:       "@
        + pad_left(bytes_text(m.free_bytes), 10) + "\n"@ + "buf/cache:  "@ + pad_left(
        bytes_text(m.buffers_bytes),
        10,
    ) + " / "@ + bytes_text(m.cache_bytes) + "\n"@ + "swap:       "@ + pad_left(bytes_text(m.swap_used_bytes), 10) + " / "@
        + bytes_text(m.swap_total_bytes) + "\n"@ + "dirty/wb:   "@ + pad_left(
        bytes_text(m.dirty_bytes),
        10,
    ) + " / "@ + bytes_text(m.writeback_bytes) + "\n"@
}

/// Appends the characters of `s`.
fn push_chars(out: &mut Vec<char>, s: &Vec<char>)
    ensures
        final(out)@ == old(out)@ + s@,
{
    let mut i: usize = 0;
    while i < s.len()
        invariant
            i <= s.len(),
            out@ == old(out)@ + s@.take(i as int),
        decreases s.len() - i,
    {
        out.push(s[i]);
        assert(s@.take(i + 1) == s@.take(i as int).push(s@[i as int]));
        i += 1;
    }
    assert(s@.take(s.len() as int) == s@);
}

/// Appends `s`.
fn push_text(out: &mut Vec<char>, s: &str)
    ensures
        final(out)@ == old(out)@ + s@,
{
    let c = chars_of(s);
    push_chars(out, &c);
}

/// Appends `n` spaces.
fn push_spaces(out: &mut Vec<char>, n: usize)
    ensures
        final(out)@ == old(out)@ + spaces(n as nat),
{
    let mut i: usize = 0;
    while i < n
        invariant
            i <= n,
            out@ == old(out)@ + spaces(i as nat),
        decreases n - i,
    {
        out.push(' ');
        assert(spaces((i + 1) as nat) == spaces(i as nat).push(' '));
        i += 1;
    }
}

/// Appends `s` right-aligned in `width` characters.
fn push_left(out: &mut Vec<char>, s: &str, width: usize)
    ensures
        final(out)@ == old(out)@ + pad_left(s@, width as nat),
{
    let c = chars_of(s);
    if c.len() < width {
        push_spaces(out, width - c.len());
        push_chars(out, &c);
        assert(out@ == old(out)@ + (spaces((width - c.len()) as nat) + s@));
    } else {
        push_chars(out, &c);
    }
}

/// Appends `s` left-aligned in `width` characters.
fn push_right(out: &mut Vec<char>, s: &str, width: usize)
    ensures
        final(out)@ == old(out)@ + pad_right(s@, width as nat),
{
    let c = chars_of(s);
    push_chars(out, &c);
    if c.len() < width {
        push_spaces(out, width - c.len());
        assert(out@ == old(out)@ + (s@ + spaces((width - c.len()) as nat)));
    }
}

/// The memory panel of the interactive view (see `memory_panel`).
pub fn memory_text(memory: &MemorySummary) -> (text: String)
    ensures
        text@ == memory_panel(*memory),
{
    let mut out = chars_of("used:       ");
    push_left(&mut out, format_bytes(memory.used_bytes).as_str(), 10);
    push_text(&mut out, "  ");
    push_text(&mut out, format_percent(memory.used_percent).as_str());
    push_text(&mut out, "\n");
    push_text(&mut out, "available:  ");
    push_left(&mut out, format_bytes(memory.available_bytes).as_str(), 10);
    push_text(&mut out, "\n");
    push_text(&mut out, "total:      ");
    push_left(&mut out, format_bytes(memory.total_bytes).as_str(), 10);
    push_text(&mut out, "\n");
    push_text(&mut out, "free:       ");
    push_left(&mut out, format_bytes(memory.free_bytes).as_str(), 10);
    push_text(&mut out, "\n");
    push_text(&mut out, "buf/cache:  ");
    push_left(&mut out, format_bytes(memory.buffers_bytes).as_str(), 10);
    push_text(&mut out, " / ");
    push_text(&mut out, format_bytes(memory.cache_bytes).as_str());
    push_text(&mut out, "\n");
    push_text(&mut out, "swap:       ");
    push_left(&mut out, format_bytes(memory.swap_used_bytes).as_str(), 10);
    push_text(&mut out, " / ");
    push_text(&mut out, format_bytes(memory.swap_total_bytes).as_str());
    push_text(&mut out, "\n");
    push_text(&mut out, "dirty/wb:   ");
    push_left(&mut out, format_bytes(memory.dirty_bytes).as_str(), 10);
    push_text(&mut out, " / ");
    push_text(&mut out, format_bytes(memory.writeback_bytes).as_str());
    push_text(&mut out, "\n");
    string_of(out.as_slice())
}

/// The lines that `row` gives for each of `xs`, in order.
pub open spec fn rows_of<A>(xs: Seq<A>, row: spec_fn(A) -> Seq<char>) -> Seq<char>
    decreases xs.len(),
{
    if xs.len() == 0 {
        Seq::empty()
    } else {
        rows_of(xs.drop_last(), row) + row(xs.last())
    }
}

/// A label that may be missing, `unknown` when it is.
pub open spec fn or_unknown(label: Option<Seq<char>>) -> Seq<char> {
    match label {
        Some(s) => s,
        None => "unknown"@,
    }
}

/// A device's manufacturer after a space, or nothing when it is not known.
pub open spec fn maker_text(manufacturer: Option<Seq<char>>) -> Seq<char> {
    match manufacturer {
        Some(m) => " "@ + m,
        None => Seq::empty(),
    }
}

/// A device in the DIMM panel: locator (18 columns), size (8, right-aligned),
/// type (6), speed (configured, else rated) and manufacturer where known.
pub open spec fn device_panel_row(d: DeviceView) -> Seq<char> {
    pad_right(or_unknown(d.locator), 18) + " "@ + pad_left(bytes_text(d.size_bytes), 8) + " "@
        + pad_right(or_unknown(d.memory_type), 6) + " "@ + speed_text(device_speed(d))
        + maker_text(d.manufacturer) + "\n"@
}

/// The DIMM panel of the interactive view: the installed total, the speed,
/// and a line per device.
pub open spec fn dimms_panel(installed: u64, speed: Option<u64>, devices: Seq<DeviceView>) -> Seq<
    char,
> {
    "installed: "@ + bytes_text(installed) + "\n"@ + "speed:     "@ + speed_text(speed) + "\n"@
        + rows_of(devices, |d: DeviceView| device_panel_row(d))
}

/// `name` cut to its first `max` characters.
pub open spec fn cut(name: Seq<char>, max: nat) -> Seq<char> {
    if name.len() <= max {
        name
    } else {
        name.take(max as int)
    }
}

/// The column heads of the process panel.
pub open spec fn process_panel_head() -> Seq<char> {
    pad_left("pid"@, 6) + " "@ + pad_right("name"@, 22) + " "@ + pad_left("rss"@, 10) + " "@
        + pad_left("mem"@, 7) + "\n"@
}

/// A process in the process panel: pid (6 columns, right-aligned), name cut
/// to 22 characters (22 columns), resident memory (10, right) and share (7,
/// right).
pub open spec fn process_panel_row(p: ProcessView) -> Seq<char> {
    pad_left(decimal(p.pid as nat), 6) + " "@ + pad_right(cut(p.name, 22), 22) + " "@ + pad_left(
        bytes_text(p.rss_bytes),
        10,
    ) + " "@ + pad_left(percent_text(p.rss_percent), 7) + "\n"@
}

/// The process panel of the interactive view: the column heads and a line
/// per process.
pub open spec fn process_panel(processes: Seq<ProcessView>) -> Seq<char> {
    process_panel_head() + rows_of(processes, |p: ProcessView| process_panel_row(p))
}

/// Appends the characters of `c` right-aligned in `width` characters.
fn push_left_chars(out: &mut Vec<char>, c: &Vec<char>, width: usize)
    ensures
        final(out)@ == old(out)@ + pad_left(c@, width as nat),
{
    if c.len() < width {
        push_spaces(out, width - c.len());
        push_chars(out, c);
        assert(out@ == old(out)@ + (spaces((width - c.len()) as nat) + c@));
    } else {
        push_chars(out, c);
    }
}

/// Appends a label, or `unknown` when it is missing, left-aligned in `width`.
fn push_label(out: &mut Vec<char>, label: &Option<String>, width: usize)
    ensures
        final(out)@ == old(out)@ + pad_right(or_unknown(crate::dmi::opt_view(*label)), width as nat),
{
    match label {
        Some(s) => push_right(out, s.as_str(), width),
        None => push_right(out, "unknown", width),
    }
}

/// The speed shown for a device.
fn shown_speed(d: &MemoryDevice) -> (speed: Option<u64>)
    ensures
        speed == device_speed(d@),
{
    match d.configured_speed_mts {
        Some(v) => Some(v),
        None => d.speed_mts,
    }
}

/// Appends a manufacturer after a space, when it is known.
fn push_maker(out: &mut Vec<char>, manufacturer: &Option<String>)
    ensures
        final(out)@ == old(out)@ + maker_text(crate::dmi::opt_view(*manufacturer)),
{
    match manufacturer {
        Some(m) => {
            let ghost start = out@;
            push_text(out, " ");
            push_text(out, m.as_str());
            assert(out@ =~= start + (" "@ + m@));
        },
        None => {
            assert(out@ =~= old(out)@ + Seq::<char>::empty());
        },
    }
}

fn push_device_row(out: &mut Vec<char>, d: &MemoryDevice)
    ensures
        final(out)@ == old(out)@ + device_panel_row(d@),
{
    push_label(out, &d.locator, 18);
    push_text(out, " ");
    push_left(out, format_bytes(d.size_bytes).as_str(), 8);
    push_text(out, " ");
    push_label(out, &d.memory_type, 6);
    push_text(out, " ");
    push_text(out, format_speed(shown_speed(d)).as_str());
    push_maker(out, &d.manufacturer);
    push_text(out, "\n");
}

fn push_process_row(out: &mut Vec<char>, p: &ProcessMemory)
    ensures
        final(out)@ == old(out)@ + process_panel_row(p@),
{
    push_left_chars(out, &decimal_chars(p.pid as u128), 6);
    push_text(out, " ");
    push_right(out, truncate(p.name.as_str(), 22).as_str(), 22);
    push_text(out, " ");
    push_left(out, format_bytes(p.rss_bytes).as_str(), 10);
    push_text(out, " ");
    push_left(out, format_percent(p.rss_percent).as_str(), 7);
    push_text(out, "\n");
}

/// The DIMM panel of the interactive view (see `dimms_panel`).
pub fn dimms_text(dmi: &MemoryDetails) -> (text: String)
    ensures
        text@ == dimms_panel(dmi.total_installed_bytes, dmi.configured_speed_mts, devices_view(dmi.devices@)),
{
    let ghost ds = devices_view(dmi.devices@);
    let ghost f = |d: DeviceView| device_panel_row(d);
    let mut out = chars_of("installed: ");
    push_text(&mut out, format_bytes(dmi.total_installed_bytes).as_str());
    push_text(&mut out, "\n");
    push_text(&mut out, "speed:     ");
    push_text(&mut out, format_speed(dmi.configured_speed_mts).as_str());
    push_text(&mut out, "\n");
    let ghost head = out@;
    let mut i: usize = 0;
    assert(ds.take(0) =~= Seq::<DeviceView>::empty());
    while i < dmi.devices.len()
        invariant
            ds == devices_view(dmi.devices@),
            f == (|d: DeviceView| device_panel_row(d)),
            i <= dmi.devices.len(),
            out@ == head + rows_of(ds.take(i as int), f),
        decreases dmi.devices.len() - i,
    {
        let d = &dmi.devices[i];
        assert(ds[i as int] == d@);
        push_device_row(&mut out, d);
        assert(ds.take(i + 1).drop_last() == ds.take(i as int));
        assert(ds.take(i + 1).last() == d@);
        assert(f(d@) == device_panel_row(d@));
        i += 1;
    }
    assert(ds.take(dmi.devices.len() as int) == ds);
    string_of(out.as_slice())
}

/// The process panel of the interactive view (see `process_panel`).
pub fn process_text(processes: &Vec<ProcessMemory>) -> (text: String)
    ensures
        text@ == process_panel(processes_view(processes@)),
{
    let ghost ps = processes_view(processes@);
    let ghost f = |p: ProcessView| process_panel_row(p);
    let mut out: Vec<char> = Vec::new();
    push_left(&mut out, "pid", 6);
    push_text(&mut out, " ");
    push_right(&mut out, "name", 22);
    push_text(&mut out, " ");
    push_left(&mut out, "rss", 10);
    push_text(&mut out, " ");
    push_left(&mut out, "mem", 7);
    push_text(&mut out, "\n");
    assert(out@ == process_panel_head());
    let mut i: usize = 0;
    assert(ps.take(0) =~= Seq::<ProcessView>::empty());
    while i < processes.len()
        invariant
            ps == processes_view(processes@),
            f == (|p: ProcessView| process_panel_row(p)),
            i <= processes.len(),
            out@ == process_panel_head() + rows_of(ps.take(i as int), f),
        decreases processes.len() - i,
    {
        let p = &processes[i];
        assert(ps[i as int] == p@);
        push_process_row(&mut out, p);
        assert(ps.take(i + 1).drop_last() == ps.take(i as int));
        assert(ps.take(i + 1).last() == p@);
        assert(f(p@) == process_panel_row(p@));
        i += 1;
    }
    assert(ps.take(processes.len() as int) == ps);
    string_of(out.as_slice())
}


/// The memory section of the text report.
pub open spec fn memory_section(m: MemorySummary) -> Seq<char> {
    "memory:\n"@ + "  total: "@ + bytes_text(m.total_bytes) + "\n"@ + "  used: "@ + bytes_text(
        m.used_bytes,
    ) + " ("@ + percent_text(m.used_percent) + ")\n"@ + "  available: "@ + bytes_text(
        m.available_bytes,
    ) + "\n"@ + "  free: "@ + bytes_text(m.free_bytes) + "\n"@ + "  buffers_cache: "@
        + bytes_text(m.buffers_bytes) + " buffers, "@ + bytes_text(m.cache_bytes) + " cache\n"@
        + "  swap: "@ + bytes_text(m.swap_used_bytes) + " used / "@ + bytes_text(m.swap_total_bytes)
        + " total\n"@ + "  dirty_writeback: "@ + bytes_text(m.dirty_bytes) + " dirty, "@
        + bytes_text(m.writeback_bytes) + " writeback\n"@
}

/// A device in the text report: locator, size, type, speed and manufacturer
/// where known.
pub open spec fn device_report_row(d: DeviceView) -> Seq<char> {
    "  "@ + or_unknown(d.locator) + ": "@ + bytes_text(d.size_bytes) + " "@ + or_unknown(
        d.memory_type,
    ) + " "@ + speed_text(device_speed(d)) + maker_text(d.manufacturer) + "\n"@
}

/// The DIMM section of the text report.
pub open spec fn dimms_section(installed: u64, speed: Option<u64>, devices: Seq<DeviceView>) -> Seq<
    char,
> {
    "dimms:\n"@ + "  installed: "@ + bytes_text(installed) + "\n"@ + "  speed: "@ + speed_text(
        speed,
    ) + "\n"@ + rows_of(devices, |d: DeviceView| device_report_row(d))
}

/// A process in the text report: pid (6 columns, right-aligned), name (24),
/// resident memory (10, right) and share (7, right).
pub open spec fn process_report_row(p: ProcessView) -> Seq<char> {
    "  "@ + pad_left(decimal(p.pid as nat), 6) + " "@ + pad_right(p.name, 24) + " "@ + pad_left(
        bytes_text(p.rss_bytes),
        10,
    ) + " "@ + pad_left(percent_text(p.rss_percent), 7) + "\n"@
}

/// A diagnostic in the text report.
pub open spec fn diagnostic_row(d: Seq<char>) -> Seq<char> {
    "  "@ + d + "\n"@
}

/// The diagnostics section of the text report; none without diagnostics.
pub open spec fn diagnostics_section(diagnostics: Seq<Seq<char>>) -> Seq<char> {
    if diagnostics.len() == 0 {
        Seq::empty()
    } else {
        "diagnostics:\n"@ + rows_of(diagnostics, |d: Seq<char>| diagnostic_row(d))
    }
}

/// A sample's read, write and total rates as texts (the rates are floating
/// point; their texts are written by the caller).
#[derive(Debug, Clone, PartialEq, Eq)]
pub struct RateTexts {
    pub read: String,
    pub write: String,
    pub total: String,
}

/// One memory controller's rates as texts.
#[derive(Debug, Clone, PartialEq, Eq)]
pub struct ControllerRateTexts {
    pub controller: String,
    pub rates: RateTexts,
}

/// The rates of a bandwidth sample as texts: over all controllers, and per
/// controller.
#[derive(Debug, Clone, PartialEq, Eq)]
pub struct BandwidthTexts {
    pub overall: RateTexts,
    pub controllers: Vec<ControllerRateTexts>,
}

/// A controller in the report's bandwidth section.
pub open spec fn controller_report_row(c: ControllerRateTexts) -> Seq<char> {
    "  "@ + c.controller@ + ": read="@ + c.rates.read@ + ", write="@ + c.rates.write@
        + ", total="@ + c.rates.total@ + "\n"@
}

/// The lines of the report's bandwidth section: the overall rates and a line
/// per controller, or `N/A` for each rate when there is no bandwidth.
pub open spec fn bandwidth_section(bandwidth: Option<BandwidthTexts>) -> Seq<char> {
    match bandwidth {
        Some(t) => "  read: "@ + t.overall.read@ + ", write: "@ + t.overall.write@ + ", total: "@
            + t.overall.total@ + "\n"@ + rows_of(
            t.controllers@,
            |c: ControllerRateTexts| controller_report_row(c),
        ),
        None => "  read: N/A, write: N/A, total: N/A\n"@,
    }
}

/// A controller in the bandwidth panel: its name (26 columns) and its rates.
pub open spec fn controller_panel_row(c: ControllerRateTexts) -> Seq<char> {
    pad_right(c.controller@, 26) + " r="@ + c.rates.read@ + " w="@ + c.rates.write@ + " t="@
        + c.rates.total@ + "\n"@
}

/// The bandwidth panel of the interactive view: the overall rates, a line per
/// controller, or `N/A` for each rate when there is no bandwidth.
pub open spec fn bandwidth_panel(bandwidth: Option<BandwidthTexts>) -> Seq<char> {
    match bandwidth {
        Some(t) => "read:  "@ + t.overall.read@ + "\n"@ + "write: "@ + t.overall.write@ + "\n"@
            + "total: "@ + t.overall.total@ + "\n"@ + rows_of(
            t.controllers@,
            |c: ControllerRateTexts| controller_panel_row(c),
        ),
        None => "read:  N/A\n"@ + "write: N/A\n"@ + "total: N/A\n"@,
    }
}

/// The text report: the memory and DIMM sections, the bandwidth section, a
/// line per top process, and the diagnostics.
pub open spec fn text_report(
    m: MemorySummary,
    installed: u64,
    speed: Option<u64>,
    devices: Seq<DeviceView>,
    bandwidth: Option<BandwidthTexts>,
    processes: Seq<ProcessView>,
    diagnostics: Seq<Seq<char>>,
) -> Seq<char> {
    memory_section(m) + dimms_section(installed, speed, devices) + "bandwidth:\n"@
        + bandwidth_section(bandwidth)
        + "top_rss:\n"@ + rows_of(processes, |p: ProcessView| process_report_row(p))
        + diagnostics_section(diagnostics)
}

fn push_memory_section(out: &mut Vec<char>, m: &MemorySummary)
    ensures
        final(out)@ == old(out)@ + memory_section(*m),
{
    let mut text = chars_of("memory:\n");
    push_text(&mut text, "  total: ");
    push_text(&mut text, format_bytes(m.total_bytes).as_str());
    push_text(&mut text, "\n");
    push_text(&mut text, "  used: ");
    push_text(&mut text, format_bytes(m.used_bytes).as_str());
    push_text(&mut text, " (");
    push_text(&mut text, format_percent(m.used_percent).as_str());
    push_text(&mut text, ")\n");
    push_text(&mut text, "  available: ");
    push_text(&mut text, format_bytes(m.available_bytes).as_str());
    push_text(&mut text, "\n");
    push_text(&mut text, "  free: ");
    push_text(&mut text, format_bytes(m.free_bytes).as_str());
    push_text(&mut text, "\n");
    push_text(&mut text, "  buffers_cache: ");
    push_text(&mut text, format_bytes(m.buffers_bytes).as_str());
    push_text(&mut text, " buffers, ");
    push_text(&mut text, format_bytes(m.cache_bytes).as_str());
    push_text(&mut text, " cache\n");
    push_text(&mut text, "  swap: ");
    push_text(&mut text, format_bytes(m.swap_used_bytes).as_str());
    push_text(&mut text, " used / ");
    push_text(&mut text, format_bytes(m.swap_total_bytes).as_str());
    push_text(&mut text, " total\n");
    push_text(&mut text, "  dirty_writeback: ");
    push_text(&mut text, format_bytes(m.dirty_bytes).as_str());
    push_text(&mut text, " dirty, ");
    push_text(&mut text, format_bytes(m.writeback_bytes).as_str());
    push_text(&mut text, " writeback\n");
    push_chars(out, &text);
}

/// Appends a label, or `unknown` when it is missing.
fn push_or_unknown(out: &mut Vec<char>, label: &Option<String>)
    ensures
        final(out)@ == old(out)@ + or_unknown(crate::dmi::opt_view(*label)),
{
    match label {
        Some(s) => push_text(out, s.as_str()),
        None => push_text(out, "unknown"),
    }
}

fn push_device_report_row(out: &mut Vec<char>, d: &MemoryDevice)
    ensures
        final(out)@ == old(out)@ + device_report_row(d@),
{
    let ghost start = out@;
    push_text(out, "  ");
    push_or_unknown(out, &d.locator);
    push_text(out, ": ");
    push_text(out, format_bytes(d.size_bytes).as_str());
    push_text(out, " ");
    push_or_unknown(out, &d.memory_type);
    push_text(out, " ");
    push_text(out, format_speed(shown_speed(d)).as_str());
    push_maker(out, &d.manufacturer);
    push_text(out, "\n");
    assert(out@ =~= start + device_report_row(d@));
}

fn push_dimms_section(out: &mut Vec<char>, dmi: &MemoryDetails)
    ensures
        final(out)@ == old(out)@ + dimms_section(
            dmi.total_installed_bytes,
            dmi.configured_speed_mts,
            devices_view(dmi.devices@),
        ),
{
    let ghost start = out@;
    let ghost ds = devices_view(dmi.devices@);
    let ghost f = |d: DeviceView| device_report_row(d);
    push_text(out, "dimms:\n");
    push_text(out, "  installed: ");
    push_text(out, format_bytes(dmi.total_installed_bytes).as_str());
    push_text(out, "\n");
    push_text(out, "  speed: ");
    push_text(out, format_speed(dmi.configured_speed_mts).as_str());
    push_text(out, "\n");
    let ghost head = out@;
    let mut i: usize = 0;
    assert(ds.take(0) =~= Seq::<DeviceView>::empty());
    while i < dmi.devices.len()
        invariant
            ds == devices_view(dmi.devices@),
            f == (|d: DeviceView| device_report_row(d)),
            i <= dmi.devices.len(),
            out@ == head + rows_of(ds.take(i as int), f),
        decreases dmi.devices.len() - i,
    {
        let d = &dmi.devices[i];
        assert(ds[i as int] == d@);
        push_device_report_row(out, d);
        assert(ds.take(i + 1).drop_last() == ds.take(i as int));
        assert(ds.take(i + 1).last() == d@);
        assert(f(d@) == device_report_row(d@));
        i += 1;
    }
    assert(ds.take(dmi.devices.len() as int) == ds);
    assert(out@ =~= start + dimms_section(
        dmi.total_installed_bytes,
        dmi.configured_speed_mts,
        ds,
    ));
}

fn push_process_report_row(out: &mut Vec<char>, p: &ProcessMemory)
    ensures
        final(out)@ == old(out)@ + process_report_row(p@),
{
    let ghost start = out@;
    push_text(out, "  ");
    push_left_chars(out, &decimal_chars(p.pid as u128), 6);
    push_text(out, " ");
    push_right(out, p.name.as_str(), 24);
    push_text(out, " ");
    push_left(out, format_bytes(p.rss_bytes).as_str(), 10);
    push_text(out, " ");
    push_left(out, format_percent(p.rss_percent).as_str(), 7);
    push_text(out, "\n");
    assert(out@ =~= start + process_report_row(p@));
}

fn push_process_rows(out: &mut Vec<char>, processes: &Vec<ProcessMemory>)
    ensures
        final(out)@ == old(out)@ + rows_of(
            processes_view(processes@),
            |p: ProcessView| process_report_row(p),
        ),
{
    let ghost ps = processes_view(processes@);
    let ghost f = |p: ProcessView| process_report_row(p);
    let ghost head = out@;
    let mut i: usize = 0;
    assert(ps.take(0) =~= Seq::<ProcessView>::empty());
    while i < processes.len()
        invariant
            ps == processes_view(processes@),
            f == (|p: ProcessView| process_report_row(p)),
            i <= processes.len(),
            out@ == head + rows_of(ps.take(i as int), f),
        decreases processes.len() - i,
    {
        let p = &processes[i];
        assert(ps[i as int] == p@);
        push_process_report_row(out, p);
        assert(ps.take(i + 1).drop_last() == ps.take(i as int));
        assert(ps.take(i + 1).last() == p@);
        assert(f(p@) == process_report_row(p@));
        i += 1;
    }
    assert(ps.take(processes.len() as int) == ps);
}

fn push_diagnostics(out: &mut Vec<char>, diagnostics: &Vec<String>)
    ensures
        final(out)@ == old(out)@ + diagnostics_section(texts_view(diagnostics@)),
{
    let ghost ds = texts_view(diagnostics@);
    let ghost f = |d: Seq<char>| diagnostic_row(d);
    if diagnostics.len() == 0 {
        assert(out@ =~= old(out)@ + diagnostics_section(ds));
        return;
    }
    push_text(out, "diagnostics:\n");
    let ghost head = out@;
    let mut i: usize = 0;
    assert(ds.take(0) =~= Seq::<Seq<char>>::empty());
    while i < diagnostics.len()
        invariant
            ds == texts_view(diagnostics@),
            f == (|d: Seq<char>| diagnostic_row(d)),
            i <= diagnostics.len(),
            out@ == head + rows_of(ds.take(i as int), f),
        decreases diagnostics.len() - i,
    {
        let d = &diagnostics[i];
        assert(ds[i as int] == d@);
        let ghost before = out@;
        push_text(out, "  ");
        push_text(out, d.as_str());
        push_text(out, "\n");
        assert(out@ =~= before + diagnostic_row(d@));
        assert(ds.take(i + 1).drop_last() == ds.take(i as int));
        assert(ds.take(i + 1).last() == d@);
        assert(f(d@) == diagnostic_row(d@));
        i += 1;
    }
    assert(ds.take(diagnostics.len() as int) == ds);
}

fn push_bandwidth_section(out: &mut Vec<char>, bandwidth: &Option<BandwidthTexts>)
    ensures
        final(out)@ == old(out)@ + bandwidth_section(*bandwidth),
{
    match bandwidth {
        Some(t) => {
            let ghost f = |c: ControllerRateTexts| controller_report_row(c);
            let mut text = chars_of("  read: ");
            push_text(&mut text, t.overall.read.as_str());
            push_text(&mut text, ", write: ");
            push_text(&mut text, t.overall.write.as_str());
            push_text(&mut text, ", total: ");
            push_text(&mut text, t.overall.total.as_str());
            push_text(&mut text, "\n");
            let ghost head = text@;
            let ghost cs = t.controllers@;
            let mut i: usize = 0;
            assert(cs.take(0) =~= Seq::<ControllerRateTexts>::empty());
            while i < t.controllers.len()
                invariant
                    cs == t.controllers@,
                    f == (|c: ControllerRateTexts| controller_report_row(c)),
                    i <= cs.len(),
                    text@ == head + rows_of(cs.take(i as int), f),
                decreases cs.len() - i,
            {
                let c = &t.controllers[i];
                let ghost before = text@;
                push_text(&mut text, "  ");
                push_text(&mut text, c.controller.as_str());
                push_text(&mut text, ": read=");
                push_text(&mut text, c.rates.read.as_str());
                push_text(&mut text, ", write=");
                push_text(&mut text, c.rates.write.as_str());
                push_text(&mut text, ", total=");
                push_text(&mut text, c.rates.total.as_str());
                push_text(&mut text, "\n");
                assert(text@ =~= before + controller_report_row(*c));
                assert(cs.take(i + 1).drop_last() == cs.take(i as int));
                assert(cs.take(i + 1).last() == *c);
                assert(f(*c) == controller_report_row(*c));
                i += 1;
            }
            assert(cs.take(cs.len() as int) == cs);
            push_chars(out, &text);
        },
        None => push_text(out, "  read: N/A, write: N/A, total: N/A\n"),
    }
}

/// The bandwidth panel of the interactive view (see `bandwidth_panel`).
pub fn bandwidth_text(bandwidth: &Option<BandwidthTexts>) -> (text: String)
    ensures
        text@ == bandwidth_panel(*bandwidth),
{
    match bandwidth {
        Some(t) => {
            let ghost f = |c: ControllerRateTexts| controller_panel_row(c);
            let mut text = chars_of("read:  ");
            push_text(&mut text, t.overall.read.as_str());
            push_text(&mut text, "\n");
            push_text(&mut text, "write: ");
            push_text(&mut text, t.overall.write.as_str());
            push_text(&mut text, "\n");
            push_text(&mut text, "total: ");
            push_text(&mut text, t.overall.total.as_str());
            push_text(&mut text, "\n");
            let ghost head = text@;
            let ghost cs = t.controllers@;
            let mut i: usize = 0;
            assert(cs.take(0) =~= Seq::<ControllerRateTexts>::empty());
            while i < t.controllers.len()
                invariant
                    cs == t.controllers@,
                    f == (|c: ControllerRateTexts| controller_panel_row(c)),
                    i <= cs.len(),
                    text@ == head + rows_of(cs.take(i as int), f),
                decreases cs.len() - i,
            {
                let c = &t.controllers[i];
                let ghost before = text@;
                push_right(&mut text, c.controller.as_str(), 26);
                push_text(&mut text, " r=");
                push_text(&mut text, c.rates.read.as_str());
                push_text(&mut text, " w=");
                push_text(&mut text, c.rates.write.as_str());
                push_text(&mut text, " t=");
                push_text(&mut text, c.rates.total.as_str());
                push_text(&mut text, "\n");
                assert(text@ =~= before + controller_panel_row(*c));
                assert(cs.take(i + 1).drop_last() == cs.take(i as int));
                assert(cs.take(i + 1).last() == *c);
                assert(f(*c) == controller_panel_row(*c));
                i += 1;
            }
            assert(cs.take(cs.len() as int) == cs);
            string_of(text.as_slice())
        },
        None => {
            let mut text = chars_of("read:  N/A\n");
            push_text(&mut text, "write: N/A\n");
            push_text(&mut text, "total: N/A\n");
            string_of(text.as_slice())
        },
    }
}

/// The one-shot text report (see `text_report`), with the rates of the last
/// bandwidth sample as texts (none before there are two samples).
pub fn format_text_report(
    memory: &MemorySummary,
    dmi: &MemoryDetails,
    bandwidth: &Option<BandwidthTexts>,
    processes: &Vec<ProcessMemory>,
    diagnostics: &Vec<String>,
) -> (report: String)
    ensures
        report@ == text_report(
            *memory,
            dmi.total_installed_bytes,
            dmi.configured_speed_mts,
            devices_view(dmi.devices@),
            *bandwidth,
            processes_view(processes@),
            texts_view(diagnostics@),
        ),
{
    let mut out: Vec<char> = Vec::new();
    push_memory_section(&mut out, memory);
    push_dimms_section(&mut out, dmi);
    push_text(&mut out, "bandwidth:\n");
    push_bandwidth_section(&mut out, bandwidth);
    push_text(&mut out, "top_rss:\n");
    push_process_rows(&mut out, processes);
    push_diagnostics(&mut out, diagnostics);
    assert(out@ =~= text_report(
        *memory,
        dmi.total_installed_bytes,
        dmi.configured_speed_mts,
        devices_view(dmi.devices@),
        *bandwidth,
        processes_view(processes@),
        texts_view(diagnostics@),
    ));
    string_of(out.as_slice())
}

} // verus!
