//! Installed memory devices, read from `dmidecode --type memory` output.
use vstd::prelude::*;

use crate::memory::{sat_mul, saturating_mul};
use crate::num::{parse_u64_chars, parse_u64_dec};
use crate::text::{
    chars_of, contains_seq, contains_str, eq_ignore_case, eq_ignore_case_str, eq_str, first_token,
    lines, split_lines, split_once, split_once_char, split_whitespace, string_of, tokens, trim,
    trim_chars,
};

verus! {

/// One installed memory module.
#[derive(Debug, Clone, PartialEq, Eq)]
pub struct MemoryDevice {
    pub locator: Option<String>,
    pub bank_locator: Option<String>,
    pub size_bytes: u64,
    pub memory_type: Option<String>,
    pub speed_mts: Option<u64>,
    pub configured_speed_mts: Option<u64>,
    pub manufacturer: Option<String>,
}

/// The installed modules and what they add up to.
#[derive(Debug, Clone, PartialEq, Eq)]
pub struct MemoryDetails {
    pub total_installed_bytes: u64,
    pub configured_speed_mts: Option<u64>,
    pub devices: Vec<MemoryDevice>,
}

/// A memory device with its texts as character sequences.
pub struct DeviceView {
    pub locator: Option<Seq<char>>,
    pub bank_locator: Option<Seq<char>>,
    pub size_bytes: u64,
    pub memory_type: Option<Seq<char>>,
    pub speed_mts: Option<u64>,
    pub configured_speed_mts: Option<u64>,
    pub manufacturer: Option<Seq<char>>,
}

/// The texts of an optional `String`.
pub open spec fn opt_view(o: Option<String>) -> Option<Seq<char>> {
    match o {
        Some(s) => Some(s@),
        None => None,
    }
}

impl View for MemoryDevice {
    type V = DeviceView;

    open spec fn view(&self) -> DeviceView {
        DeviceView {
            locator: opt_view(self.locator),
            bank_locator: opt_view(self.bank_locator),
            size_bytes: self.size_bytes,
            memory_type: opt_view(self.memory_type),
            speed_mts: self.speed_mts,
            configured_speed_mts: self.configured_speed_mts,
            manufacturer: opt_view(self.manufacturer),
        }
    }
}

/// The views of a list of devices.
pub open spec fn devices_view(v: Seq<MemoryDevice>) -> Seq<DeviceView> {
    v.map_values(|d: MemoryDevice| d@)
}

/// A device with nothing known.
pub open spec fn empty_device() -> DeviceView {
    DeviceView {
        locator: None,
        bank_locator: None,
        size_bytes: 0,
        memory_type: None,
        speed_mts: None,
        configured_speed_mts: None,
        manufacturer: None,
    }
}

/// The record being read: whether a `Memory Device` header was seen, what has
/// been read of it, and whether it holds an installed module (a readable size).
pub struct BuilderView {
    pub seen: bool,
    pub device: DeviceView,
    pub installed: bool,
}

/// No record open.
pub open spec fn empty_builder() -> BuilderView {
    BuilderView { seen: false, device: empty_device(), installed: false }
}

/// Devices found so far, and the record being read.
pub struct ScanView {
    pub devices: Seq<DeviceView>,
    pub current: BuilderView,
}

/// The multiplier of a size unit, matched without regard to ASCII case.
pub open spec fn unit_multiplier(unit: Seq<char>) -> Option<u64> {
    if eq_ignore_case(unit, "kb"@) || eq_ignore_case(unit, "kib"@) {
        Some(1024u64)
    } else if eq_ignore_case(unit, "mb"@) || eq_ignore_case(unit, "mib"@) {
        Some(0x10_0000u64)
    } else if eq_ignore_case(unit, "gb"@) || eq_ignore_case(unit, "gib"@) {
        Some(0x4000_0000u64)
    } else if eq_ignore_case(unit, "tb"@) || eq_ignore_case(unit, "tib"@) {
        Some(0x100_0000_0000u64)
    } else if eq_ignore_case(unit, "b"@) || eq_ignore_case(unit, "bytes"@) {
        Some(1u64)
    } else {
        None
    }
}

/// A `Size:` value in bytes: an amount and an optional unit (bytes when there
/// is none), the product saturating; an empty slot (`No Module Installed`) or
/// an `Unknown` size has none.
pub open spec fn size_bytes_of(value: Seq<char>) -> Option<u64> {
    let words = tokens(value);
    if contains_seq(value, "No Module Installed"@) || eq_ignore_case(value, "unknown"@) {
        None
    } else if words.len() == 0 {
        None
    } else {
        match parse_u64_dec(words[0]) {
            None => None,
            Some(amount) => {
                let mult = if words.len() > 1 {
                    unit_multiplier(words[1])
                } else {
                    Some(1u64)
                };
                match mult {
                    Some(m) => Some(sat_mul(amount, m)),
                    None => None,
                }
            },
        }
    }
}

/// A `Speed:` value in MT/s: the first word as a number, none for `Unknown`.
pub open spec fn speed_of(value: Seq<char>) -> Option<u64> {
    if eq_ignore_case(value, "unknown"@) {
        None
    } else {
        match first_token(value) {
            Some(w) => parse_u64_dec(w),
            None => None,
        }
    }
}

/// A text value, none when empty.
pub open spec fn non_empty_of(value: Seq<char>) -> Option<Seq<char>> {
    if value.len() > 0 {
        Some(value)
    } else {
        None
    }
}

/// A text value, none when empty or `Unknown`.
pub open spec fn non_unknown_of(value: Seq<char>) -> Option<Seq<char>> {
    if value.len() > 0 && !eq_ignore_case(value, "unknown"@) {
        Some(value)
    } else {
        None
    }
}

/// The record closed: an installed module joins the devices; the next record
/// starts empty.
pub open spec fn push_spec(st: ScanView) -> ScanView {
    ScanView {
        devices: if st.current.installed {
            st.devices.push(st.current.device)
        } else {
            st.devices
        },
        current: empty_builder(),
    }
}

/// The effect of one `key: value` field (both trimmed) on the open record.
pub open spec fn field_spec(b: BuilderView, key: Seq<char>, value: Seq<char>) -> BuilderView {
    let d = b.device;
    if key == "Size"@ {
        match size_bytes_of(value) {
            Some(n) => BuilderView { device: DeviceView { size_bytes: n, ..d }, installed: true, ..b },
            None => b,
        }
    } else if key == "Locator"@ {
        BuilderView { device: DeviceView { locator: non_empty_of(value), ..d }, ..b }
    } else if key == "Bank Locator"@ {
        BuilderView { device: DeviceView { bank_locator: non_empty_of(value), ..d }, ..b }
    } else if key == "Type"@ {
        BuilderView { device: DeviceView { memory_type: non_unknown_of(value), ..d }, ..b }
    } else if key == "Speed"@ {
        BuilderView { device: DeviceView { speed_mts: speed_of(value), ..d }, ..b }
    } else if key == "Configured Memory Speed"@ {
        BuilderView { device: DeviceView { configured_speed_mts: speed_of(value), ..d }, ..b }
    } else if key == "Manufacturer"@ {
        BuilderView { device: DeviceView { manufacturer: non_unknown_of(value), ..d }, ..b }
    } else {
        b
    }
}

/// The effect of one line (trimmed): a `Memory Device` header closes the open
/// record and opens a new one; before the first header lines are ignored;
/// otherwise a `key: value` line sets a field.
pub open spec fn line_spec(st: ScanView, raw: Seq<char>) -> ScanView {
    let line = trim(raw);
    if line == "Memory Device"@ {
        let p = push_spec(st);
        ScanView { current: BuilderView { seen: true, ..p.current }, ..p }
    } else if !st.current.seen {
        st
    } else {
        match split_once(line, ':') {
            Some((key, value)) => ScanView {
                current: field_spec(st.current, trim(key), trim(value)),
                ..st
            },
            None => st,
        }
    }
}

/// A `Locator` or `Bank Locator` line of an open record sets that field of the
/// record to the whole trimmed text after the colon, inner spaces included
/// (none when that text is empty), and changes nothing else.
pub proof fn lemma_locator_line(st: ScanView, raw: Seq<char>, key: Seq<char>, value: Seq<char>)
    requires
        st.current.seen,
        split_once(trim(raw), ':') == Some((key, value)),
        trim(key) == "Locator"@ || trim(key) == "Bank Locator"@,
    ensures
        trim(key) == "Locator"@ ==> line_spec(st, raw) == (ScanView {
            current: BuilderView {
                device: DeviceView {
                    locator: if trim(value).len() > 0 {
                        Some(trim(value))
                    } else {
                        None
                    },
                    ..st.current.device
                },
                ..st.current
            },
            ..st
        }),
        trim(key) == "Bank Locator"@ ==> line_spec(st, raw) == (ScanView {
            current: BuilderView {
                device: DeviceView {
                    bank_locator: if trim(value).len() > 0 {
                        Some(trim(value))
                    } else {
                        None
                    },
                    ..st.current.device
                },
                ..st.current
            },
            ..st
        }),
{
    reveal_strlit("Memory Device");
    reveal_strlit("Size");
    reveal_strlit("Locator");
    reveal_strlit("Bank Locator");
    let line = trim(raw);
    line.index_of_first_ensures(':');
    if line == "Memory Device"@ {
        let i = line.index_of_first(':').unwrap();
        assert(line[i] == ':');
        assert("Memory Device"@[i] != ':');
    }
    assert("Locator"@ != "Size"@) by {
        assert("Locator"@.len() != "Size"@.len());
    }
    assert("Bank Locator"@ != "Size"@) by {
        assert("Bank Locator"@.len() != "Size"@.len());
    }
    assert("Bank Locator"@ != "Locator"@) by {
        assert("Bank Locator"@.len() != "Locator"@.len());
    }
}

/// A `Type` or `Manufacturer` line of an open record sets that field of the
/// record to the whole trimmed text after the colon, or to none when that text
/// is empty or reads `unknown` in any case, and changes nothing else.
pub proof fn lemma_described_line(st: ScanView, raw: Seq<char>, key: Seq<char>, value: Seq<char>)
    requires
        st.current.seen,
        split_once(trim(raw), ':') == Some((key, value)),
        trim(key) == "Type"@ || trim(key) == "Manufacturer"@,
    ensures
        trim(key) == "Type"@ ==> line_spec(st, raw) == (ScanView {
            current: BuilderView {
                device: DeviceView {
                    memory_type: if trim(value).len() > 0 && !eq_ignore_case(trim(value), "unknown"@) {
                        Some(trim(value))
                    } else {
                        None
                    },
                    ..st.current.device
                },
                ..st.current
            },
            ..st
        }),
        trim(key) == "Manufacturer"@ ==> line_spec(st, raw) == (ScanView {
            current: BuilderView {
                device: DeviceView {
                    manufacturer: if trim(value).len() > 0 && !eq_ignore_case(trim(value), "unknown"@) {
                        Some(trim(value))
                    } else {
                        None
                    },
                    ..st.current.device
                },
                ..st.current
            },
            ..st
        }),
{
    reveal_strlit("Memory Device");
    reveal_strlit("Size");
    reveal_strlit("Locator");
    reveal_strlit("Bank Locator");
    reveal_strlit("Type");
    reveal_strlit("Speed");
    reveal_strlit("Configured Memory Speed");
    reveal_strlit("Manufacturer");
    let line = trim(raw);
    line.index_of_first_ensures(':');
    if line == "Memory Device"@ {
        let i = line.index_of_first(':').unwrap();
        assert(line[i] == ':');
        assert("Memory Device"@[i] != ':');
    }
    assert("Type"@ != "Size"@) by {
        assert("Type"@[0] != "Size"@[0]);
    }
    assert("Type"@ != "Locator"@) by {
        assert("Type"@.len() != "Locator"@.len());
    }
    assert("Type"@ != "Bank Locator"@) by {
        assert("Type"@.len() != "Bank Locator"@.len());
    }
    assert("Manufacturer"@ != "Size"@) by {
        assert("Manufacturer"@.len() != "Size"@.len());
    }
    assert("Manufacturer"@ != "Locator"@) by {
        assert("Manufacturer"@.len() != "Locator"@.len());
    }
    assert("Manufacturer"@ != "Bank Locator"@) by {
        assert("Manufacturer"@[0] != "Bank Locator"@[0]);
    }
    assert("Manufacturer"@ != "Type"@) by {
        assert("Manufacturer"@.len() != "Type"@.len());
    }
    assert("Manufacturer"@ != "Speed"@) by {
        assert("Manufacturer"@.len() != "Speed"@.len());
    }
    assert("Manufacturer"@ != "Configured Memory Speed"@) by {
        assert("Manufacturer"@.len() != "Configured Memory Speed"@.len());
    }
}

/// The installed devices described by a `dmidecode --type memory` text, in order.
pub open spec fn dmidecode_devices(input: Seq<char>) -> Seq<DeviceView> {
    push_spec(
        lines(input).fold_left(
            ScanView { devices: Seq::empty(), current: empty_builder() },
            |st: ScanView, line: Seq<char>| line_spec(st, line),
        ),
    ).devices
}

/// Reading lines with devices already found: those stay first, and what the
/// lines add comes after them as it would after none.
proof fn lemma_scan_prefix(ls: Seq<Seq<char>>, d: Seq<DeviceView>, x: Seq<DeviceView>, cur: BuilderView)
    ensures
        ls.fold_left(
            ScanView { devices: d + x, current: cur },
            |st: ScanView, line: Seq<char>| line_spec(st, line),
        ) == (ScanView {
            devices: d + ls.fold_left(
                ScanView { devices: x, current: cur },
                |st: ScanView, line: Seq<char>| line_spec(st, line),
            ).devices,
            current: ls.fold_left(
                ScanView { devices: x, current: cur },
                |st: ScanView, line: Seq<char>| line_spec(st, line),
            ).current,
        }),
    decreases ls.len(),
{
    if ls.len() > 0 {
        let f = |st: ScanView, line: Seq<char>| line_spec(st, line);
        lemma_scan_prefix(ls.drop_last(), d, x, cur);
        let p = ls.drop_last().fold_left(ScanView { devices: x, current: cur }, f);
        assert((d + p.devices).push(p.current.device) =~= d + p.devices.push(p.current.device));
    }
}

/// A `dmidecode` text that is empty or ends with a line break, followed by one
/// that starts with a `Memory Device` header, describes the devices of the
/// first and then those of the second.
pub proof fn lemma_dmidecode_concat(a: Seq<char>, b: Seq<char>)
    requires
        a.len() == 0 || a.last() == '\n',
        lines(b).len() > 0,
        trim(lines(b)[0]) == "Memory Device"@,
    ensures
        dmidecode_devices(a + b) == dmidecode_devices(a) + dmidecode_devices(b),
{
    let f = |st: ScanView, line: Seq<char>| line_spec(st, line);
    let init = ScanView { devices: Seq::empty(), current: empty_builder() };
    let la = lines(a);
    let lb = lines(b);
    crate::text::lemma_lines_concat(a, b);
    let l = la + lb;
    l.lemma_fold_left_split(init, f, la.len() as int);
    assert(l.subrange(0, la.len() as int) == la);
    assert(l.subrange(la.len() as int, l.len() as int) == lb);
    let sa = la.fold_left(init, f);
    lb.lemma_fold_left_split(sa, f, 1);
    lb.lemma_fold_left_split(init, f, 1);
    let head = lb.subrange(0, 1);
    let rest = lb.subrange(1, lb.len() as int);
    assert(head.drop_last() =~= Seq::<Seq<char>>::empty());
    assert(head.last() == lb[0]);
    let opened = BuilderView { seen: true, ..empty_builder() };
    assert(head.drop_last().fold_left(sa, f) == sa);
    assert(head.fold_left(sa, f) == line_spec(sa, lb[0]));
    assert(la.fold_left(init, f) == sa);
    assert(push_spec(sa).devices == dmidecode_devices(a));
    assert(line_spec(sa, lb[0]) == ScanView { devices: dmidecode_devices(a), current: opened });
    assert(head.drop_last().fold_left(init, f) == init);
    assert(head.fold_left(init, f) == line_spec(init, lb[0]));
    assert(line_spec(init, lb[0]) == ScanView { devices: Seq::<DeviceView>::empty(), current: opened });
    lemma_scan_prefix(rest, dmidecode_devices(a), Seq::empty(), opened);
    assert(dmidecode_devices(a) + Seq::<DeviceView>::empty() == dmidecode_devices(a));
    let sb = rest.fold_left(ScanView { devices: Seq::empty(), current: opened }, f);
    if sb.current.installed {
        assert((dmidecode_devices(a) + sb.devices).push(sb.current.device) =~= dmidecode_devices(a)
            + sb.devices.push(sb.current.device));
    }
}

#[derive(Debug)]
struct DeviceBuilder {
    seen: bool,
    device: MemoryDevice,
    installed: bool,
}

impl DeviceBuilder {
    spec fn view(&self) -> BuilderView {
        BuilderView { seen: self.seen, device: self.device@, installed: self.installed }
    }
}

fn empty_device_exec() -> (d: MemoryDevice)
    ensures
        d@ == empty_device(),
{
    MemoryDevice {
        locator: None,
        bank_locator: None,
        size_bytes: 0,
        memory_type: None,
        speed_mts: None,
        configured_speed_mts: None,
        manufacturer: None,
    }
}

impl Default for MemoryDevice {
    fn default() -> (d: Self)
        ensures
            d@ == empty_device(),
    {
        empty_device_exec()
    }
}

impl Default for MemoryDetails {
    fn default() -> (d: Self)
        ensures
            d.total_installed_bytes == 0,
            d.configured_speed_mts is None,
            d.devices@.len() == 0,
    {
        MemoryDetails { total_installed_bytes: 0, configured_speed_mts: None, devices: Vec::new() }
    }
}

fn new_builder() -> (b: DeviceBuilder)
    ensures
        b.view() == empty_builder(),
{
    DeviceBuilder { seen: false, device: empty_device_exec(), installed: false }
}

/// Closes the open record: an installed module joins `devices`.
fn push_current(devices: &mut Vec<MemoryDevice>, current: &mut DeviceBuilder)
    ensures
        devices_view(final(devices)@) == push_spec(
            ScanView { devices: devices_view(old(devices)@), current: old(current).view() },
        ).devices,
        final(current).view() == empty_builder(),
{
    let mut closed = new_builder();
    std::mem::swap(current, &mut closed);
    if closed.installed {
        devices.push(closed.device);
        proof {
            assert(devices_view(devices@) =~= devices_view(old(devices)@).push(closed.device@));
        }
    }
}

/// The multiplier of a size unit.
fn unit_multiplier_of(unit: &[char]) -> (r: Option<u64>)
    ensures
        r == unit_multiplier(unit@),
{
    if eq_ignore_case_str(unit, "kb") || eq_ignore_case_str(unit, "kib") {
        Some(1024)
    } else if eq_ignore_case_str(unit, "mb") || eq_ignore_case_str(unit, "mib") {
        Some(1024 * 1024)
    } else if eq_ignore_case_str(unit, "gb") || eq_ignore_case_str(unit, "gib") {
        Some(1024 * 1024 * 1024)
    } else if eq_ignore_case_str(unit, "tb") || eq_ignore_case_str(unit, "tib") {
        Some(1024 * 1024 * 1024 * 1024)
    } else if eq_ignore_case_str(unit, "b") || eq_ignore_case_str(unit, "bytes") {
        Some(1)
    } else {
        None
    }
}

/// A `Size:` value in bytes.
fn parse_size_bytes(value: &[char]) -> (r: Option<u64>)
    ensures
        r == size_bytes_of(value@),
{
    if contains_str(value, "No Module Installed") || eq_ignore_case_str(value, "unknown") {
        return None;
    }
    let words = split_whitespace(value);
    if words.len() == 0 {
        return None;
    }
    assert(words@[0]@ == tokens(value@)[0]);
    let amount = match parse_u64_chars(words[0].as_slice()) {
        Some(a) => a,
        None => return None,
    };
    let mult = if words.len() > 1 {
        assert(words@[1]@ == tokens(value@)[1]);
        unit_multiplier_of(words[1].as_slice())
    } else {
        Some(1u64)
    };
    match mult {
        Some(m) => Some(saturating_mul(amount, m)),
        None => None,
    }
}

/// A `Speed:` value in MT/s.
fn parse_speed_mts(value: &[char]) -> (r: Option<u64>)
    ensures
        r == speed_of(value@),
{
    if eq_ignore_case_str(value, "unknown") {
        return None;
    }
    let words = split_whitespace(value);
    if words.len() == 0 {
        return None;
    }
    assert(words@[0]@ == tokens(value@)[0]);
    parse_u64_chars(words[0].as_slice())
}

/// A text value, none when empty.
fn non_empty(value: &[char]) -> (r: Option<String>)
    ensures
        opt_view(r) == non_empty_of(value@),
{
    if value.len() > 0 {
        Some(string_of(value))
    } else {
        None
    }
}

/// A text value, none when empty or `Unknown`.
fn non_unknown(value: &[char]) -> (r: Option<String>)
    ensures
        opt_view(r) == non_unknown_of(value@),
{
    if value.len() > 0 && !eq_ignore_case_str(value, "unknown") {
        Some(string_of(value))
    } else {
        None
    }
}

/// Sets the field that `key` names in the open record.
fn set_field(current: &mut DeviceBuilder, key: &[char], value: &[char])
    ensures
        final(current).view() == field_spec(old(current).view(), key@, value@),
{
    if eq_str(key, "Size") {
        if let Some(size_bytes) = parse_size_bytes(value) {
            current.device.size_bytes = size_bytes;
            current.installed = true;
        }
    } else if eq_str(key, "Locator") {
        current.device.locator = non_empty(value);
    } else if eq_str(key, "Bank Locator") {
        current.device.bank_locator = non_empty(value);
    } else if eq_str(key, "Type") {
        current.device.memory_type = non_unknown(value);
    } else if eq_str(key, "Speed") {
        current.device.speed_mts = parse_speed_mts(value);
    } else if eq_str(key, "Configured Memory Speed") {
        current.device.configured_speed_mts = parse_speed_mts(value);
    } else if eq_str(key, "Manufacturer") {
        current.device.manufacturer = non_unknown(value);
    }
}

/// The installed memory devices that a `dmidecode --type memory` text describes.
pub fn parse_dmidecode_memory(input: &str) -> (devices: Vec<MemoryDevice>)
    ensures
        devices_view(devices@) == dmidecode_devices(input@),
{
    let text = chars_of(input);
    let all = split_lines(text.as_slice());
    let ghost ls = lines(input@);
    let ghost f = |st: ScanView, line: Seq<char>| line_spec(st, line);
    let ghost init = ScanView { devices: Seq::empty(), current: empty_builder() };
    let mut devices: Vec<MemoryDevice> = Vec::new();
    let mut current = new_builder();
    let mut i: usize = 0;
    assert(devices_view(devices@) =~= Seq::<DeviceView>::empty());
    while i < all.len()
        invariant
            ls == lines(input@),
            all@.len() == ls.len(),
            forall|j: int| 0 <= j < all@.len() ==> #[trigger] all@[j]@ == ls[j],
            f == (|st: ScanView, line: Seq<char>| line_spec(st, line)),
            init == (ScanView { devices: Seq::empty(), current: empty_builder() }),
            i <= all.len(),
            (ScanView { devices: devices_view(devices@), current: current.view() }) == ls.take(
                i as int,
            ).fold_left(init, f),
        decreases all.len() - i,
    {
        assert(all@[i as int]@ == ls[i as int]);
        assert(ls.take(i + 1).drop_last() == ls.take(i as int));
        let ghost before = ScanView { devices: devices_view(devices@), current: current.view() };
        let line = trim_chars(all[i].as_slice());
        if eq_str(line.as_slice(), "Memory Device") {
            push_current(&mut devices, &mut current);
            current.seen = true;
        } else if current.seen {
            if let Some((key, value)) = split_once_char(line.as_slice(), ':') {
                let value = trim_chars(value.as_slice());
                let key = trim_chars(key.as_slice());
                set_field(&mut current, key.as_slice(), value.as_slice());
            }
        }
        assert((ScanView { devices: devices_view(devices@), current: current.view() }) == line_spec(
            before,
            ls[i as int],
        ));
        i += 1;
    }
    assert(ls.take(all.len() as int) == ls);
    let ghost last = ScanView { devices: devices_view(devices@), current: current.view() };
    push_current(&mut devices, &mut current);
    assert(devices_view(devices@) == push_spec(last).devices);
    devices
}

/// The sum of the devices' sizes.
pub open spec fn total_size(devices: Seq<DeviceView>) -> nat
    decreases devices.len(),
{
    if devices.len() == 0 {
        0
    } else {
        total_size(devices.drop_last()) + devices.last().size_bytes as nat
    }
}

/// The installed total counts every device by its size alone, whatever else
/// is known of it: a single device weighs its size, one more device adds its
/// size, and two lists together weigh what each weighs.
pub proof fn lemma_total_size_sums(a: Seq<DeviceView>, b: Seq<DeviceView>, d: DeviceView)
    ensures
        total_size(Seq::<DeviceView>::empty()) == 0,
        total_size(seq![d]) == d.size_bytes as nat,
        total_size(a.push(d)) == total_size(a) + d.size_bytes as nat,
        total_size(a + b) == total_size(a) + total_size(b),
    decreases b.len(),
{
    assert(seq![d].drop_last() =~= Seq::<DeviceView>::empty());
    assert(a.push(d).drop_last() =~= a);
    if b.len() == 0 {
        assert(a + b =~= a);
    } else {
        lemma_total_size_sums(a, b.drop_last(), d);
        assert((a + b).drop_last() =~= a + b.drop_last());
        assert((a + b).last() == b.last());
    }
}

/// A device's speed: its configured speed, else its rated speed.
pub open spec fn device_speed(d: DeviceView) -> Option<u64> {
    match d.configured_speed_mts {
        Some(s) => Some(s),
        None => d.speed_mts,
    }
}

/// The larger of two optional speeds (none only when both are none).
pub open spec fn max_speed(a: Option<u64>, b: Option<u64>) -> Option<u64> {
    match (a, b) {
        (Some(x), Some(y)) => Some(if x >= y { x } else { y }),
        (Some(x), None) => Some(x),
        (None, y) => y,
    }
}

/// The fastest device speed, none when no device has a speed.
pub open spec fn fastest(devices: Seq<DeviceView>) -> Option<u64>
    decreases devices.len(),
{
    if devices.len() == 0 {
        None
    } else {
        max_speed(fastest(devices.drop_last()), device_speed(devices.last()))
    }
}

/// The fastest speed is at least every device's speed and is one of them;
/// it is none only when no device has a speed.
pub proof fn lemma_fastest_is_max(ds: Seq<DeviceView>)
    ensures
        forall|i: int|
            0 <= i < ds.len() && #[trigger] device_speed(ds[i]) is Some ==> fastest(ds) is Some
                && device_speed(ds[i])->0 <= fastest(ds)->0,
        fastest(ds) is Some ==> exists|i: int|
            0 <= i < ds.len() && #[trigger] device_speed(ds[i]) == fastest(ds),
        fastest(ds) is None ==> forall|i: int|
            0 <= i < ds.len() ==> #[trigger] device_speed(ds[i]) is None,
    decreases ds.len(),
{
    if ds.len() > 0 {
        let init = ds.drop_last();
        let n = ds.len() - 1;
        lemma_fastest_is_max(init);
        assert forall|i: int|
            0 <= i < ds.len() && #[trigger] device_speed(ds[i]) is Some implies fastest(ds) is Some
                && device_speed(ds[i])->0 <= fastest(ds)->0 by {
            if i < n {
                assert(init[i] == ds[i]);
            }
        }
        if fastest(ds) is Some {
            if fastest(ds) == device_speed(ds[n]) {
                assert(device_speed(ds[n]) == fastest(ds));
            } else {
                let i = choose|i: int| 0 <= i < init.len() && #[trigger] device_speed(init[i]) == fastest(init);
                assert(init[i] == ds[i]);
                assert(device_speed(ds[i]) == fastest(ds));
            }
        } else {
            assert forall|i: int| 0 <= i < ds.len() implies #[trigger] device_speed(ds[i]) is None by {
                if i < n {
                    assert(init[i] == ds[i]);
                }
            }
        }
    }
}

/// The devices' installed capacity and fastest speed; the devices are kept as given.
pub fn summarize_devices(devices: Vec<MemoryDevice>) -> (details: MemoryDetails)
    requires
        total_size(devices_view(devices@)) <= u64::MAX,
    ensures
        details.total_installed_bytes == total_size(devices_view(devices@)),
        details.configured_speed_mts == fastest(devices_view(devices@)),
        details.devices@ == devices@,
{
    let ghost dv = devices_view(devices@);
    let mut total: u64 = 0;
    let mut speed: Option<u64> = None;
    let mut i: usize = 0;
    while i < devices.len()
        invariant
            dv == devices_view(devices@),
            total_size(dv) <= u64::MAX,
            i <= devices.len(),
            total as nat == total_size(dv.take(i as int)),
            speed == fastest(dv.take(i as int)),
        decreases devices.len() - i,
    {
        assert(dv.take(i + 1).drop_last() == dv.take(i as int));
        assert(dv[i as int] == devices@[i as int]@);
        proof {
            lemma_total_size_prefix(dv, i + 1);
        }
        total = total + devices[i].size_bytes;
        let s = match devices[i].configured_speed_mts {
            Some(s) => Some(s),
            None => devices[i].speed_mts,
        };
        speed = match (speed, s) {
            (Some(x), Some(y)) => Some(if x >= y { x } else { y }),
            (Some(x), None) => Some(x),
            (None, y) => y,
        };
        i += 1;
    }
    assert(dv.take(devices.len() as int) == dv);
    MemoryDetails { total_installed_bytes: total, configured_speed_mts: speed, devices }
}

/// A prefix never weighs more than the whole.
proof fn lemma_total_size_prefix(s: Seq<DeviceView>, n: int)
    requires
        0 <= n <= s.len(),
    ensures
        total_size(s.take(n)) <= total_size(s),
    decreases s.len() - n,
{
    if n < s.len() {
        lemma_total_size_prefix(s, n + 1);
        assert(s.take(n + 1).drop_last() == s.take(n));
    } else {
        assert(s.take(n) == s);
    }
}

} // verus!
