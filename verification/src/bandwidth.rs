//! Memory-bandwidth counters: the PMU event metadata in sysfs (event formats,
//! event specs, cpu masks), the units counters are scaled in, and how two
//! samples are paired and differenced.
use vstd::prelude::*;

use crate::num::{parse_i32_chars, parse_i32_dec, parse_u64_chars, parse_u64_dec, parse_unsigned, parse_unsigned_chars};
use crate::order::{sort_by_keys, sorted_positions};
use crate::text::{
    chars_of, eq_str, slice_chars, split, split_char, split_once, split_once_char, string_of, trim,
    trim_chars,
};

verus! {

/// A named bit field of a PMU event's `config` word (`format/<name>` holds
/// `config:<start>-<end>` or `config:<bit>`).
#[derive(Debug, Clone, PartialEq, Eq)]
pub struct EventFormat {
    pub name: String,
    pub start_bit: u8,
    pub end_bit: u8,
}

/// An event format with its name as characters.
pub struct FormatView {
    pub name: Seq<char>,
    pub start_bit: u8,
    pub end_bit: u8,
}

impl View for EventFormat {
    type V = FormatView;

    open spec fn view(&self) -> FormatView {
        FormatView { name: self.name@, start_bit: self.start_bit, end_bit: self.end_bit }
    }
}

/// The views of a list of formats.
pub open spec fn formats_view(v: Seq<EventFormat>) -> Seq<FormatView> {
    v.map_values(|f: EventFormat| f@)
}

/// `<u8>::from_str(s).ok()`.
pub open spec fn parse_u8_dec(s: Seq<char>) -> Option<u8> {
    match parse_unsigned(s, 10, 255) {
        Some(v) => Some(v as u8),
        None => None,
    }
}

/// A sysfs number: hexadecimal after a `0x` prefix, decimal otherwise.
pub open spec fn sysfs_u64(s: Seq<char>) -> Option<u64> {
    if s.len() >= 2 && s[0] == '0' && s[1] == 'x' {
        match parse_unsigned(s.skip(2), 16, u64::MAX as nat) {
            Some(v) => Some(v as u64),
            None => None,
        }
    } else {
        parse_u64_dec(s)
    }
}

/// A sysfs number that fits in `u32`.
pub open spec fn sysfs_u32(s: Seq<char>) -> Option<u32> {
    match sysfs_u64(s) {
        Some(v) => if v <= u32::MAX {
            Some(v as u32)
        } else {
            None
        },
        None => None,
    }
}

/// A bit range `start-end`, or a single bit `b` meaning `b-b`.
pub open spec fn bit_range_of(s: Seq<char>) -> Option<(u8, u8)> {
    match split_once(s, '-') {
        Some((a, b)) => match (parse_u8_dec(a), parse_u8_dec(b)) {
            (Some(x), Some(y)) => Some((x, y)),
            _ => None,
        },
        None => match parse_u8_dec(s) {
            Some(x) => Some((x, x)),
            None => None,
        },
    }
}

/// The first CPU of a cpumask list such as `0-3,8`: the text before the first
/// `','`, then before the first `'-'`, trimmed, as an `i32`.
pub open spec fn first_cpu_of(s: Seq<char>) -> Option<i32> {
    parse_i32_dec(trim(split(split(s, ',')[0], '-')[0]))
}

/// The first format named `name`.
pub open spec fn find_format(fs: Seq<FormatView>, name: Seq<char>) -> Option<FormatView>
    decreases fs.len(),
{
    if fs.len() == 0 {
        None
    } else if fs[0].name == name {
        Some(fs[0])
    } else {
        find_format(fs.drop_first(), name)
    }
}

/// `value` cut to the width of the field `start..=end` and moved to `start`
/// (for a field with `start <= end`, `start < 64`, and fewer than 256 bits).
pub open spec fn field_bits(value: u64, start: u8, end: u8) -> u64 {
    (value & low_mask((end - start + 1) as u64)) << (start as u64)
}

/// The lowest `width` bits set.
pub open spec fn low_mask(width: u64) -> u64 {
    if width >= 64 {
        u64::MAX
    } else {
        ((1u64 << width) - 1) as u64
    }
}

/// A field within the 64-bit word holds its value cut to the field's width at
/// bits `start..=end` and nothing elsewhere: shifted back down it gives the
/// value cut to the width, and every bit outside the field is clear.
pub proof fn lemma_field_bits_round_trip(value: u64, start: u8, end: u8)
    requires
        start <= end < 64,
    ensures
        (field_bits(value, start, end) >> (start as u64)) == value & low_mask(
            (end - start + 1) as u64,
        ),
        field_bits(value, start, end) & !(low_mask((end - start + 1) as u64) << (start as u64))
            == 0,
{
    let width: u64 = (end - start + 1) as u64;
    let s: u64 = start as u64;
    let m = low_mask(width);
    assert(width + s <= 64);
    assert(m == if width >= 64 { u64::MAX } else { ((1u64 << width) - 1) as u64 });
    assert(((value & m) << s) >> s == value & m) by (bit_vector)
        requires
            m == if width >= 64 { u64::MAX } else { ((1u64 << width) - 1) as u64 },
            width + s <= 64,
            width >= 1,
    ;
    assert(((value & m) << s) & !(m << s) == 0) by (bit_vector);
}

/// Progress through an event spec: the config word so far, a rejected spec,
/// or a field whose width or position does not fit the arithmetic (on which
/// the computation cannot proceed).
#[derive(Debug, Clone, Copy, PartialEq, Eq)]
pub enum PackProgress {
    Running(u64),
    Rejected,
    OutOfRange,
}

/// The effect of one comma-separated piece `name=value` of an event spec.
/// Blank pieces are skipped; a piece without `=`, with an unreadable value,
/// naming no known format, or naming one whose end precedes its start rejects
/// the spec.
pub open spec fn pack_step(acc: PackProgress, piece: Seq<char>, fs: Seq<FormatView>) -> PackProgress {
    match acc {
        PackProgress::Running(config) => {
            let p = trim(piece);
            if p.len() == 0 {
                acc
            } else {
                match split_once(p, '=') {
                    None => PackProgress::Rejected,
                    Some((name, value)) => match sysfs_u64(trim(value)) {
                        None => PackProgress::Rejected,
                        Some(v) => match find_format(fs, trim(name)) {
                            None => PackProgress::Rejected,
                            Some(f) => if f.end_bit < f.start_bit {
                                PackProgress::Rejected
                            } else if f.end_bit - f.start_bit == 255 || f.start_bit >= 64 {
                                PackProgress::OutOfRange
                            } else {
                                PackProgress::Running(config | field_bits(v, f.start_bit, f.end_bit))
                            },
                        },
                    },
                }
            }
        },
        _ => acc,
    }
}

/// Where an event spec like `event=0xff,umask=0x20` leads, piece by piece.
pub open spec fn pack_progress(spec: Seq<char>, fs: Seq<FormatView>) -> PackProgress {
    split(spec, ',').fold_left(
        PackProgress::Running(0),
        |acc: PackProgress, piece: Seq<char>| pack_step(acc, piece, fs),
    )
}

/// Once an event spec is rejected or out of range, it stays so.
proof fn lemma_pack_absorbs(s: Seq<Seq<char>>, fs: Seq<FormatView>, acc: PackProgress)
    requires
        !(acc is Running),
    ensures
        s.fold_left(acc, |a: PackProgress, piece: Seq<char>| pack_step(a, piece, fs)) == acc,
    decreases s.len(),
{
    if s.len() > 0 {
        lemma_pack_absorbs(s.drop_last(), fs, acc);
    }
}

/// The first `c`-separated piece of `s` is what comes before the first `c`.
proof fn lemma_split_first(s: Seq<char>, c: char)
    ensures
        split(s, c).len() >= 1,
        split(s, c)[0] == match s.index_of_first(c) {
            Some(i) => s.take(i),
            None => s,
        },
{
    s.index_of_first_ensures(c);
}

/// `<u8>::from_str`.
fn parse_u8_chars(s: &[char]) -> (r: Option<u8>)
    ensures
        r == parse_u8_dec(s@),
{
    match parse_unsigned_chars(s, 10, 255) {
        Some(v) => Some(v as u8),
        None => None,
    }
}

/// A sysfs number: hexadecimal after `0x`, decimal otherwise.
fn parse_u64_text(value: &[char]) -> (r: Option<u64>)
    ensures
        r == sysfs_u64(value@),
{
    if value.len() >= 2 && value[0] == '0' && value[1] == 'x' {
        let hex = slice_chars(value, 2, value.len());
        assert(hex@ == value@.skip(2));
        match parse_unsigned_chars(hex.as_slice(), 16, u64::MAX) {
            Some(v) => Some(v),
            None => None,
        }
    } else {
        parse_u64_chars(value)
    }
}

/// A sysfs number that fits in `u32`.
fn parse_u32_text(value: &[char]) -> (r: Option<u32>)
    ensures
        r == sysfs_u32(value@),
{
    match parse_u64_text(value) {
        Some(v) => if v <= u32::MAX as u64 {
            Some(v as u32)
        } else {
            None
        },
        None => None,
    }
}

/// A bit range `start-end` or a single bit.
fn bit_range_text(value: &[char]) -> (r: Option<(u8, u8)>)
    ensures
        r == bit_range_of(value@),
{
    match split_once_char(value, '-') {
        Some((start, end)) => {
            let a = parse_u8_chars(start.as_slice());
            let b = parse_u8_chars(end.as_slice());
            match (a, b) {
                (Some(x), Some(y)) => Some((x, y)),
                _ => None,
            }
        },
        None => match parse_u8_chars(value) {
            Some(bit) => Some((bit, bit)),
            None => None,
        },
    }
}

/// The first CPU of a cpumask list.
fn first_cpu_text(value: &[char]) -> (r: Option<i32>)
    ensures
        r == first_cpu_of(value@),
{
    let by_comma = split_char(value, ',');
    proof {
        lemma_split_first(value@, ',');
    }
    let first = &by_comma[0];
    let by_dash = split_char(first.as_slice(), '-');
    proof {
        lemma_split_first(first@, '-');
    }
    let cpu = trim_chars(by_dash[0].as_slice());
    parse_i32_chars(cpu.as_slice())
}

/// A sysfs number: hexadecimal after `0x`, decimal otherwise.
pub fn parse_u64(value: &str) -> (r: Option<u64>)
    ensures
        r == sysfs_u64(value@),
{
    parse_u64_text(chars_of(value).as_slice())
}

/// A sysfs number that fits in `u32`.
pub fn parse_u32(value: &str) -> (r: Option<u32>)
    ensures
        r == sysfs_u32(value@),
{
    parse_u32_text(chars_of(value).as_slice())
}

/// A bit range `start-end` or a single bit, each a decimal `u8`.
pub fn parse_bit_range(value: &str) -> (r: Option<(u8, u8)>)
    ensures
        r == bit_range_of(value@),
{
    bit_range_text(chars_of(value).as_slice())
}

/// The first CPU of a cpumask list such as `0-3,8`.
pub fn parse_first_cpu(value: &str) -> (r: Option<i32>)
    ensures
        r == first_cpu_of(value@),
{
    first_cpu_text(chars_of(value).as_slice())
}

/// The first format named `name`, by position.
fn find_format_index(formats: &[EventFormat], name: &[char]) -> (r: Option<usize>)
    ensures
        match r {
            Some(i) => i < formats.len() && find_format(formats_view(formats@), name@) == Some(
                formats@[i as int]@,
            ),
            None => find_format(formats_view(formats@), name@) is None,
        },
{
    let ghost fs = formats_view(formats@);
    let mut i: usize = 0;
    assert(fs.skip(0) == fs);
    while i < formats.len()
        invariant
            fs == formats_view(formats@),
            i <= formats.len(),
            find_format(fs, name@) == find_format(fs.skip(i as int), name@),
        decreases formats.len() - i,
    {
        let ghost rest = fs.skip(i as int);
        assert(rest[0] == formats@[i as int]@);
        assert(rest.drop_first() == fs.skip(i + 1));
        let fname = chars_of(formats[i].name.as_str());
        if chars_eq_vec(&fname, name) {
            return Some(i);
        }
        i += 1;
    }
    assert(fs.skip(i as int).len() == 0);
    None
}

fn chars_eq_vec(a: &Vec<char>, b: &[char]) -> (r: bool)
    ensures
        r == (a@ == b@),
{
    crate::text::chars_eq(a.as_slice(), b)
}

/// `value` cut to the field `start..=end` and moved into place.
fn place_field(value: u64, start: u8, end: u8) -> (r: u64)
    requires
        start <= end,
        end - start < 255,
        start < 64,
    ensures
        r == field_bits(value, start, end),
{
    let width: u64 = (end - start + 1) as u64;
    let mask: u64 = if width >= 64 {
        u64::MAX
    } else {
        assert(1u64 << width >= 1) by (bit_vector)
            requires
                width < 64,
        ;
        (1u64 << width) - 1
    };
    (value & mask) << (start as u64)
}

/// Where an event spec leads (see `pack_progress`): the config word, a
/// rejection, or a field out of range.
pub fn pack_progress_of(spec: &str, formats: &[EventFormat]) -> (r: PackProgress)
    ensures
        r == pack_progress(spec@, formats_view(formats@)),
{
    let ghost fs = formats_view(formats@);
    let ghost f = |acc: PackProgress, piece: Seq<char>| pack_step(acc, piece, fs);
    let text = chars_of(spec);
    let pieces = split_char(text.as_slice(), ',');
    let ghost ps = split(spec@, ',');
    let mut config: u64 = 0;
    let mut i: usize = 0;
    while i < pieces.len()
        invariant
            fs == formats_view(formats@),
            f == (|acc: PackProgress, piece: Seq<char>| pack_step(acc, piece, fs)),
            ps == split(spec@, ','),
            pieces@.len() == ps.len(),
            forall|j: int| 0 <= j < pieces@.len() ==> #[trigger] pieces@[j]@ == ps[j],
            i <= pieces.len(),
            ps.take(i as int).fold_left(PackProgress::Running(0), f) == PackProgress::Running(config),
        decreases pieces.len() - i,
    {
        assert(pieces@[i as int]@ == ps[i as int]);
        assert(ps.take(i + 1).drop_last() == ps.take(i as int));
        let ghost next = ps.take(i + 1).fold_left(PackProgress::Running(0), f);
        assert(next == pack_step(PackProgress::Running(config), ps[i as int], fs));
        proof {
            ps.lemma_fold_left_split(PackProgress::Running(0), f, i + 1);
            assert(ps.subrange(0, i + 1) == ps.take(i + 1));
            if !(next is Running) {
                lemma_pack_absorbs(ps.subrange(i + 1, ps.len() as int), fs, next);
            }
        }
        let piece = trim_chars(pieces[i].as_slice());
        if piece.len() > 0 {
            let (name, value) = match split_once_char(piece.as_slice(), '=') {
                Some(parts) => parts,
                None => return PackProgress::Rejected,
            };
            let value = match parse_u64_text(trim_chars(value.as_slice()).as_slice()) {
                Some(v) => v,
                None => return PackProgress::Rejected,
            };
            let index = match find_format_index(formats, trim_chars(name.as_slice()).as_slice()) {
                Some(k) => k,
                None => return PackProgress::Rejected,
            };
            let format = &formats[index];
            if format.end_bit < format.start_bit {
                return PackProgress::Rejected;
            }
            if format.end_bit - format.start_bit == 255 || format.start_bit >= 64 {
                return PackProgress::OutOfRange;
            }
            config = config | place_field(value, format.start_bit, format.end_bit);
        }
        i += 1;
    }
    assert(ps.take(pieces.len() as int) == ps);
    PackProgress::Running(config)
}

/// The config word an event spec packs into, none where it is rejected.
pub open spec fn pack_result(spec: Seq<char>, fs: Seq<FormatView>) -> Option<u64> {
    match pack_progress(spec, fs) {
        PackProgress::Running(c) => Some(c),
        _ => None,
    }
}

/// Packs an event spec such as `event=0xff,umask=0x20` into the event's
/// `config` word, each value cut to its field's width and placed at its field's
/// start bit; `None` when a piece lacks `=`, its value is unreadable, or it
/// names no format (or one whose end precedes its start). A field of 256 bits
/// or starting beyond bit 63 cannot be packed (see `pack_progress_of`).
pub fn pack_config(spec: &str, formats: &[EventFormat]) -> (r: Option<u64>)
    requires
        !(pack_progress(spec@, formats_view(formats@)) is OutOfRange),
    ensures
        r == pack_result(spec@, formats_view(formats@)),
{
    match pack_progress_of(spec, formats) {
        PackProgress::Running(c) => Some(c),
        _ => None,
    }
}

/// Text joined by `c`: the pieces of the first text, then those of the second.
pub proof fn lemma_split_concat(a: Seq<char>, b: Seq<char>, c: char)
    ensures
        split(a + seq![c] + b, c) == split(a, c) + split(b, c),
    decreases a.len(),
{
    let s = a + seq![c] + b;
    a.index_of_first_ensures(c);
    match a.index_of_first(c) {
        Some(i) => {
            assert forall|j: int| 0 <= j < i implies s[j] != c by {
                assert(s[j] == a[j]);
            }
            crate::text::lemma_first_index_is(s, c, i);
            let rest = a.skip(i + 1);
            lemma_split_concat(rest, b, c);
            assert(s.take(i) =~= a.take(i));
            assert(s.skip(i + 1) =~= rest + seq![c] + b);
            assert(split(s, c) == seq![a.take(i)] + split(rest + seq![c] + b, c));
            assert(split(a, c) == seq![a.take(i)] + split(rest, c));
            assert(split(s, c) =~= split(a, c) + split(b, c));
        },
        None => {
            assert forall|j: int| 0 <= j < a.len() implies s[j] != c by {
                assert(s[j] == a[j]);
                if a[j] == c {
                    assert(a.contains(c));
                }
            }
            crate::text::lemma_first_index_is(s, c, a.len() as int);
            assert(s.take(a.len() as int) =~= a);
            assert(s.skip(a.len() as int + 1) =~= b);
            assert(split(s, c) =~= split(a, c) + split(b, c));
        },
    }
}

/// Packing pieces onto a config word `c` ORs `c` into what they pack onto
/// zero; a rejection or a field out of range is the same either way.
proof fn lemma_pack_from(s: Seq<Seq<char>>, c: u64, fs: Seq<FormatView>)
    ensures
        s.fold_left(PackProgress::Running(c), |a: PackProgress, piece: Seq<char>| pack_step(a, piece, fs))
            == match s.fold_left(
            PackProgress::Running(0),
            |a: PackProgress, piece: Seq<char>| pack_step(a, piece, fs),
        ) {
            PackProgress::Running(x) => PackProgress::Running(c | x),
            other => other,
        },
    decreases s.len(),
{
    if s.len() == 0 {
        assert(c | 0 == c) by (bit_vector);
    } else {
        let g = |a: PackProgress, piece: Seq<char>| pack_step(a, piece, fs);
        lemma_pack_from(s.drop_last(), c, fs);
        let p = s.drop_last().fold_left(PackProgress::Running(0), g);
        match p {
            PackProgress::Running(x) => {
                let piece = s.last();
                let t = trim(piece);
                if t.len() > 0 {
                    match split_once(t, '=') {
                        Some((name, value)) => match sysfs_u64(trim(value)) {
                            Some(v) => match find_format(fs, trim(name)) {
                                Some(f) => {
                                    let fb = field_bits(v, f.start_bit, f.end_bit);
                                    assert((c | x) | fb == c | (x | fb)) by (bit_vector);
                                },
                                None => {},
                            },
                            None => {},
                        },
                        None => {},
                    }
                }
            },
            _ => {},
        }
    }
}

/// An event spec `a,b` packs as `a` and then `b`: the OR of the two config
/// words where both pack; otherwise the first rejection or field out of
/// range, in that order.
pub proof fn lemma_pack_concat(a: Seq<char>, b: Seq<char>, fs: Seq<FormatView>)
    ensures
        pack_progress(a + seq![','] + b, fs) == match pack_progress(a, fs) {
            PackProgress::Running(x) => match pack_progress(b, fs) {
                PackProgress::Running(y) => PackProgress::Running(x | y),
                other => other,
            },
            other => other,
        },
{
    let g = |acc: PackProgress, piece: Seq<char>| pack_step(acc, piece, fs);
    lemma_split_concat(a, b, ',');
    let sa = split(a, ',');
    let sb = split(b, ',');
    let l = sa + sb;
    l.lemma_fold_left_split(PackProgress::Running(0), g, sa.len() as int);
    assert(l.subrange(0, sa.len() as int) == sa);
    assert(l.subrange(sa.len() as int, l.len() as int) == sb);
    match pack_progress(a, fs) {
        PackProgress::Running(x) => lemma_pack_from(sb, x, fs),
        other => lemma_pack_absorbs(sb, fs, other),
    }
}

/// Every format ends within the 64-bit config word.
pub open spec fn formats_fit(fs: Seq<FormatView>) -> bool {
    forall|i: int| 0 <= i < fs.len() ==> (#[trigger] fs[i]).end_bit <= 63
}

proof fn lemma_find_format_in(fs: Seq<FormatView>, name: Seq<char>)
    ensures
        find_format(fs, name) matches Some(f) ==> exists|i: int| 0 <= i < fs.len() && fs[i] == f,
    decreases fs.len(),
{
    if fs.len() > 0 && fs[0].name != name {
        lemma_find_format_in(fs.drop_first(), name);
        if find_format(fs, name) is Some {
            let i = choose|i: int| 0 <= i < fs.len() - 1 && fs.drop_first()[i] == find_format(fs, name)->0;
            assert(fs[i + 1] == fs.drop_first()[i]);
        }
    } else if fs.len() > 0 {
        assert(fs[0] == find_format(fs, name)->0);
    }
}

/// With formats that end within the word, no piece is out of range.
proof fn lemma_pack_in_range(s: Seq<Seq<char>>, fs: Seq<FormatView>)
    requires
        formats_fit(fs),
    ensures
        !(s.fold_left(PackProgress::Running(0), |a: PackProgress, piece: Seq<char>| pack_step(a, piece, fs))
            is OutOfRange),
    decreases s.len(),
{
    if s.len() > 0 {
        lemma_pack_in_range(s.drop_last(), fs);
        let t = trim(s.last());
        match split_once(t, '=') {
            Some((name, value)) => {
                lemma_find_format_in(fs, trim(name));
            },
            None => {},
        }
    }
}

/// With formats that end within the 64-bit word, no event spec reaches a field
/// out of range, so `pack_config` can be called on it.
pub proof fn lemma_pack_fits(spec: Seq<char>, fs: Seq<FormatView>)
    requires
        formats_fit(fs),
    ensures
        !(pack_progress(spec, fs) is OutOfRange),
{
    lemma_pack_in_range(split(spec, ','), fs);
}

/// With formats that end within the 64-bit word, an event spec `a,b` packs
/// into the OR of what `a` and `b` pack into, and into nothing where either is
/// rejected; so `a,b` and `b,a` pack alike.
pub proof fn lemma_pack_config_concat(a: Seq<char>, b: Seq<char>, fs: Seq<FormatView>)
    requires
        formats_fit(fs),
    ensures
        !(pack_progress(a + seq![','] + b, fs) is OutOfRange),
        pack_result(a + seq![','] + b, fs) == match (pack_result(a, fs), pack_result(b, fs)) {
            (Some(x), Some(y)) => Some(x | y),
            _ => None,
        },
        pack_result(a + seq![','] + b, fs) == pack_result(b + seq![','] + a, fs),
{
    lemma_pack_concat(a, b, fs);
    lemma_pack_concat(b, a, fs);
    lemma_pack_in_range(split(a, ','), fs);
    lemma_pack_in_range(split(b, ','), fs);
    lemma_pack_in_range(split(a + seq![','] + b, ','), fs);
    if let (PackProgress::Running(x), PackProgress::Running(y)) = (pack_progress(a, fs), pack_progress(b, fs)) {
        assert(x | y == y | x) by (bit_vector);
    }
}

/// How a counter's unit converts to MiB: a power of 1024.
#[derive(Debug, Clone, Copy, PartialEq, Eq)]
pub enum MibScale {
    /// The unit is MiB.
    Mib,
    /// The unit is GiB: times 1024.
    Gib,
    /// The unit is KiB: divided by 1024.
    Kib,
    /// The unit is bytes: divided by 1024 twice.
    Bytes,
}

/// The units a counter can be read in: `MiB`, `GiB`, `KiB`, and bytes
/// (`B`, `Bytes`, `bytes`); other units are not understood.
pub open spec fn mib_scale_of(unit: Seq<char>) -> Option<MibScale> {
    if unit == "MiB"@ {
        Some(MibScale::Mib)
    } else if unit == "GiB"@ {
        Some(MibScale::Gib)
    } else if unit == "KiB"@ {
        Some(MibScale::Kib)
    } else if unit == "B"@ || unit == "Bytes"@ || unit == "bytes"@ {
        Some(MibScale::Bytes)
    } else {
        None
    }
}

/// How a counter unit converts to MiB.
pub fn unit_to_mib(unit: &str) -> (r: Option<MibScale>)
    ensures
        r == mib_scale_of(unit@),
{
    let u = chars_of(unit);
    if eq_str(u.as_slice(), "MiB") {
        Some(MibScale::Mib)
    } else if eq_str(u.as_slice(), "GiB") {
        Some(MibScale::Gib)
    } else if eq_str(u.as_slice(), "KiB") {
        Some(MibScale::Kib)
    } else if eq_str(u.as_slice(), "B") || eq_str(u.as_slice(), "Bytes") || eq_str(
        u.as_slice(),
        "bytes",
    ) {
        Some(MibScale::Bytes)
    } else {
        None
    }
}

/// How far a free-running counter moved from `prev` to `curr`, counting a
/// wrap past `u64::MAX` as continuing from zero.
pub fn counter_delta(prev: u64, curr: u64) -> (delta: u64)
    ensures
        delta as int == if curr >= prev {
            curr - prev
        } else {
            curr - prev + 0x1_0000_0000_0000_0000
        },
{
    curr.wrapping_sub(prev)
}

/// The position of the last name equal to `name`.
pub open spec fn last_index(names: Seq<Seq<char>>, name: Seq<char>) -> Option<int>
    decreases names.len(),
{
    if names.len() == 0 {
        None
    } else if names.last() == name {
        Some(names.len() - 1)
    } else {
        last_index(names.drop_last(), name)
    }
}

/// For each current controller, in order, the previous sample of the same
/// name (the last one, where a name repeats) and the current one; current
/// controllers with no previous sample are left out.
pub open spec fn pairs_of(prev: Seq<Seq<char>>, curr: Seq<Seq<char>>) -> Seq<(int, int)>
    decreases curr.len(),
{
    if curr.len() == 0 {
        Seq::empty()
    } else {
        let rest = pairs_of(prev, curr.drop_last());
        match last_index(prev, curr.last()) {
            Some(i) => rest.push((i, curr.len() - 1)),
            None => rest,
        }
    }
}

/// `last_index` finds the last position holding `name`, and none exactly
/// when no position does.
pub proof fn lemma_last_index(names: Seq<Seq<char>>, name: Seq<char>)
    ensures
        last_index(names, name) matches Some(i) ==> 0 <= i < names.len() && names[i] == name
            && forall|j: int| i < j < names.len() ==> #[trigger] names[j] != name,
        last_index(names, name) is None ==> forall|j: int|
            0 <= j < names.len() ==> #[trigger] names[j] != name,
    decreases names.len(),
{
    if names.len() > 0 {
        let init = names.drop_last();
        lemma_last_index(init, name);
        assert forall|j: int| 0 <= j < init.len() implies init[j] == names[j] by {}
    }
}

/// Pairing by name: each pair joins a previous and a current sample of the
/// same controller, the current samples in their order, and every current
/// controller that has a previous sample is paired (with the last such one).
pub proof fn lemma_pairs_of(prev: Seq<Seq<char>>, curr: Seq<Seq<char>>)
    ensures
        forall|k: int|
            0 <= k < pairs_of(prev, curr).len() ==> {
                let (i, j) = #[trigger] pairs_of(prev, curr)[k];
                &&& 0 <= i < prev.len()
                &&& 0 <= j < curr.len()
                &&& prev[i] == curr[j]
                &&& last_index(prev, curr[j]) == Some(i)
            },
        forall|k1: int, k2: int|
            0 <= k1 < k2 < pairs_of(prev, curr).len() ==> (#[trigger] pairs_of(prev, curr)[k1]).1
                < (#[trigger] pairs_of(prev, curr)[k2]).1,
        forall|j: int|
            0 <= j < curr.len() && (exists|i: int| 0 <= i < prev.len() && prev[i] == #[trigger] curr[j])
                ==> exists|k: int|
                0 <= k < pairs_of(prev, curr).len() && (#[trigger] pairs_of(prev, curr)[k]).1 == j,
    decreases curr.len(),
{
    if curr.len() > 0 {
        let init = curr.drop_last();
        let n = curr.len() - 1;
        let rest = pairs_of(prev, init);
        let all = pairs_of(prev, curr);
        lemma_pairs_of(prev, init);
        lemma_last_index(prev, curr[n]);
        assert forall|j: int| 0 <= j < init.len() implies init[j] == curr[j] by {}
        assert forall|k: int| 0 <= k < rest.len() implies (#[trigger] rest[k]).1 < n by {
            assert(rest[k].1 < init.len());
        }
        assert forall|k: int|
            0 <= k < all.len() implies {
                let (i, j) = #[trigger] all[k];
                &&& 0 <= i < prev.len()
                &&& 0 <= j < curr.len()
                &&& prev[i] == curr[j]
                &&& last_index(prev, curr[j]) == Some(i)
            } by {
            if k < rest.len() {
                assert(all[k] == rest[k]);
                assert(init[rest[k].1] == curr[rest[k].1]);
            }
        }
        assert forall|k1: int, k2: int|
            0 <= k1 < k2 < all.len() implies (#[trigger] all[k1]).1 < (#[trigger] all[k2]).1 by {
            assert(all[k1] == rest[k1]);
            if k2 < rest.len() {
                assert(all[k2] == rest[k2]);
            }
        }
        assert forall|j: int|
            0 <= j < curr.len() && (exists|i: int| 0 <= i < prev.len() && prev[i] == #[trigger] curr[j])
                implies exists|k: int| 0 <= k < all.len() && (#[trigger] all[k]).1 == j by {
            if j < n {
                assert(init[j] == curr[j]);
                let i = choose|i: int| 0 <= i < prev.len() && prev[i] == curr[j];
                assert(prev[i] == init[j]);
                let k = choose|k: int| 0 <= k < rest.len() && (#[trigger] rest[k]).1 == j;
                assert(all[k] == rest[k]);
            } else {
                let i = choose|i: int| 0 <= i < prev.len() && prev[i] == curr[j];
                assert(last_index(prev, curr[n]) is Some);
                assert(all[rest.len() as int].1 == n);
            }
        }
    }
}

/// The views of a list of names.
pub open spec fn names_view(v: Seq<String>) -> Seq<Seq<char>> {
    v.map_values(|s: String| s@)
}

fn last_index_of(names: &Vec<String>, name: &String) -> (r: Option<usize>)
    ensures
        match r {
            Some(i) => i < names.len() && last_index(names_view(names@), name@) == Some(i as int),
            None => last_index(names_view(names@), name@) is None,
        },
{
    let ghost ns = names_view(names@);
    let mut k: usize = names.len();
    assert(ns.take(k as int) == ns);
    while k > 0
        invariant
            ns == names_view(names@),
            k <= names.len(),
            last_index(ns, name@) == last_index(ns.take(k as int), name@),
        decreases k,
    {
        let ghost t = ns.take(k as int);
        assert(t.last() == names@[k - 1]@);
        assert(t.drop_last() == ns.take(k - 1));
        if names[k - 1] == *name {
            return Some(k - 1);
        }
        k -= 1;
    }
    None
}

/// Pairs current controller samples with previous ones by name: for each
/// current name, in order, the index of the previous sample with that name and
/// the index of the current one.
pub fn pair_controllers(prev: &Vec<String>, curr: &Vec<String>) -> (r: Vec<(usize, usize)>)
    ensures
        r@.len() == pairs_of(names_view(prev@), names_view(curr@)).len(),
        forall|j: int|
            0 <= j < r@.len() ==> (#[trigger] r@[j]).0 as int == pairs_of(
                names_view(prev@),
                names_view(curr@),
            )[j].0 && r@[j].1 as int == pairs_of(names_view(prev@), names_view(curr@))[j].1,
{
    let ghost ps = names_view(prev@);
    let ghost cs = names_view(curr@);
    let mut r: Vec<(usize, usize)> = Vec::new();
    let mut j: usize = 0;
    while j < curr.len()
        invariant
            ps == names_view(prev@),
            cs == names_view(curr@),
            j <= curr.len(),
            r@.len() == pairs_of(ps, cs.take(j as int)).len(),
            forall|k: int|
                0 <= k < r@.len() ==> (#[trigger] r@[k]).0 as int == pairs_of(ps, cs.take(j as int))[k].0
                    && r@[k].1 as int == pairs_of(ps, cs.take(j as int))[k].1,
        decreases curr.len() - j,
    {
        let ghost t = cs.take(j + 1);
        assert(t.drop_last() == cs.take(j as int));
        assert(t.last() == curr@[j as int]@);
        match last_index_of(prev, &curr[j]) {
            Some(i) => {
                r.push((i, j));
            },
            None => {},
        }
        j += 1;
    }
    assert(cs.take(curr.len() as int) == cs);
    r
}

} // verus!

verus! {

/// The counters of one memory controller, by position in the counter list.
#[derive(Debug, Clone, PartialEq, Eq)]
pub struct CounterGroup {
    pub controller: String,
    pub read: Option<usize>,
    pub write: Option<usize>,
    pub total: Option<usize>,
}

/// The last of the first `n` counters that belongs to controller `c` and
/// counts event `event`.
pub open spec fn last_event(
    ctrls: Seq<Seq<char>>,
    names: Seq<Seq<char>>,
    c: Seq<char>,
    event: Seq<char>,
    n: nat,
) -> Option<int>
    decreases n,
{
    if n == 0 {
        None
    } else if ctrls[n - 1] == c && names[n - 1] == event {
        Some(n - 1)
    } else {
        last_event(ctrls, names, c, event, (n - 1) as nat)
    }
}

/// The view of an optional position.
pub open spec fn opt_pos(o: Option<usize>) -> Option<int> {
    match o {
        Some(i) => Some(i as int),
        None => None,
    }
}

/// The groups are in strictly ascending order of controller name.
#[verifier::opaque]
pub open spec fn groups_sorted(groups: Seq<CounterGroup>) -> bool {
    forall|k: int, l: int|
        0 <= k < l < groups.len() ==> crate::order::str_lt(
            (#[trigger] groups[k]).controller@,
            (#[trigger] groups[l]).controller@,
        )
}

/// Every group is of a controller named among the first `n` counters.
#[verifier::opaque]
pub open spec fn groups_named(groups: Seq<CounterGroup>, ctrls: Seq<Seq<char>>, n: nat) -> bool {
    forall|k: int|
        0 <= k < groups.len() ==> exists|i: int|
            0 <= i < n && ctrls[i] == (#[trigger] groups[k]).controller@
}

/// Every controller named among the first `n` counters has a group.
#[verifier::opaque]
pub open spec fn groups_cover(groups: Seq<CounterGroup>, ctrls: Seq<Seq<char>>, n: nat) -> bool {
    forall|i: int|
        0 <= i < n ==> exists|k: int|
            0 <= k < groups.len() && (#[trigger] groups[k]).controller@ == #[trigger] ctrls[i]
}

/// A group holds the last `data_read`, `data_write` and `data_total` counter
/// of its controller among the first `n` counters.
pub open spec fn group_counts(g: CounterGroup, ctrls: Seq<Seq<char>>, names: Seq<Seq<char>>, n: nat) -> bool {
    &&& opt_pos(g.read) == last_event(ctrls, names, g.controller@, "data_read"@, n)
    &&& opt_pos(g.write) == last_event(ctrls, names, g.controller@, "data_write"@, n)
    &&& opt_pos(g.total) == last_event(ctrls, names, g.controller@, "data_total"@, n)
}

/// Every group holds its controller's counters.
#[verifier::opaque]
pub open spec fn groups_count(
    groups: Seq<CounterGroup>,
    ctrls: Seq<Seq<char>>,
    names: Seq<Seq<char>>,
    n: nat,
) -> bool {
    forall|k: int| 0 <= k < groups.len() ==> group_counts(#[trigger] groups[k], ctrls, names, n)
}

/// `groups` gathers the first `n` counters by controller: one group per
/// controller named among them, in ascending order of controller name, each
/// holding the last `data_read`, `data_write` and `data_total` counter of its
/// controller.
pub open spec fn groups_of(
    groups: Seq<CounterGroup>,
    ctrls: Seq<Seq<char>>,
    names: Seq<Seq<char>>,
    n: nat,
) -> bool {
    &&& groups_sorted(groups)
    &&& groups_named(groups, ctrls, n)
    &&& groups_cover(groups, ctrls, n)
    &&& groups_count(groups, ctrls, names, n)
}

/// The event counted by the counter named `name`, for a controller `c`, over
/// one more counter: unchanged unless the new counter is of `c` and `event`.
proof fn lemma_last_event_step(
    ctrls: Seq<Seq<char>>,
    names: Seq<Seq<char>>,
    c: Seq<char>,
    event: Seq<char>,
    n: nat,
)
    requires
        n < ctrls.len(),
        n < names.len(),
    ensures
        last_event(ctrls, names, c, event, n + 1) == if ctrls[n as int] == c && names[n as int]
            == event {
            Some(n as int)
        } else {
            last_event(ctrls, names, c, event, n)
        },
{
}

/// No counter of a controller not among the first `n` counters.
proof fn lemma_last_event_absent(
    ctrls: Seq<Seq<char>>,
    names: Seq<Seq<char>>,
    c: Seq<char>,
    event: Seq<char>,
    n: nat,
)
    requires
        n <= ctrls.len(),
        forall|i: int| 0 <= i < n ==> ctrls[i] != c,
    ensures
        last_event(ctrls, names, c, event, n) is None,
    decreases n,
{
    if n > 0 {
        lemma_last_event_absent(ctrls, names, c, event, (n - 1) as nat);
    }
}


/// Two groups of a gathering never share a controller.
proof fn lemma_groups_distinct(groups: Seq<CounterGroup>, k: int, l: int)
    requires
        groups_sorted(groups),
        0 <= k < groups.len(),
        0 <= l < groups.len(),
        k != l,
    ensures
        groups[k].controller@ != groups[l].controller@,
{
    reveal(groups_sorted);
    if k < l {
        assert(crate::order::str_lt(groups[k].controller@, groups[l].controller@));
        crate::order::lemma_str_lt_irreflexive(groups[k].controller@);
    } else {
        assert(crate::order::str_lt(groups[l].controller@, groups[k].controller@));
        crate::order::lemma_str_lt_irreflexive(groups[l].controller@);
    }
}

/// One more counter, of the controller of the existing group `p`.
proof fn lemma_groups_extend(
    old: Seq<CounterGroup>,
    new: Seq<CounterGroup>,
    cs: Seq<Seq<char>>,
    es: Seq<Seq<char>>,
    i: nat,
    p: int,
)
    requires
        groups_of(old, cs, es, i),
        i < cs.len(),
        i < es.len(),
        0 <= p < old.len(),
        old[p].controller@ == cs[i as int],
        new.len() == old.len(),
        forall|k: int| 0 <= k < new.len() && k != p ==> new[k] == old[k],
        new[p].controller == old[p].controller,
        new[p].read == if es[i as int] == "data_read"@ {
            Some(i as usize)
        } else {
            old[p].read
        },
        new[p].write == if es[i as int] == "data_write"@ {
            Some(i as usize)
        } else {
            old[p].write
        },
        new[p].total == if es[i as int] == "data_total"@ {
            Some(i as usize)
        } else {
            old[p].total
        },
        i < usize::MAX,
    ensures
        groups_of(new, cs, es, i + 1),
{
    assert(forall|k: int| 0 <= k < new.len() ==> (#[trigger] new[k]).controller == old[k].controller);
    assert(groups_sorted(new)) by {
        reveal(groups_sorted);
        assert forall|k: int, l: int| 0 <= k < l < new.len() implies crate::order::str_lt(
            (#[trigger] new[k]).controller@,
            (#[trigger] new[l]).controller@,
        ) by {
            assert(crate::order::str_lt(old[k].controller@, old[l].controller@));
        }
    }
    assert(groups_named(new, cs, i + 1)) by {
        reveal(groups_named);
        assert forall|k: int| 0 <= k < new.len() implies exists|j: int|
            0 <= j < i + 1 && cs[j] == (#[trigger] new[k]).controller@ by {
            let j = choose|j: int| 0 <= j < i && cs[j] == (#[trigger] old[k]).controller@;
            assert(0 <= j < i + 1 && cs[j] == new[k].controller@);
        }
    }
    assert(groups_cover(new, cs, i + 1)) by {
        reveal(groups_cover);
        assert forall|j: int| 0 <= j < i + 1 implies exists|k: int|
            0 <= k < new.len() && (#[trigger] new[k]).controller@ == #[trigger] cs[j] by {
            if j == i {
                assert(new[p].controller@ == cs[j]);
            } else {
                let k = choose|k: int| 0 <= k < old.len() && (#[trigger] old[k]).controller@ == cs[j];
                assert(new[k].controller@ == cs[j]);
            }
        }
    }
    assert(groups_count(new, cs, es, i + 1)) by {
        reveal(groups_count);
        assert forall|k: int| 0 <= k < new.len() implies group_counts(#[trigger] new[k], cs, es, i + 1) by {
            let c = new[k].controller@;
            assert(group_counts(old[k], cs, es, i));
            lemma_last_event_step(cs, es, c, "data_read"@, i);
            lemma_last_event_step(cs, es, c, "data_write"@, i);
            lemma_last_event_step(cs, es, c, "data_total"@, i);
            if k != p {
                lemma_groups_distinct(old, k, p);
            }
        }
    }
}

/// With the groups in order and `p` the first whose controller is not below
/// `c`, and not `c` itself, no group is of `c`, nor any of the first `i` counters.
proof fn lemma_groups_absent(old: Seq<CounterGroup>, cs: Seq<Seq<char>>, i: nat, p: int, c: Seq<char>)
    requires
        groups_sorted(old),
        groups_cover(old, cs, i),
        i <= cs.len(),
        0 <= p <= old.len(),
        forall|k: int| 0 <= k < p ==> crate::order::str_lt(#[trigger] old[k].controller@, c),
        p == old.len() || !crate::order::str_lt(old[p].controller@, c),
        p == old.len() || old[p].controller@ != c,
    ensures
        forall|k: int| 0 <= k < old.len() ==> (#[trigger] old[k]).controller@ != c,
        forall|j: int| 0 <= j < i ==> cs[j] != c,
        p < old.len() ==> crate::order::str_lt(c, old[p].controller@),
{
    if p < old.len() {
        crate::order::lemma_str_lt_total(old[p].controller@, c);
    }
    assert forall|k: int| 0 <= k < old.len() implies (#[trigger] old[k]).controller@ != c by {
        if k < p {
            crate::order::lemma_str_lt_irreflexive(c);
        } else if k > p {
            reveal(groups_sorted);
            assert(crate::order::str_lt(old[p].controller@, old[k].controller@));
            if old[k].controller@ == c {
                crate::order::lemma_str_lt_asymmetric(c, old[p].controller@);
            }
        }
    }
    assert forall|j: int| 0 <= j < i implies cs[j] != c by {
        reveal(groups_cover);
        let k = choose|k: int| 0 <= k < old.len() && (#[trigger] old[k]).controller@ == cs[j];
        assert(old[k].controller@ != c);
    }
}

/// One more counter, the first of its controller, in a new group placed at
/// `p`, its place in controller order.
proof fn lemma_groups_insert(
    old: Seq<CounterGroup>,
    new: Seq<CounterGroup>,
    cs: Seq<Seq<char>>,
    es: Seq<Seq<char>>,
    i: nat,
    p: int,
    g: CounterGroup,
)
    requires
        groups_of(old, cs, es, i),
        i < cs.len(),
        i < es.len(),
        0 <= p <= old.len(),
        forall|k: int| 0 <= k < p ==> crate::order::str_lt(#[trigger] old[k].controller@, cs[i as int]),
        p == old.len() || !crate::order::str_lt(old[p].controller@, cs[i as int]),
        p == old.len() || old[p].controller@ != cs[i as int],
        g.controller@ == cs[i as int],
        g.read == if es[i as int] == "data_read"@ {
            Some(i as usize)
        } else {
            None
        },
        g.write == if es[i as int] == "data_write"@ {
            Some(i as usize)
        } else {
            None
        },
        g.total == if es[i as int] == "data_total"@ {
            Some(i as usize)
        } else {
            None
        },
        new == old.insert(p, g),
        i < usize::MAX,
    ensures
        groups_of(new, cs, es, i + 1),
{
    let c = cs[i as int];
    lemma_groups_absent(old, cs, i, p, c);
    assert forall|k: int| 0 <= k < new.len() implies (#[trigger] new[k]) == if k < p {
        old[k]
    } else if k == p {
        g
    } else {
        old[k - 1]
    } by {}
    assert(groups_sorted(new)) by {
        reveal(groups_sorted);
        assert forall|k: int, l: int| 0 <= k < l < new.len() implies crate::order::str_lt(
            (#[trigger] new[k]).controller@,
            (#[trigger] new[l]).controller@,
        ) by {
            if l < p {
                assert(crate::order::str_lt(old[k].controller@, old[l].controller@));
            } else if l == p {
            } else if k < p {
                if l - 1 > p {
                    assert(crate::order::str_lt(old[p].controller@, old[l - 1].controller@));
                    crate::order::lemma_str_lt_transitive(c, old[p].controller@, old[l - 1].controller@);
                }
                crate::order::lemma_str_lt_transitive(old[k].controller@, c, old[l - 1].controller@);
            } else if k == p {
                if l - 1 > p {
                    assert(crate::order::str_lt(old[p].controller@, old[l - 1].controller@));
                    crate::order::lemma_str_lt_transitive(c, old[p].controller@, old[l - 1].controller@);
                }
            } else {
                assert(crate::order::str_lt(old[k - 1].controller@, old[l - 1].controller@));
            }
        }
    }
    assert(groups_named(new, cs, i + 1)) by {
        reveal(groups_named);
        assert forall|k: int| 0 <= k < new.len() implies exists|j: int|
            0 <= j < i + 1 && cs[j] == (#[trigger] new[k]).controller@ by {
            if k == p {
                assert(cs[i as int] == new[k].controller@);
            } else {
                let o = if k < p {
                    k
                } else {
                    k - 1
                };
                let j = choose|j: int| 0 <= j < i && cs[j] == (#[trigger] old[o]).controller@;
                assert(0 <= j < i + 1 && cs[j] == new[k].controller@);
            }
        }
    }
    assert(groups_cover(new, cs, i + 1)) by {
        reveal(groups_cover);
        assert forall|j: int| 0 <= j < i + 1 implies exists|k: int|
            0 <= k < new.len() && (#[trigger] new[k]).controller@ == #[trigger] cs[j] by {
            if j == i {
                assert(new[p].controller@ == cs[j]);
            } else {
                let k = choose|k: int| 0 <= k < old.len() && (#[trigger] old[k]).controller@ == cs[j];
                let o = if k < p {
                    k
                } else {
                    k + 1
                };
                assert(new[o].controller@ == cs[j]);
            }
        }
    }
    assert(groups_count(new, cs, es, i + 1)) by {
        reveal(groups_count);
        lemma_last_event_absent(cs, es, c, "data_read"@, i);
        lemma_last_event_absent(cs, es, c, "data_write"@, i);
        lemma_last_event_absent(cs, es, c, "data_total"@, i);
        assert forall|k: int| 0 <= k < new.len() implies group_counts(#[trigger] new[k], cs, es, i + 1) by {
            let d = new[k].controller@;
            lemma_last_event_step(cs, es, d, "data_read"@, i);
            lemma_last_event_step(cs, es, d, "data_write"@, i);
            lemma_last_event_step(cs, es, d, "data_total"@, i);
            if k != p {
                let o = if k < p {
                    k
                } else {
                    k - 1
                };
                assert(group_counts(old[o], cs, es, i));
            }
        }
    }
}

fn group_for(name: &[char], i: usize, g: &mut CounterGroup)
    ensures
        final(g).controller == old(g).controller,
        final(g).read == if name@ == "data_read"@ {
            Some(i)
        } else {
            old(g).read
        },
        final(g).write == if name@ == "data_write"@ {
            Some(i)
        } else {
            old(g).write
        },
        final(g).total == if name@ == "data_total"@ {
            Some(i)
        } else {
            old(g).total
        },
{
    if eq_str(name, "data_read") {
        g.read = Some(i);
    }
    if eq_str(name, "data_write") {
        g.write = Some(i);
    }
    if eq_str(name, "data_total") {
        g.total = Some(i);
    }
}

/// Gathers counters by controller (see `groups_of`): `controllers[i]` and
/// `events[i]` are the controller and event name of counter `i`.
pub fn group_by_controller(controllers: &Vec<String>, events: &Vec<String>) -> (groups: Vec<
    CounterGroup,
>)
    requires
        controllers.len() == events.len(),
    ensures
        groups_of(groups@, names_view(controllers@), names_view(events@), controllers.len() as nat),
{
    let ghost cs = names_view(controllers@);
    let ghost es = names_view(events@);
    let mut groups: Vec<CounterGroup> = Vec::new();
    let mut i: usize = 0;
    proof {
        reveal(groups_sorted);
        reveal(groups_named);
        reveal(groups_cover);
        reveal(groups_count);
    }
    while i < controllers.len()
        invariant
            cs == names_view(controllers@),
            es == names_view(events@),
            controllers.len() == events.len(),
            i <= controllers.len(),
            groups_of(groups@, cs, es, i as nat),
        decreases controllers.len() - i,
    {
        let c = crate::text::chars_of(controllers[i].as_str());
        let e = crate::text::chars_of(events[i].as_str());
        assert(cs[i as int] == c@);
        assert(es[i as int] == e@);
        // The first group whose controller is not below `c`.
        let mut p: usize = 0;
        loop
            invariant
                p <= groups.len(),
                i < controllers.len(),
                controllers@[i as int]@ == c@,
                forall|k: int| 0 <= k < p ==> crate::order::str_lt(#[trigger] groups@[k].controller@, c@),
            ensures
                p <= groups.len(),
                forall|k: int| 0 <= k < p ==> crate::order::str_lt(#[trigger] groups@[k].controller@, c@),
                p == groups.len() || !crate::order::str_lt(groups@[p as int].controller@, c@),
            decreases groups.len() - p,
        {
            if p == groups.len() {
                break;
            }
            if !crate::order::string_lt(&groups[p].controller, &controllers[i]) {
                break;
            }
            p += 1;
        }
        let ghost old_groups = groups@;
        let found = p < groups.len() && groups[p].controller == controllers[i];
        if found {
            let mut g = groups.remove(p);
            group_for(e.as_slice(), i, &mut g);
            groups.insert(p, g);
            proof {
                assert(groups@[p as int].controller == old_groups[p as int].controller);
                lemma_groups_extend(old_groups, groups@, cs, es, i as nat, p as int);
            }
        } else {
            let mut g = CounterGroup {
                controller: controllers[i].clone(),
                read: None,
                write: None,
                total: None,
            };
            group_for(e.as_slice(), i, &mut g);
            groups.insert(p, g);
            proof {
                lemma_groups_insert(old_groups, groups@, cs, es, i as nat, p as int, groups@[p as int]);
            }
        }
        i += 1;
    }
    groups
}

} // verus!

verus! {

/// The content of a sysfs attribute: trimmed, and none when blank.
pub open spec fn attribute_of(content: Seq<char>) -> Option<Seq<char>> {
    let t = trim(content);
    if t.len() == 0 {
        None
    } else {
        Some(t)
    }
}

/// A sysfs attribute's content, trimmed; none when blank.
pub fn attribute_value(content: &str) -> (r: Option<String>)
    ensures
        match r {
            Some(s) => attribute_of(content@) == Some(s@),
            None => attribute_of(content@) is None,
        },
{
    let text = chars_of(content);
    let t = trim_chars(text.as_slice());
    if t.len() == 0 {
        None
    } else {
        Some(crate::text::string_of(t.as_slice()))
    }
}

/// The format a `format/<name>` file describes: its trimmed content must be
/// `config:` and a bit range.
pub open spec fn format_of(name: Seq<char>, content: Seq<char>) -> Option<FormatView> {
    match attribute_of(content) {
        Some(t) => if crate::text::starts_with(t, "config:"@) {
            match bit_range_of(t.skip("config:"@.len() as int)) {
                Some((s, e)) => Some(FormatView { name, start_bit: s, end_bit: e }),
                None => None,
            }
        } else {
            None
        },
        None => None,
    }
}

/// The view of an optional format.
pub open spec fn opt_format_view(f: Option<EventFormat>) -> Option<FormatView> {
    match f {
        Some(f) => Some(f@),
        None => None,
    }
}

/// The event format named `name` whose file holds `content`.
pub fn event_format(name: &str, content: &str) -> (r: Option<EventFormat>)
    ensures
        opt_format_view(r) == format_of(name@, content@),
{
    let text = chars_of(content);
    let t = trim_chars(text.as_slice());
    if t.len() == 0 {
        return None;
    }
    if !crate::text::starts_with_str(t.as_slice(), "config:") {
        return None;
    }
    let prefix = chars_of("config:");
    let range = slice_chars(t.as_slice(), prefix.len(), t.len());
    assert(range@ == t@.skip("config:"@.len() as int));
    match bit_range_text(range.as_slice()) {
        Some((start_bit, end_bit)) => {
            let n = chars_of(name);
            Some(EventFormat { name: crate::text::string_of(n.as_slice()), start_bit, end_bit })
        },
        None => None,
    }
}

/// The event-source devices of the memory controllers: the uncore IMC devices
/// (`uncore_imc_*`), the free-running ones (`uncore_imc_free_running_*`)
/// among them.
pub open spec fn imc_device_name(name: Seq<char>) -> bool {
    crate::text::starts_with(name, "uncore_imc_free_running_"@) || crate::text::starts_with(
        name,
        "uncore_imc_"@,
    )
}

/// Whether an event-source device is a memory controller's (see
/// `imc_device_name`).
pub fn is_imc_device(name: &str) -> (r: bool)
    ensures
        r == imc_device_name(name@),
{
    let n = chars_of(name);
    crate::text::starts_with_str(n.as_slice(), "uncore_imc_free_running_")
        || crate::text::starts_with_str(n.as_slice(), "uncore_imc_")
}

/// A device's PMU type number, from its `type` attribute.
pub fn pmu_type(content: &str) -> (r: Option<u32>)
    ensures
        r == match attribute_of(content@) {
            Some(t) => sysfs_u32(t),
            None => None,
        },
{
    let text = chars_of(content);
    let t = trim_chars(text.as_slice());
    if t.len() == 0 {
        None
    } else {
        parse_u32_text(t.as_slice())
    }
}

/// The CPU to open a device's counters on: the first CPU of its `cpumask`
/// attribute, or CPU 0 when that is missing or unreadable.
pub fn counter_cpu(cpumask: Option<&str>) -> (r: i32)
    ensures
        r == match cpumask {
            Some(c) => match attribute_of(c@) {
                Some(t) => match first_cpu_of(t) {
                    Some(cpu) => cpu,
                    None => 0,
                },
                None => 0,
            },
            None => 0,
        },
{
    match cpumask {
        Some(c) => {
            let text = chars_of(c);
            let t = trim_chars(text.as_slice());
            if t.len() == 0 {
                0
            } else {
                match first_cpu_text(t.as_slice()) {
                    Some(cpu) => cpu,
                    None => 0,
                }
            }
        },
        None => 0,
    }
}

} // verus!

verus! {

/// A counter reading as the rate logic reads it: the raw count and the unit
/// its scaled value is in (the scale itself, a float, stays with the caller).
#[derive(Debug, Clone, PartialEq, Eq)]
pub struct CounterRead {
    pub raw: u64,
    pub unit: String,
}

/// A counter reading with its unit as characters.
pub struct CounterReadView {
    pub raw: u64,
    pub unit: Seq<char>,
}

impl View for CounterRead {
    type V = CounterReadView;

    open spec fn view(&self) -> CounterReadView {
        CounterReadView { raw: self.raw, unit: self.unit@ }
    }
}

/// The view of an optional reading.
pub open spec fn opt_read_view(o: Option<CounterRead>) -> Option<CounterReadView> {
    match o {
        Some(r) => Some(r@),
        None => None,
    }
}

/// One controller's readings in a sample.
#[derive(Debug, Clone, PartialEq, Eq)]
pub struct ControllerCounters {
    pub controller: String,
    pub read: Option<CounterRead>,
    pub write: Option<CounterRead>,
    pub total: Option<CounterRead>,
}

/// The controller names of a sample.
pub open spec fn controller_names(v: Seq<ControllerCounters>) -> Seq<Seq<char>> {
    v.map_values(|c: ControllerCounters| c.controller@)
}

/// How far a counter moved between two samples, and how its unit converts to
/// MiB.
#[derive(Debug, Clone, Copy, PartialEq, Eq)]
pub struct CounterDelta {
    pub delta: u64,
    pub scale: MibScale,
}

/// Where a controller's total rate comes from: its own total counter, the
/// sum of whichever of its read and write rates it has, or nowhere.
#[derive(Debug, Clone, Copy, PartialEq, Eq)]
pub enum TotalPlan {
    Measured(CounterDelta),
    FromParts,
    Missing,
}

/// The rates to compute for a controller found in both samples: its positions
/// in the previous and the current sample, and what each rate is made of.
#[derive(Debug, Clone, Copy, PartialEq, Eq)]
pub struct ControllerPlan {
    pub prev: usize,
    pub curr: usize,
    pub read: Option<CounterDelta>,
    pub write: Option<CounterDelta>,
    pub total: TotalPlan,
}

/// How far a free-running counter moved from `prev` to `curr`, a wrap past
/// `u64::MAX` continuing from zero.
pub open spec fn wrapped_delta(prev: u64, curr: u64) -> u64 {
    if curr >= prev {
        (curr - prev) as u64
    } else {
        (curr - prev + 0x1_0000_0000_0000_0000) as u64
    }
}

/// A counter yields a rate when both samples have it and the current unit
/// converts to MiB.
pub open spec fn delta_of(prev: Option<CounterReadView>, curr: Option<CounterReadView>) -> Option<
    CounterDelta,
> {
    match (prev, curr) {
        (Some(p), Some(c)) => match mib_scale_of(c.unit) {
            Some(s) => Some(CounterDelta { delta: wrapped_delta(p.raw, c.raw), scale: s }),
            None => None,
        },
        _ => None,
    }
}

/// The total comes from the total counter where it yields a rate, else from
/// the read and write rates where there is one.
pub open spec fn total_plan(
    measured: Option<CounterDelta>,
    read: Option<CounterDelta>,
    write: Option<CounterDelta>,
) -> TotalPlan {
    match measured {
        Some(d) => TotalPlan::Measured(d),
        None => if read is Some || write is Some {
            TotalPlan::FromParts
        } else {
            TotalPlan::Missing
        },
    }
}

/// `plan` is the plan for the previous sample's controller at `pair.0` and
/// the current sample's at `pair.1`.
pub open spec fn plan_for(
    plan: ControllerPlan,
    prev: Seq<ControllerCounters>,
    curr: Seq<ControllerCounters>,
    pair: (int, int),
) -> bool {
    let p = prev[pair.0];
    let c = curr[pair.1];
    let read = delta_of(opt_read_view(p.read), opt_read_view(c.read));
    let write = delta_of(opt_read_view(p.write), opt_read_view(c.write));
    let total = delta_of(opt_read_view(p.total), opt_read_view(c.total));
    &&& plan.prev as int == pair.0
    &&& plan.curr as int == pair.1
    &&& plan.read == read
    &&& plan.write == write
    &&& plan.total == total_plan(total, read, write)
}

/// What a plan says of each rate, in terms of the two samples' counters: a
/// rate is planned exactly when both samples have its counter and the current
/// unit converts to MiB, with the counter's wrap-around difference and that
/// unit; the total comes from the total counter whenever that yields a rate,
/// whatever the read and write counters give, from the read and write rates
/// only when it does not and one of them exists, and is missing otherwise.
pub proof fn lemma_plan_rates(
    plan: ControllerPlan,
    prev: Seq<ControllerCounters>,
    curr: Seq<ControllerCounters>,
    pair: (int, int),
)
    requires
        plan_for(plan, prev, curr, pair),
    ensures
        counter_rate(plan.read, prev[pair.0].read, curr[pair.1].read),
        counter_rate(plan.write, prev[pair.0].write, curr[pair.1].write),
        measurable(prev[pair.0].total, curr[pair.1].total) ==> (plan.total matches TotalPlan::Measured(d)
            && counter_rate(Some(d), prev[pair.0].total, curr[pair.1].total)),
        plan.total is FromParts <==> !measurable(prev[pair.0].total, curr[pair.1].total) && (
        plan.read is Some || plan.write is Some),
        plan.total is Missing <==> !measurable(prev[pair.0].total, curr[pair.1].total) && plan.read
            is None && plan.write is None,
{
}

/// Both samples have the counter, and the current one's unit converts to MiB.
pub open spec fn measurable(prev: Option<CounterRead>, curr: Option<CounterRead>) -> bool {
    &&& prev is Some
    &&& curr is Some
    &&& mib_scale_of(curr->0.unit@) is Some
}

/// `rate` is what the two readings of a counter yield: present exactly when
/// the counter is measurable, with the current unit's scale and the difference
/// of the raw counts, counting a wrap past `u64::MAX` from zero.
pub open spec fn counter_rate(rate: Option<CounterDelta>, prev: Option<CounterRead>, curr: Option<CounterRead>) -> bool {
    if measurable(prev, curr) {
        &&& rate is Some
        &&& rate->0.scale == mib_scale_of(curr->0.unit@)->0
        &&& rate->0.delta as int == if curr->0.raw >= prev->0.raw {
            curr->0.raw - prev->0.raw
        } else {
            curr->0.raw - prev->0.raw + 0x1_0000_0000_0000_0000
        }
    } else {
        rate is None
    }
}

fn counter_delta_of(prev: &Option<CounterRead>, curr: &Option<CounterRead>) -> (r: Option<
    CounterDelta,
>)
    ensures
        r == delta_of(opt_read_view(*prev), opt_read_view(*curr)),
{
    match (prev, curr) {
        (Some(p), Some(c)) => match unit_to_mib(c.unit.as_str()) {
            Some(s) => Some(CounterDelta { delta: counter_delta(p.raw, c.raw), scale: s }),
            None => None,
        },
        _ => None,
    }
}

fn names_of(samples: &Vec<ControllerCounters>) -> (names: Vec<String>)
    ensures
        names_view(names@) == controller_names(samples@),
{
    let mut names: Vec<String> = Vec::new();
    let mut i: usize = 0;
    while i < samples.len()
        invariant
            i <= samples.len(),
            names@.len() == i,
            forall|j: int| 0 <= j < i ==> (#[trigger] names@[j])@ == samples@[j].controller@,
        decreases samples.len() - i,
    {
        names.push(samples[i].controller.clone());
        i += 1;
    }
    assert(names_view(names@) =~= controller_names(samples@));
    names
}

/// What the bandwidth between two samples `elapsed_nanos` apart is made of:
/// none when no time passed or no controller is in both samples; otherwise a
/// plan for each controller pairing (see `pairs_of`), in the current
/// sample's order.
pub fn plan_bandwidth(
    prev: &Vec<ControllerCounters>,
    curr: &Vec<ControllerCounters>,
    elapsed_nanos: u128,
) -> (r: Option<Vec<ControllerPlan>>)
    ensures
        match r {
            None => elapsed_nanos == 0 || pairs_of(
                controller_names(prev@),
                controller_names(curr@),
            ).len() == 0,
            Some(plans) => {
                let pairs = pairs_of(controller_names(prev@), controller_names(curr@));
                &&& elapsed_nanos > 0
                &&& plans@.len() == pairs.len()
                &&& plans@.len() > 0
                &&& forall|k: int|
                    0 <= k < plans@.len() ==> plan_for(#[trigger] plans@[k], prev@, curr@, pairs[k])
            },
        },
{
    if elapsed_nanos == 0 {
        return None;
    }
    let prev_names = names_of(prev);
    let curr_names = names_of(curr);
    let pairs = pair_controllers(&prev_names, &curr_names);
    let ghost ps = pairs_of(controller_names(prev@), controller_names(curr@));
    proof {
        lemma_pairs_of(controller_names(prev@), controller_names(curr@));
    }
    if pairs.len() == 0 {
        return None;
    }
    let mut plans: Vec<ControllerPlan> = Vec::new();
    let mut k: usize = 0;
    while k < pairs.len()
        invariant
            ps == pairs_of(controller_names(prev@), controller_names(curr@)),
            pairs@.len() == ps.len(),
            forall|q: int|
                0 <= q < pairs@.len() ==> (#[trigger] pairs@[q]).0 as int == ps[q].0 && pairs@[q].1
                    as int == ps[q].1,
            forall|q: int|
                0 <= q < ps.len() ==> 0 <= (#[trigger] ps[q]).0 < prev@.len() && 0 <= ps[q].1
                    < curr@.len(),
            k <= pairs.len(),
            plans@.len() == k,
            forall|q: int| 0 <= q < k ==> plan_for(#[trigger] plans@[q], prev@, curr@, ps[q]),
        decreases pairs.len() - k,
    {
        let (i, j) = pairs[k];
        assert(controller_names(prev@).len() == prev@.len());
        assert(controller_names(curr@).len() == curr@.len());
        assert(ps[k as int].0 == i as int && ps[k as int].1 == j as int);
        let p = &prev[i];
        let c = &curr[j];
        let read = counter_delta_of(&p.read, &c.read);
        let write = counter_delta_of(&p.write, &c.write);
        let total = match counter_delta_of(&p.total, &c.total) {
            Some(d) => TotalPlan::Measured(d),
            None => if read.is_some() || write.is_some() {
                TotalPlan::FromParts
            } else {
                TotalPlan::Missing
            },
        };
        plans.push(ControllerPlan { prev: i, curr: j, read, write, total });
        k += 1;
    }
    Some(plans)
}

} // verus!

verus! {

/// An attribute file's content, trimmed, where the file was read and is not
/// blank.
pub open spec fn attr_of(content: Option<String>) -> Option<Seq<char>> {
    match content {
        Some(c) => attribute_of(c@),
        None => None,
    }
}

/// The PMU type a device's `type` attribute gives (see `pmu_type`).
pub open spec fn type_of_attr(content: Option<String>) -> Option<u32> {
    match attr_of(content) {
        Some(t) => sysfs_u32(t),
        None => None,
    }
}

/// The CPU a device's `cpumask` attribute gives (see `counter_cpu`).
pub open spec fn cpu_of_attr(content: Option<String>) -> i32 {
    match attr_of(content) {
        Some(t) => match first_cpu_of(t) {
            Some(cpu) => cpu,
            None => 0,
        },
        None => 0,
    }
}

/// The files of one event of a device, as read (none where unreadable): its
/// spec, its scale and its unit.
#[derive(Debug, Clone, PartialEq, Eq)]
pub struct EventFiles {
    pub spec: Option<String>,
    pub scale: Option<String>,
    pub unit: Option<String>,
}

/// An event-source device as read from sysfs: its name, its `type` and
/// `cpumask` attributes (none where unreadable), its formats, and the files of
/// its `data_read`, `data_write` and `data_total` events.
#[derive(Debug, Clone, PartialEq, Eq)]
pub struct DeviceFiles {
    pub name: String,
    pub type_attr: Option<String>,
    pub cpumask: Option<String>,
    pub formats: Vec<EventFormat>,
    pub read: EventFiles,
    pub write: EventFiles,
    pub total: EventFiles,
}

/// A counter to open: its controller and event name, PMU type, CPU and config
/// word, its scale as text (none where there is none; a float, read by the
/// caller) and its unit.
#[derive(Debug, Clone, PartialEq, Eq)]
pub struct EventSpec {
    pub controller: String,
    pub name: String,
    pub event_type: u32,
    pub cpu: i32,
    pub config: u64,
    pub scale: Option<String>,
    pub unit: String,
}

/// A counter to open, with its texts as characters.
pub struct EventSpecView {
    pub controller: Seq<char>,
    pub name: Seq<char>,
    pub event_type: u32,
    pub cpu: i32,
    pub config: u64,
    pub scale: Option<Seq<char>>,
    pub unit: Seq<char>,
}

impl View for EventSpec {
    type V = EventSpecView;

    open spec fn view(&self) -> EventSpecView {
        EventSpecView {
            controller: self.controller@,
            name: self.name@,
            event_type: self.event_type,
            cpu: self.cpu,
            config: self.config,
            scale: crate::dmi::opt_view(self.scale),
            unit: self.unit@,
        }
    }
}

/// The views of a list of counters.
pub open spec fn events_view(v: Seq<EventSpec>) -> Seq<EventSpecView> {
    v.map_values(|e: EventSpec| e@)
}

/// One event of a device: none when its spec is missing, blank or rejected;
/// otherwise the counter with the packed config, the scale text and the unit
/// (`count` where there is none). A spec reaching a field out of range gives
/// the event's name as an error.
pub open spec fn event_of(
    controller: Seq<char>,
    event_type: u32,
    cpu: i32,
    fs: Seq<FormatView>,
    name: Seq<char>,
    files: EventFiles,
) -> Result<Option<EventSpecView>, Seq<char>> {
    match attr_of(files.spec) {
        None => Ok(None),
        Some(spec) => match pack_progress(spec, fs) {
            PackProgress::OutOfRange => Err(name),
            PackProgress::Rejected => Ok(None),
            PackProgress::Running(config) => Ok(
                Some(
                    EventSpecView {
                        controller,
                        name,
                        event_type,
                        cpu,
                        config,
                        scale: attr_of(files.scale),
                        unit: match attr_of(files.unit) {
                            Some(u) => u,
                            None => "count"@,
                        },
                    },
                ),
            ),
        },
    }
}

/// An optional counter as a list.
pub open spec fn opt_events(o: Option<EventSpecView>) -> Seq<EventSpecView> {
    match o {
        Some(e) => seq![e],
        None => Seq::empty(),
    }
}

/// The counters of a device: none unless it is a memory controller's with a
/// readable PMU type; then its `data_read`, `data_write` and `data_total`
/// events, in that order, on the CPU of its `cpumask`.
pub open spec fn device_events(d: DeviceFiles) -> Result<Seq<EventSpecView>, Seq<char>> {
    if !imc_device_name(d.name@) {
        Ok(Seq::empty())
    } else {
        match type_of_attr(d.type_attr) {
            None => Ok(Seq::empty()),
            Some(ty) => {
                let cpu = cpu_of_attr(d.cpumask);
                let fs = formats_view(d.formats@);
                match event_of(d.name@, ty, cpu, fs, "data_read"@, d.read) {
                    Err(e) => Err(e),
                    Ok(r) => match event_of(d.name@, ty, cpu, fs, "data_write"@, d.write) {
                        Err(e) => Err(e),
                        Ok(w) => match event_of(d.name@, ty, cpu, fs, "data_total"@, d.total) {
                            Err(e) => Err(e),
                            Ok(t) => Ok(opt_events(r) + opt_events(w) + opt_events(t)),
                        },
                    },
                }
            },
        }
    }
}

/// The counters of the devices, in the devices' order; the first error stops.
pub open spec fn all_device_events(ds: Seq<DeviceFiles>) -> Result<Seq<EventSpecView>, Seq<char>>
    decreases ds.len(),
{
    if ds.len() == 0 {
        Ok(Seq::empty())
    } else {
        match all_device_events(ds.drop_last()) {
            Err(e) => Err(e),
            Ok(prev) => match device_events(ds.last()) {
                Err(e) => Err(e),
                Ok(es) => Ok(prev + es),
            },
        }
    }
}

/// The sort keys of counters: controller, then event name.
pub open spec fn event_keys(es: Seq<EventSpecView>) -> Seq<(Seq<char>, Seq<char>)> {
    es.map_values(|e: EventSpecView| (e.controller, e.name))
}

fn opt_text(content: &Option<String>) -> (r: Option<String>)
    ensures
        crate::dmi::opt_view(r) == attr_of(*content),
{
    match content {
        Some(c) => attribute_value(c.as_str()),
        None => None,
    }
}

fn event_exec(
    controller: &String,
    event_type: u32,
    cpu: i32,
    formats: &Vec<EventFormat>,
    name: &str,
    files: &EventFiles,
) -> (r: Result<Option<EventSpec>, String>)
    ensures
        match r {
            Ok(o) => event_of(controller@, event_type, cpu, formats_view(formats@), name@, *files)
                == Ok::<Option<EventSpecView>, Seq<char>>(
                match o {
                    Some(e) => Some(e@),
                    None => None,
                },
            ),
            Err(e) => event_of(controller@, event_type, cpu, formats_view(formats@), name@, *files)
                == Err::<Option<EventSpecView>, Seq<char>>(e@),
        },
{
    let spec = match opt_text(&files.spec) {
        Some(s) => s,
        None => return Ok(None),
    };
    match pack_progress_of(spec.as_str(), formats.as_slice()) {
        PackProgress::OutOfRange => Err(string_of(chars_of(name).as_slice())),
        PackProgress::Rejected => Ok(None),
        PackProgress::Running(config) => {
            let unit = match opt_text(&files.unit) {
                Some(u) => u,
                None => string_of(chars_of("count").as_slice()),
            };
            Ok(
                Some(
                    EventSpec {
                        controller: controller.clone(),
                        name: string_of(chars_of(name).as_slice()),
                        event_type,
                        cpu,
                        config,
                        scale: opt_text(&files.scale),
                        unit,
                    },
                ),
            )
        },
    }
}

fn push_event(out: &mut Vec<EventSpec>, e: Option<EventSpec>)
    ensures
        events_view(final(out)@) == events_view(old(out)@) + opt_events(
            match e {
                Some(x) => Some(x@),
                None => None,
            },
        ),
{
    match e {
        Some(x) => {
            out.push(x);
            assert(events_view(out@) =~= events_view(old(out)@) + seq![x@]);
        },
        None => {
            assert(events_view(out@) =~= events_view(old(out)@) + Seq::<EventSpecView>::empty());
        },
    }
}

/// The counters of one device (see `device_events`).
fn device_events_exec(d: &DeviceFiles) -> (r: Result<Vec<EventSpec>, String>)
    ensures
        match r {
            Ok(v) => device_events(*d) == Ok::<Seq<EventSpecView>, Seq<char>>(events_view(v@)),
            Err(e) => device_events(*d) == Err::<Seq<EventSpecView>, Seq<char>>(e@),
        },
{
    let mut out: Vec<EventSpec> = Vec::new();
    if !is_imc_device(d.name.as_str()) {
        assert(events_view(out@) =~= Seq::<EventSpecView>::empty());
        return Ok(out);
    }
    let event_type = match &d.type_attr {
        Some(c) => pmu_type(c.as_str()),
        None => None,
    };
    let event_type = match event_type {
        Some(t) => t,
        None => {
            assert(events_view(out@) =~= Seq::<EventSpecView>::empty());
            return Ok(out);
        },
    };
    let cpu = counter_cpu(
        match &d.cpumask {
            Some(c) => Some(c.as_str()),
            None => None,
        },
    );
    assert(cpu == cpu_of_attr(d.cpumask));
    let r = event_exec(&d.name, event_type, cpu, &d.formats, "data_read", &d.read)?;
    let w = event_exec(&d.name, event_type, cpu, &d.formats, "data_write", &d.write)?;
    let t = event_exec(&d.name, event_type, cpu, &d.formats, "data_total", &d.total)?;
    assert(events_view(out@) =~= Seq::<EventSpecView>::empty());
    push_event(&mut out, r);
    push_event(&mut out, w);
    push_event(&mut out, t);
    Ok(out)
}

/// The counters to open over the event-source devices read from sysfs, sorted
/// by controller and then event name (stably; see `sorted_positions`); the
/// name of an event whose spec reaches a field out of range, where one does.
pub fn discover_events(devices: &Vec<DeviceFiles>) -> (r: Result<Vec<EventSpec>, String>)
    ensures
        match r {
            Err(e) => all_device_events(devices@) == Err::<Seq<EventSpecView>, Seq<char>>(e@),
            Ok(v) => match all_device_events(devices@) {
                Ok(es) => v@.len() == es.len() && forall|k: int|
                    0 <= k < v@.len() ==> (#[trigger] v@[k])@ == es[sorted_positions(
                        event_keys(es),
                        es.len(),
                    )[k]],
                Err(_) => false,
            },
        },
{
    let mut all: Vec<EventSpec> = Vec::new();
    let mut i: usize = 0;
    assert(devices@.take(0) =~= Seq::<DeviceFiles>::empty());
    assert(events_view(all@) =~= Seq::<EventSpecView>::empty());
    while i < devices.len()
        invariant
            i <= devices.len(),
            all_device_events(devices@.take(i as int)) == Ok::<Seq<EventSpecView>, Seq<char>>(
                events_view(all@),
            ),
        decreases devices.len() - i,
    {
        assert(devices@.take(i + 1).drop_last() == devices@.take(i as int));
        assert(devices@.take(i + 1).last() == devices@[i as int]);
        let es = match device_events_exec(&devices[i]) {
            Ok(es) => es,
            Err(e) => {
                proof {
                    lemma_device_events_stop(devices@, i as int + 1, e@);
                }
                return Err(e);
            },
        };
        let ghost before = all@;
        let ghost old_es = es@;
        let mut es = es;
        all.append(&mut es);
        assert(events_view(all@) =~= events_view(before) + events_view(old_es));
        i += 1;
    }
    assert(devices@.take(devices.len() as int) == devices@);
    let mut keys: Vec<(String, String)> = Vec::new();
    let mut j: usize = 0;
    while j < all.len()
        invariant
            j <= all.len(),
            keys@.len() == j,
            forall|q: int|
                0 <= q < j ==> (#[trigger] keys@[q]).0@ == all@[q].controller@ && keys@[q].1@
                    == all@[q].name@,
        decreases all.len() - j,
    {
        keys.push((all[j].controller.clone(), all[j].name.clone()));
        j += 1;
    }
    let ghost es = events_view(all@);
    let ghost items = all@;
    assert(crate::order::pairs_view(keys@) =~= event_keys(es));
    let out = sort_by_keys(all, &keys);
    assert forall|k: int| 0 <= k < out@.len() implies (#[trigger] out@[k])@ == es[sorted_positions(
        event_keys(es),
        es.len(),
    )[k]] by {
        let p = sorted_positions(crate::order::pairs_view(keys@), keys@.len() as nat)[k];
        assert(out@[k] == items[p]);
        crate::order::lemma_sorted_positions(event_keys(es), es.len());
        assert(0 <= p < items.len());
        assert(es[p] == items[p]@);
    }
    Ok(out)
}

/// An error at the `n`-th device stops the scan there.
proof fn lemma_device_events_stop(ds: Seq<DeviceFiles>, n: int, e: Seq<char>)
    requires
        0 < n <= ds.len(),
        all_device_events(ds.take(n - 1)) is Ok,
        device_events(ds[n - 1]) == Err::<Seq<EventSpecView>, Seq<char>>(e),
    ensures
        all_device_events(ds) == Err::<Seq<EventSpecView>, Seq<char>>(e),
{
    assert(ds.take(n).drop_last() == ds.take(n - 1));
    assert(ds.take(n).last() == ds[n - 1]);
    lemma_events_absorb(ds, n, e);
}

/// Once the scan of the first `n` devices fails, the whole scan fails alike.
proof fn lemma_events_absorb(ds: Seq<DeviceFiles>, n: int, e: Seq<char>)
    requires
        0 <= n <= ds.len(),
        all_device_events(ds.take(n)) == Err::<Seq<EventSpecView>, Seq<char>>(e),
    ensures
        all_device_events(ds) == Err::<Seq<EventSpecView>, Seq<char>>(e),
    decreases ds.len() - n,
{
    if n < ds.len() {
        assert(ds.take(n + 1).drop_last() == ds.take(n));
        lemma_events_absorb(ds, n + 1, e);
    } else {
        assert(ds.take(n) == ds);
    }
}

} // verus!
