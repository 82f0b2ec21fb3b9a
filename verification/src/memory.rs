//! `/proc/meminfo` parsing and the memory summary derived from it.
use vstd::prelude::*;

use crate::num::{parse_u64_chars, parse_u64_dec};
use crate::text::{chars_of, eq_str, first_token, lines, split_lines, split_once, split_once_char, split_whitespace, tokens};

verus! {

/// The `/proc/meminfo` fields the monitor reads, in bytes.
#[derive(Debug, Clone, PartialEq, Eq)]
pub struct MemoryInfo {
    pub total_bytes: u64,
    pub free_bytes: u64,
    pub available_bytes: u64,
    pub buffers_bytes: u64,
    pub cached_bytes: u64,
    pub sreclaimable_bytes: u64,
    pub shmem_bytes: u64,
    pub swap_total_bytes: u64,
    pub swap_free_bytes: u64,
    pub dirty_bytes: u64,
    pub writeback_bytes: u64,
    pub anon_bytes: u64,
    pub slab_bytes: u64,
}

/// A share of a whole, `part / whole`, shown as a percentage
/// (`part / whole * 100`); the library makes one only of a non-zero whole.
#[derive(Debug, Clone, Copy, PartialEq, Eq)]
pub struct Percent {
    pub part: u64,
    pub whole: u64,
}

/// What the monitor shows of system memory.
#[derive(Debug, Clone, PartialEq, Eq)]
pub struct MemorySummary {
    pub total_bytes: u64,
    pub used_bytes: u64,
    pub available_bytes: u64,
    pub free_bytes: u64,
    pub buffers_bytes: u64,
    pub cache_bytes: u64,
    pub swap_total_bytes: u64,
    pub swap_used_bytes: u64,
    pub dirty_bytes: u64,
    pub writeback_bytes: u64,
    pub anon_bytes: u64,
    pub slab_bytes: u64,
    pub used_percent: Option<Percent>,
}

/// All fields zero.
pub open spec fn empty_meminfo() -> MemoryInfo {
    MemoryInfo {
        total_bytes: 0,
        free_bytes: 0,
        available_bytes: 0,
        buffers_bytes: 0,
        cached_bytes: 0,
        sreclaimable_bytes: 0,
        shmem_bytes: 0,
        swap_total_bytes: 0,
        swap_free_bytes: 0,
        dirty_bytes: 0,
        writeback_bytes: 0,
        anon_bytes: 0,
        slab_bytes: 0,
    }
}

impl Default for MemoryInfo {
    fn default() -> (info: Self)
        ensures
            info == empty_meminfo(),
    {
        MemoryInfo {
            total_bytes: 0,
            free_bytes: 0,
            available_bytes: 0,
            buffers_bytes: 0,
            cached_bytes: 0,
            sreclaimable_bytes: 0,
            shmem_bytes: 0,
            swap_total_bytes: 0,
            swap_free_bytes: 0,
            dirty_bytes: 0,
            writeback_bytes: 0,
            anon_bytes: 0,
            slab_bytes: 0,
        }
    }
}

/// `a * b`, or `u64::MAX` where that overflows (`u64::saturating_mul`).
pub open spec fn sat_mul(a: u64, b: u64) -> u64 {
    if a * b > u64::MAX {
        u64::MAX
    } else {
        (a * b) as u64
    }
}

/// `a + b`, or `u64::MAX` where that overflows.
pub open spec fn sat_add(a: u64, b: u64) -> u64 {
    if a + b > u64::MAX {
        u64::MAX
    } else {
        (a + b) as u64
    }
}

/// `a - b`, or zero where `b > a`.
pub open spec fn sat_sub(a: u64, b: u64) -> u64 {
    if a < b {
        0
    } else {
        (a - b) as u64
    }
}

/// The `kB` figure that follows a key's colon, in bytes: the first
/// white-space-separated word, read as a decimal `u64`, times 1024 (saturating).
pub open spec fn meminfo_value(rest: Seq<char>) -> Option<u64> {
    match first_token(rest) {
        Some(word) => match parse_u64_dec(word) {
            Some(kib) => Some(sat_mul(kib, 1024)),
            None => None,
        },
        None => None,
    }
}

/// `info` with the field that `key` names set to `bytes`; other keys change nothing.
pub open spec fn meminfo_set(info: MemoryInfo, key: Seq<char>, bytes: u64) -> MemoryInfo {
    if key == "MemTotal"@ {
        MemoryInfo { total_bytes: bytes, ..info }
    } else if key == "MemFree"@ {
        MemoryInfo { free_bytes: bytes, ..info }
    } else if key == "MemAvailable"@ {
        MemoryInfo { available_bytes: bytes, ..info }
    } else if key == "Buffers"@ {
        MemoryInfo { buffers_bytes: bytes, ..info }
    } else if key == "Cached"@ {
        MemoryInfo { cached_bytes: bytes, ..info }
    } else if key == "SReclaimable"@ {
        MemoryInfo { sreclaimable_bytes: bytes, ..info }
    } else if key == "Shmem"@ {
        MemoryInfo { shmem_bytes: bytes, ..info }
    } else if key == "SwapTotal"@ {
        MemoryInfo { swap_total_bytes: bytes, ..info }
    } else if key == "SwapFree"@ {
        MemoryInfo { swap_free_bytes: bytes, ..info }
    } else if key == "Dirty"@ {
        MemoryInfo { dirty_bytes: bytes, ..info }
    } else if key == "Writeback"@ {
        MemoryInfo { writeback_bytes: bytes, ..info }
    } else if key == "AnonPages"@ {
        MemoryInfo { anon_bytes: bytes, ..info }
    } else if key == "Slab"@ {
        MemoryInfo { slab_bytes: bytes, ..info }
    } else {
        info
    }
}

/// The effect of one line `Key: value kB`: the text before the first colon is
/// the key, exactly as written; a line without a colon or without a readable
/// value changes nothing.
pub open spec fn meminfo_line(info: MemoryInfo, line: Seq<char>) -> MemoryInfo {
    match split_once(line, ':') {
        Some((key, rest)) => match meminfo_value(rest) {
            Some(bytes) => meminfo_set(info, key, bytes),
            None => info,
        },
        None => info,
    }
}

/// The fields of a meminfo text: each one taken from the last line that sets
/// it, zero where no line does.
pub open spec fn meminfo_of(input: Seq<char>) -> MemoryInfo {
    lines(input).fold_left(empty_meminfo(), |info: MemoryInfo, line: Seq<char>| meminfo_line(info, line))
}

/// The field of `info` that `key` names (zero for a key of no field).
pub open spec fn meminfo_field(info: MemoryInfo, key: Seq<char>) -> u64 {
    if key == "MemTotal"@ {
        info.total_bytes
    } else if key == "MemFree"@ {
        info.free_bytes
    } else if key == "MemAvailable"@ {
        info.available_bytes
    } else if key == "Buffers"@ {
        info.buffers_bytes
    } else if key == "Cached"@ {
        info.cached_bytes
    } else if key == "SReclaimable"@ {
        info.sreclaimable_bytes
    } else if key == "Shmem"@ {
        info.shmem_bytes
    } else if key == "SwapTotal"@ {
        info.swap_total_bytes
    } else if key == "SwapFree"@ {
        info.swap_free_bytes
    } else if key == "Dirty"@ {
        info.dirty_bytes
    } else if key == "Writeback"@ {
        info.writeback_bytes
    } else if key == "AnonPages"@ {
        info.anon_bytes
    } else if key == "Slab"@ {
        info.slab_bytes
    } else {
        0
    }
}

/// `key` names one of the fields.
pub open spec fn meminfo_key(key: Seq<char>) -> bool {
    key == "MemTotal"@ || key == "MemFree"@ || key == "MemAvailable"@ || key == "Buffers"@ || key == "Cached"@ || key == "SReclaimable"@ || key == "Shmem"@ || key == "SwapTotal"@ || key == "SwapFree"@ || key == "Dirty"@ || key == "Writeback"@ || key == "AnonPages"@ || key == "Slab"@
}

/// The value that the last line of `ls` with key `key` and a readable value
/// gives, if there is one.
pub open spec fn last_setting(ls: Seq<Seq<char>>, key: Seq<char>) -> Option<u64>
    decreases ls.len(),
{
    if ls.len() == 0 {
        None
    } else {
        match split_once(ls.last(), ':') {
            Some((k, rest)) => if k == key && meminfo_value(rest) is Some {
                meminfo_value(rest)
            } else {
                last_setting(ls.drop_last(), key)
            },
            None => last_setting(ls.drop_last(), key),
        }
    }
}

proof fn lemma_meminfo_set_field(info: MemoryInfo, k: Seq<char>, v: u64, key: Seq<char>)
    requires
        meminfo_key(key),
    ensures
        meminfo_field(meminfo_set(info, k, v), key) == if k == key {
            v
        } else {
            meminfo_field(info, key)
        },
{
}

/// Reading lines from a state: each field is the last value the lines give
/// it, or what the state had.
proof fn lemma_meminfo_fold(ls: Seq<Seq<char>>, st: MemoryInfo, key: Seq<char>)
    requires
        meminfo_key(key),
    ensures
        meminfo_field(
            ls.fold_left(st, |info: MemoryInfo, line: Seq<char>| meminfo_line(info, line)),
            key,
        ) == match last_setting(ls, key) {
            Some(v) => v,
            None => meminfo_field(st, key),
        },
    decreases ls.len(),
{
    if ls.len() > 0 {
        let f = |info: MemoryInfo, line: Seq<char>| meminfo_line(info, line);
        lemma_meminfo_fold(ls.drop_last(), st, key);
        let prev = ls.drop_last().fold_left(st, f);
        match split_once(ls.last(), ':') {
            Some((k, rest)) => match meminfo_value(rest) {
                Some(bytes) => lemma_meminfo_set_field(prev, k, bytes, key),
                None => {},
            },
            None => {},
        }
    }
}

/// Reading a meminfo text after another (the first empty or ending in a line
/// break): each field comes from the second text where a line of it sets the
/// field, with the value the second text alone gives; from the first
/// otherwise.
pub proof fn lemma_meminfo_concat(a: Seq<char>, b: Seq<char>, key: Seq<char>)
    requires
        a.len() == 0 || a.last() == '\n',
        meminfo_key(key),
    ensures
        meminfo_field(meminfo_of(a + b), key) == if last_setting(lines(b), key) is Some {
            meminfo_field(meminfo_of(b), key)
        } else {
            meminfo_field(meminfo_of(a), key)
        },
        meminfo_field(meminfo_of(b), key) == match last_setting(lines(b), key) {
            Some(v) => v,
            None => 0,
        },
{
    let f = |info: MemoryInfo, line: Seq<char>| meminfo_line(info, line);
    let la = lines(a);
    let lb = lines(b);
    crate::text::lemma_lines_concat(a, b);
    let l = la + lb;
    l.lemma_fold_left_split(empty_meminfo(), f, la.len() as int);
    assert(l.subrange(0, la.len() as int) == la);
    assert(l.subrange(la.len() as int, l.len() as int) == lb);
    lemma_meminfo_fold(lb, meminfo_of(a), key);
    lemma_meminfo_fold(lb, empty_meminfo(), key);
}

/// Each key reads its own field.
proof fn lemma_meminfo_fields(info: MemoryInfo)
    ensures
        meminfo_field(info, "MemTotal"@) == info.total_bytes,
        meminfo_field(info, "MemFree"@) == info.free_bytes,
        meminfo_field(info, "MemAvailable"@) == info.available_bytes,
        meminfo_field(info, "Buffers"@) == info.buffers_bytes,
        meminfo_field(info, "Cached"@) == info.cached_bytes,
        meminfo_field(info, "SReclaimable"@) == info.sreclaimable_bytes,
        meminfo_field(info, "Shmem"@) == info.shmem_bytes,
        meminfo_field(info, "SwapTotal"@) == info.swap_total_bytes,
        meminfo_field(info, "SwapFree"@) == info.swap_free_bytes,
        meminfo_field(info, "Dirty"@) == info.dirty_bytes,
        meminfo_field(info, "Writeback"@) == info.writeback_bytes,
        meminfo_field(info, "AnonPages"@) == info.anon_bytes,
        meminfo_field(info, "Slab"@) == info.slab_bytes,
{
    reveal_strlit("MemTotal");
    reveal_strlit("MemFree");
    reveal_strlit("MemAvailable");
    reveal_strlit("Buffers");
    reveal_strlit("Cached");
    reveal_strlit("SReclaimable");
    reveal_strlit("Shmem");
    reveal_strlit("SwapTotal");
    reveal_strlit("SwapFree");
    reveal_strlit("Dirty");
    reveal_strlit("Writeback");
    reveal_strlit("AnonPages");
    reveal_strlit("Slab");
    assert("MemTotal"@ != "MemFree"@) by {
        assert("MemTotal"@.len() != "MemFree"@.len());
    }
    assert("MemTotal"@ != "MemAvailable"@) by {
        assert("MemTotal"@.len() != "MemAvailable"@.len());
    }
    assert("MemFree"@ != "MemAvailable"@) by {
        assert("MemFree"@.len() != "MemAvailable"@.len());
    }
    assert("MemTotal"@ != "Buffers"@) by {
        assert("MemTotal"@.len() != "Buffers"@.len());
    }
    assert("MemFree"@ != "Buffers"@) by {
        assert("MemFree"@[0] != "Buffers"@[0]);
    }
    assert("MemAvailable"@ != "Buffers"@) by {
        assert("MemAvailable"@.len() != "Buffers"@.len());
    }
    assert("MemTotal"@ != "Cached"@) by {
        assert("MemTotal"@.len() != "Cached"@.len());
    }
    assert("MemFree"@ != "Cached"@) by {
        assert("MemFree"@.len() != "Cached"@.len());
    }
    assert("MemAvailable"@ != "Cached"@) by {
        assert("MemAvailable"@.len() != "Cached"@.len());
    }
    assert("Buffers"@ != "Cached"@) by {
        assert("Buffers"@.len() != "Cached"@.len());
    }
    assert("MemTotal"@ != "SReclaimable"@) by {
        assert("MemTotal"@.len() != "SReclaimable"@.len());
    }
    assert("MemFree"@ != "SReclaimable"@) by {
        assert("MemFree"@.len() != "SReclaimable"@.len());
    }
    assert("MemAvailable"@ != "SReclaimable"@) by {
        assert("MemAvailable"@[0] != "SReclaimable"@[0]);
    }
    assert("Buffers"@ != "SReclaimable"@) by {
        assert("Buffers"@.len() != "SReclaimable"@.len());
    }
    assert("Cached"@ != "SReclaimable"@) by {
        assert("Cached"@.len() != "SReclaimable"@.len());
    }
    assert("MemTotal"@ != "Shmem"@) by {
        assert("MemTotal"@.len() != "Shmem"@.len());
    }
    assert("MemFree"@ != "Shmem"@) by {
        assert("MemFree"@.len() != "Shmem"@.len());
    }
    assert("MemAvailable"@ != "Shmem"@) by {
        assert("MemAvailable"@.len() != "Shmem"@.len());
    }
    assert("Buffers"@ != "Shmem"@) by {
        assert("Buffers"@.len() != "Shmem"@.len());
    }
    assert("Cached"@ != "Shmem"@) by {
        assert("Cached"@.len() != "Shmem"@.len());
    }
    assert("SReclaimable"@ != "Shmem"@) by {
        assert("SReclaimable"@.len() != "Shmem"@.len());
    }
    assert("MemTotal"@ != "SwapTotal"@) by {
        assert("MemTotal"@.len() != "SwapTotal"@.len());
    }
    assert("MemFree"@ != "SwapTotal"@) by {
        assert("MemFree"@.len() != "SwapTotal"@.len());
    }
    assert("MemAvailable"@ != "SwapTotal"@) by {
        assert("MemAvailable"@.len() != "SwapTotal"@.len());
    }
    assert("Buffers"@ != "SwapTotal"@) by {
        assert("Buffers"@.len() != "SwapTotal"@.len());
    }
    assert("Cached"@ != "SwapTotal"@) by {
        assert("Cached"@.len() != "SwapTotal"@.len());
    }
    assert("SReclaimable"@ != "SwapTotal"@) by {
        assert("SReclaimable"@.len() != "SwapTotal"@.len());
    }
    assert("Shmem"@ != "SwapTotal"@) by {
        assert("Shmem"@.len() != "SwapTotal"@.len());
    }
    assert("MemTotal"@ != "SwapFree"@) by {
        assert("MemTotal"@[0] != "SwapFree"@[0]);
    }
    assert("MemFree"@ != "SwapFree"@) by {
        assert("MemFree"@.len() != "SwapFree"@.len());
    }
    assert("MemAvailable"@ != "SwapFree"@) by {
        assert("MemAvailable"@.len() != "SwapFree"@.len());
    }
    assert("Buffers"@ != "SwapFree"@) by {
        assert("Buffers"@.len() != "SwapFree"@.len());
    }
    assert("Cached"@ != "SwapFree"@) by {
        assert("Cached"@.len() != "SwapFree"@.len());
    }
    assert("SReclaimable"@ != "SwapFree"@) by {
        assert("SReclaimable"@.len() != "SwapFree"@.len());
    }
    assert("Shmem"@ != "SwapFree"@) by {
        assert("Shmem"@.len() != "SwapFree"@.len());
    }
    assert("SwapTotal"@ != "SwapFree"@) by {
        assert("SwapTotal"@.len() != "SwapFree"@.len());
    }
    assert("MemTotal"@ != "Dirty"@) by {
        assert("MemTotal"@.len() != "Dirty"@.len());
    }
    assert("MemFree"@ != "Dirty"@) by {
        assert("MemFree"@.len() != "Dirty"@.len());
    }
    assert("MemAvailable"@ != "Dirty"@) by {
        assert("MemAvailable"@.len() != "Dirty"@.len());
    }
    assert("Buffers"@ != "Dirty"@) by {
        assert("Buffers"@.len() != "Dirty"@.len());
    }
    assert("Cached"@ != "Dirty"@) by {
        assert("Cached"@.len() != "Dirty"@.len());
    }
    assert("SReclaimable"@ != "Dirty"@) by {
        assert("SReclaimable"@.len() != "Dirty"@.len());
    }
    assert("Shmem"@ != "Dirty"@) by {
        assert("Shmem"@[0] != "Dirty"@[0]);
    }
    assert("SwapTotal"@ != "Dirty"@) by {
        assert("SwapTotal"@.len() != "Dirty"@.len());
    }
    assert("SwapFree"@ != "Dirty"@) by {
        assert("SwapFree"@.len() != "Dirty"@.len());
    }
    assert("MemTotal"@ != "Writeback"@) by {
        assert("MemTotal"@.len() != "Writeback"@.len());
    }
    assert("MemFree"@ != "Writeback"@) by {
        assert("MemFree"@.len() != "Writeback"@.len());
    }
    assert("MemAvailable"@ != "Writeback"@) by {
        assert("MemAvailable"@.len() != "Writeback"@.len());
    }
    assert("Buffers"@ != "Writeback"@) by {
        assert("Buffers"@.len() != "Writeback"@.len());
    }
    assert("Cached"@ != "Writeback"@) by {
        assert("Cached"@.len() != "Writeback"@.len());
    }
    assert("SReclaimable"@ != "Writeback"@) by {
        assert("SReclaimable"@.len() != "Writeback"@.len());
    }
    assert("Shmem"@ != "Writeback"@) by {
        assert("Shmem"@.len() != "Writeback"@.len());
    }
    assert("SwapTotal"@ != "Writeback"@) by {
        assert("SwapTotal"@[0] != "Writeback"@[0]);
    }
    assert("SwapFree"@ != "Writeback"@) by {
        assert("SwapFree"@.len() != "Writeback"@.len());
    }
    assert("Dirty"@ != "Writeback"@) by {
        assert("Dirty"@.len() != "Writeback"@.len());
    }
    assert("MemTotal"@ != "AnonPages"@) by {
        assert("MemTotal"@.len() != "AnonPages"@.len());
    }
    assert("MemFree"@ != "AnonPages"@) by {
        assert("MemFree"@.len() != "AnonPages"@.len());
    }
    assert("MemAvailable"@ != "AnonPages"@) by {
        assert("MemAvailable"@.len() != "AnonPages"@.len());
    }
    assert("Buffers"@ != "AnonPages"@) by {
        assert("Buffers"@.len() != "AnonPages"@.len());
    }
    assert("Cached"@ != "AnonPages"@) by {
        assert("Cached"@.len() != "AnonPages"@.len());
    }
    assert("SReclaimable"@ != "AnonPages"@) by {
        assert("SReclaimable"@.len() != "AnonPages"@.len());
    }
    assert("Shmem"@ != "AnonPages"@) by {
        assert("Shmem"@.len() != "AnonPages"@.len());
    }
    assert("SwapTotal"@ != "AnonPages"@) by {
        assert("SwapTotal"@[0] != "AnonPages"@[0]);
    }
    assert("SwapFree"@ != "AnonPages"@) by {
        assert("SwapFree"@.len() != "AnonPages"@.len());
    }
    assert("Dirty"@ != "AnonPages"@) by {
        assert("Dirty"@.len() != "AnonPages"@.len());
    }
    assert("Writeback"@ != "AnonPages"@) by {
        assert("Writeback"@[0] != "AnonPages"@[0]);
    }
    assert("MemTotal"@ != "Slab"@) by {
        assert("MemTotal"@.len() != "Slab"@.len());
    }
    assert("MemFree"@ != "Slab"@) by {
        assert("MemFree"@.len() != "Slab"@.len());
    }
    assert("MemAvailable"@ != "Slab"@) by {
        assert("MemAvailable"@.len() != "Slab"@.len());
    }
    assert("Buffers"@ != "Slab"@) by {
        assert("Buffers"@.len() != "Slab"@.len());
    }
    assert("Cached"@ != "Slab"@) by {
        assert("Cached"@.len() != "Slab"@.len());
    }
    assert("SReclaimable"@ != "Slab"@) by {
        assert("SReclaimable"@.len() != "Slab"@.len());
    }
    assert("Shmem"@ != "Slab"@) by {
        assert("Shmem"@.len() != "Slab"@.len());
    }
    assert("SwapTotal"@ != "Slab"@) by {
        assert("SwapTotal"@.len() != "Slab"@.len());
    }
    assert("SwapFree"@ != "Slab"@) by {
        assert("SwapFree"@.len() != "Slab"@.len());
    }
    assert("Dirty"@ != "Slab"@) by {
        assert("Dirty"@.len() != "Slab"@.len());
    }
    assert("Writeback"@ != "Slab"@) by {
        assert("Writeback"@.len() != "Slab"@.len());
    }
    assert("AnonPages"@ != "Slab"@) by {
        assert("AnonPages"@.len() != "Slab"@.len());
    }
}

/// A meminfo text (empty or ending in a line break) read twice over reads as
/// once.
pub proof fn lemma_meminfo_twice(a: Seq<char>)
    requires
        a.len() == 0 || a.last() == '\n',
    ensures
        meminfo_of(a + a) == meminfo_of(a),
{
    lemma_meminfo_fields(meminfo_of(a + a));
    lemma_meminfo_fields(meminfo_of(a));
    lemma_meminfo_concat(a, a, "MemTotal"@);
    lemma_meminfo_concat(a, a, "MemFree"@);
    lemma_meminfo_concat(a, a, "MemAvailable"@);
    lemma_meminfo_concat(a, a, "Buffers"@);
    lemma_meminfo_concat(a, a, "Cached"@);
    lemma_meminfo_concat(a, a, "SReclaimable"@);
    lemma_meminfo_concat(a, a, "Shmem"@);
    lemma_meminfo_concat(a, a, "SwapTotal"@);
    lemma_meminfo_concat(a, a, "SwapFree"@);
    lemma_meminfo_concat(a, a, "Dirty"@);
    lemma_meminfo_concat(a, a, "Writeback"@);
    lemma_meminfo_concat(a, a, "AnonPages"@);
    lemma_meminfo_concat(a, a, "Slab"@);
}

/// `a.saturating_mul(b)`.
pub fn saturating_mul(a: u64, b: u64) -> (r: u64)
    ensures
        r == sat_mul(a, b),
{
    match a.checked_mul(b) {
        Some(v) => v,
        None => u64::MAX,
    }
}

/// The field set by the key `key`.
fn set_field(info: &mut MemoryInfo, key: &[char], bytes: u64)
    ensures
        *final(info) == meminfo_set(*old(info), key@, bytes),
{
    if eq_str(key, "MemTotal") {
        info.total_bytes = bytes;
    } else if eq_str(key, "MemFree") {
        info.free_bytes = bytes;
    } else if eq_str(key, "MemAvailable") {
        info.available_bytes = bytes;
    } else if eq_str(key, "Buffers") {
        info.buffers_bytes = bytes;
    } else if eq_str(key, "Cached") {
        info.cached_bytes = bytes;
    } else if eq_str(key, "SReclaimable") {
        info.sreclaimable_bytes = bytes;
    } else if eq_str(key, "Shmem") {
        info.shmem_bytes = bytes;
    } else if eq_str(key, "SwapTotal") {
        info.swap_total_bytes = bytes;
    } else if eq_str(key, "SwapFree") {
        info.swap_free_bytes = bytes;
    } else if eq_str(key, "Dirty") {
        info.dirty_bytes = bytes;
    } else if eq_str(key, "Writeback") {
        info.writeback_bytes = bytes;
    } else if eq_str(key, "AnonPages") {
        info.anon_bytes = bytes;
    } else if eq_str(key, "Slab") {
        info.slab_bytes = bytes;
    }
}

/// The first word after the colon, read as a kB figure and turned into bytes.
fn value_of(rest: &[char]) -> (r: Option<u64>)
    ensures
        r == meminfo_value(rest@),
{
    let words = split_whitespace(rest);
    if words.len() == 0 {
        return None;
    }
    assert(words@[0]@ == tokens(rest@)[0]);
    match parse_u64_chars(words[0].as_slice()) {
        Some(kib) => Some(saturating_mul(kib, 1024)),
        None => None,
    }
}

/// Reads a `/proc/meminfo` text.
pub fn parse_meminfo(input: &str) -> (info: MemoryInfo)
    ensures
        info == meminfo_of(input@),
{
    let text = chars_of(input);
    let all = split_lines(text.as_slice());
    let ghost ls = lines(input@);
    let ghost f = |info: MemoryInfo, line: Seq<char>| meminfo_line(info, line);
    let mut info = MemoryInfo::default();
    let mut i: usize = 0;
    while i < all.len()
        invariant
            ls == lines(input@),
            all@.len() == ls.len(),
            forall|j: int| 0 <= j < all@.len() ==> #[trigger] all@[j]@ == ls[j],
            f == (|info: MemoryInfo, line: Seq<char>| meminfo_line(info, line)),
            i <= all.len(),
            info == ls.take(i as int).fold_left(empty_meminfo(), f),
        decreases all.len() - i,
    {
        let line = &all[i];
        assert(line@ == ls[i as int]);
        assert(ls.take(i + 1).drop_last() == ls.take(i as int));
        let ghost before = info;
        if let Some((key, rest)) = split_once_char(line.as_slice(), ':') {
            if let Some(bytes) = value_of(rest.as_slice()) {
                set_field(&mut info, key.as_slice(), bytes);
            }
        }
        assert(info == meminfo_line(before, ls[i as int]));
        i += 1;
    }
    assert(ls.take(all.len() as int) == ls);
    info
}

/// `info` summarized: used memory is total minus available, cache is cached
/// plus reclaimable slab minus shared memory, swap used is swap total minus
/// swap free (all saturating), and the used share is taken of a non-zero total.
pub open spec fn summary_of(info: MemoryInfo) -> MemorySummary {
    let used = sat_sub(info.total_bytes, info.available_bytes);
    MemorySummary {
        total_bytes: info.total_bytes,
        used_bytes: used,
        available_bytes: info.available_bytes,
        free_bytes: info.free_bytes,
        buffers_bytes: info.buffers_bytes,
        cache_bytes: sat_sub(sat_add(info.cached_bytes, info.sreclaimable_bytes), info.shmem_bytes),
        swap_total_bytes: info.swap_total_bytes,
        swap_used_bytes: sat_sub(info.swap_total_bytes, info.swap_free_bytes),
        dirty_bytes: info.dirty_bytes,
        writeback_bytes: info.writeback_bytes,
        anon_bytes: info.anon_bytes,
        slab_bytes: info.slab_bytes,
        used_percent: if info.total_bytes > 0 {
            Some(Percent { part: used, whole: info.total_bytes })
        } else {
            None
        },
    }
}

/// Used memory is what the total leaves beyond available memory, never more
/// than the total: used and available add up to the total whenever available
/// memory does not exceed it, and the used share is of the total.
pub proof fn lemma_used_from_available(info: MemoryInfo)
    ensures
        summary_of(info).used_bytes <= info.total_bytes,
        info.available_bytes <= info.total_bytes ==> summary_of(info).used_bytes
            + info.available_bytes == info.total_bytes,
        info.available_bytes > info.total_bytes ==> summary_of(info).used_bytes == 0,
        summary_of(info).used_percent matches Some(p) ==> p.whole == info.total_bytes && p.part
            == summary_of(info).used_bytes && p.part <= p.whole,
{
}

/// The summary shows the readings it does not combine exactly as read (total,
/// available, free, buffers, swap total, dirty, writeback, anonymous pages and
/// slab); cache is cached memory plus reclaimable slab less shared memory
/// (nothing when shared memory exceeds them); swap used and swap free make up
/// the swap total (swap used is nothing when free swap exceeds the total).
pub proof fn lemma_summary_fields(info: MemoryInfo)
    ensures
        summary_of(info).total_bytes == info.total_bytes,
        summary_of(info).available_bytes == info.available_bytes,
        summary_of(info).free_bytes == info.free_bytes,
        summary_of(info).buffers_bytes == info.buffers_bytes,
        summary_of(info).swap_total_bytes == info.swap_total_bytes,
        summary_of(info).dirty_bytes == info.dirty_bytes,
        summary_of(info).writeback_bytes == info.writeback_bytes,
        summary_of(info).anon_bytes == info.anon_bytes,
        summary_of(info).slab_bytes == info.slab_bytes,
        info.cached_bytes + info.sreclaimable_bytes <= u64::MAX && info.shmem_bytes
            <= info.cached_bytes + info.sreclaimable_bytes ==> summary_of(info).cache_bytes
            + info.shmem_bytes == info.cached_bytes + info.sreclaimable_bytes,
        info.shmem_bytes >= info.cached_bytes + info.sreclaimable_bytes ==> summary_of(
            info,
        ).cache_bytes == 0,
        info.swap_free_bytes <= info.swap_total_bytes ==> summary_of(info).swap_used_bytes
            + info.swap_free_bytes == info.swap_total_bytes,
        info.swap_free_bytes > info.swap_total_bytes ==> summary_of(info).swap_used_bytes == 0,
{
}

/// The memory summary of a meminfo reading.
pub fn summarize(info: &MemoryInfo) -> (summary: MemorySummary)
    ensures
        summary == summary_of(*info),
{
    let used_bytes = info.total_bytes.saturating_sub(info.available_bytes);
    let cache_bytes = info.cached_bytes.saturating_add(info.sreclaimable_bytes).saturating_sub(
        info.shmem_bytes,
    );
    let swap_used_bytes = info.swap_total_bytes.saturating_sub(info.swap_free_bytes);
    let used_percent = if info.total_bytes > 0 {
        Some(Percent { part: used_bytes, whole: info.total_bytes })
    } else {
        None
    };
    MemorySummary {
        total_bytes: info.total_bytes,
        used_bytes,
        available_bytes: info.available_bytes,
        free_bytes: info.free_bytes,
        buffers_bytes: info.buffers_bytes,
        cache_bytes,
        swap_total_bytes: info.swap_total_bytes,
        swap_used_bytes,
        dirty_bytes: info.dirty_bytes,
        writeback_bytes: info.writeback_bytes,
        anon_bytes: info.anon_bytes,
        slab_bytes: info.slab_bytes,
        used_percent,
    }
}

} // verus!
