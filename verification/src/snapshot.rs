//! What a sample reports about its own data sources.
use vstd::prelude::*;

use crate::text::{chars_of, string_of};

verus! {

/// The note given when `/proc/meminfo` yields no total.
pub open spec fn meminfo_note(path: Seq<char>) -> Seq<char> {
    "meminfo unavailable or unreadable at "@ + path
}

/// The texts of an optional note.
pub open spec fn note_view(o: Option<String>) -> Seq<Seq<char>> {
    match o {
        Some(s) => seq![s@],
        None => Seq::empty(),
    }
}

/// The notes of a sample, in order: a missing memory total (a zero
/// `MemTotal`), then the DMI source's note, then the bandwidth source's note,
/// then a failed counter read.
pub open spec fn diagnostics_of(
    total_bytes: u64,
    meminfo_path: Seq<char>,
    dmi: Option<String>,
    bandwidth: Option<String>,
    read_error: Option<String>,
) -> Seq<Seq<char>> {
    (if total_bytes == 0 {
        seq![meminfo_note(meminfo_path)]
    } else {
        Seq::empty()
    }) + note_view(dmi) + note_view(bandwidth) + note_view(read_error)
}

/// The views of a list of texts.
pub open spec fn texts_view(v: Seq<String>) -> Seq<Seq<char>> {
    v.map_values(|s: String| s@)
}

fn push_note(notes: &mut Vec<String>, note: Option<String>)
    ensures
        texts_view(final(notes)@) == texts_view(old(notes)@) + note_view(note),
{
    match note {
        Some(s) => {
            notes.push(s);
            assert(texts_view(notes@) =~= texts_view(old(notes)@) + note_view(Some(s)));
        },
        None => {
            assert(texts_view(notes@) =~= texts_view(old(notes)@) + Seq::<Seq<char>>::empty());
        },
    }
}

/// The notes of a sample (see `diagnostics_of`).
pub fn gather_diagnostics(
    total_bytes: u64,
    meminfo_path: &str,
    dmi: Option<String>,
    bandwidth: Option<String>,
    read_error: Option<String>,
) -> (notes: Vec<String>)
    ensures
        texts_view(notes@) == diagnostics_of(total_bytes, meminfo_path@, dmi, bandwidth, read_error),
{
    let mut notes: Vec<String> = Vec::new();
    if total_bytes == 0 {
        let mut text = chars_of("meminfo unavailable or unreadable at ");
        let path = chars_of(meminfo_path);
        let mut i: usize = 0;
        let ghost start = text@;
        while i < path.len()
            invariant
                i <= path.len(),
                text@ == start + path@.take(i as int),
            decreases path.len() - i,
        {
            text.push(path[i]);
            assert(path@.take(i + 1) == path@.take(i as int).push(path@[i as int]));
            i += 1;
        }
        assert(path@.take(path.len() as int) == path@);
        notes.push(string_of(text.as_slice()));
    }
    assert(texts_view(notes@) =~= if total_bytes == 0 {
        seq![meminfo_note(meminfo_path@)]
    } else {
        Seq::<Seq<char>>::empty()
    });
    push_note(&mut notes, dmi);
    push_note(&mut notes, bandwidth);
    push_note(&mut notes, read_error);
    notes
}


/// The previous counter samples and the time they were taken at (in
/// nanoseconds of a monotonic clock), kept so that the next sample can be
/// compared with them.
#[derive(Debug)]
pub struct BandwidthTracker<T> {
    previous: Option<(T, u64)>,
}

impl<T> BandwidthTracker<T> {
    /// The samples last recorded, with their time; none before the first.
    pub closed spec fn last(&self) -> Option<(T, u64)> {
        self.previous
    }

    /// Records `samples` taken at `now` and hands back the samples recorded
    /// before, with the time elapsed since them; none on the first update, as
    /// a bandwidth needs two samples. A clock read earlier than the previous
    /// one counts as no time elapsed.
    pub fn update(&mut self, samples: T, now: u64) -> (previous: Option<(T, u64)>)
        ensures
            final(self).last() == Some((samples, now)),
            previous == match old(self).last() {
                Some((p, at)) => Some((p, if now >= at { (now - at) as u64 } else { 0u64 })),
                None => None,
            },
    {
        let earlier = self.previous.take();
        self.previous = Some((samples, now));
        match earlier {
            Some((p, at)) => Some((p, now.saturating_sub(at))),
            None => None,
        }
    }
}

impl<T> Default for BandwidthTracker<T> {
    fn default() -> (tracker: Self)
        ensures
            tracker.last() is None,
    {
        BandwidthTracker { previous: None }
    }
}

} // verus!
