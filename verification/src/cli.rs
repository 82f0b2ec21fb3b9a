//! Command-line options: the sampling interval and the one-shot mode, and the
//! keys that end the interactive view.
use vstd::prelude::*;

use crate::text::{chars_of, is_whitespace, is_ws, string_of};

verus! {

/// A span of time, in whole seconds and the nanoseconds beyond them.
#[derive(Debug, Clone, Copy, PartialEq, Eq)]
pub struct Interval {
    pub secs: u64,
    pub nanos: u32,
}

impl Interval {
    /// The nanoseconds are below one second, as in a `Duration`.
    pub open spec fn wf(self) -> bool {
        self.nanos < 1_000_000_000
    }

    /// The length of the interval in nanoseconds.
    pub open spec fn total_nanos(self) -> int {
        self.secs * 1_000_000_000 + self.nanos
    }
}

/// The options the monitor runs with.
#[derive(Debug, Clone, PartialEq, Eq)]
pub struct Cli {
    pub interval: Interval,
    pub once: bool,
}

/// The interval used when none is given.
pub const DEFAULT_INTERVAL: &'static str = "1s";

/// What `humantime::parse_duration` makes of a text: the duration's whole
/// seconds and sub-second nanoseconds, or the message of its error.
pub uninterp spec fn humantime_duration(text: Seq<char>) -> Result<(u64, u32), Seq<char>>;

/// The most significant digits an interval text may hold.
pub const MAX_INTERVAL_DIGITS: usize = 11;

/// The significant ASCII digits of `s`, read from the front with `seen` telling
/// whether the number being read has had a non-zero digit: a number runs over
/// digits, white space and a decimal point, and any other character (a unit's
/// letter) ends it; its leading zeros do not count.
pub open spec fn significant_digits_from(s: Seq<char>, seen: bool) -> nat
    decreases s.len(),
{
    if s.len() == 0 {
        0
    } else {
        let c = s[0];
        if '0' <= c && c <= '9' {
            let now = seen || c != '0';
            (if now {
                1nat
            } else {
                0nat
            }) + significant_digits_from(s.drop_first(), now)
        } else if c == '.' || is_ws(c) {
            significant_digits_from(s.drop_first(), seen)
        } else {
            significant_digits_from(s.drop_first(), false)
        }
    }
}

/// The significant digits of an interval text: its ASCII digits but the
/// leading zeros of each number.
pub open spec fn significant_digits(s: Seq<char>) -> nat {
    significant_digits_from(s, false)
}

/// Calls `humantime::parse_duration`. Its contract: the result is what
/// `humantime_duration` names for the text (the error as its `Display`
/// message), and the nanoseconds are below one second, as `Duration` keeps them.
/// The call panics (in `Duration::new`) only when the seconds it adds up reach
/// `u64::MAX` as a full second of nanoseconds carries over. Its numbers are
/// made of the ASCII digits of the text, running over white space and a
/// decimal point; a span whose number and fraction have `d` significant digits
/// adds less than `2 * 10^d * 31_557_600` seconds (a year being the longest
/// unit), and one with none adds nothing, so a text of at most eleven
/// significant digits stays below `2^63` seconds: the `requires` admits only
/// such texts.
#[verifier::external_body]
fn humantime_parse(value: &str) -> (r: Result<(u64, u32), String>)
    requires
        significant_digits(value@) <= MAX_INTERVAL_DIGITS,
    ensures
        match r {
            Ok(d) => humantime_duration(value@) == Ok::<(u64, u32), Seq<char>>(d) && d.1
                < 1_000_000_000,
            Err(e) => humantime_duration(value@) == Err::<(u64, u32), Seq<char>>(e@),
        },
{
    match humantime::parse_duration(value) {
        Ok(d) => Ok((d.as_secs(), d.subsec_nanos())),
        Err(e) => Err(e.to_string()),
    }
}

/// The message given for a zero interval.
pub open spec fn zero_interval_message() -> Seq<char> {
    "interval must be greater than zero"@
}

/// The interval that a parsed duration gives: a zero duration is refused,
/// and a parse error is passed on as it is.
pub open spec fn interval_of(parsed: Result<(u64, u32), Seq<char>>) -> Result<Interval, Seq<char>> {
    match parsed {
        Ok((secs, nanos)) => if secs == 0 && nanos == 0 {
            Err(zero_interval_message())
        } else {
            Ok(Interval { secs, nanos })
        },
        Err(e) => Err(e),
    }
}

/// The view of an interval result.
pub open spec fn interval_result_view(r: Result<Interval, String>) -> Result<Interval, Seq<char>> {
    match r {
        Ok(i) => Ok(i),
        Err(e) => Err(e@),
    }
}

/// The interval that a parsed duration gives (see `interval_of`).
pub fn check_interval(parsed: Result<(u64, u32), String>) -> (r: Result<Interval, String>)
    ensures
        interval_result_view(r) == interval_of(
            match parsed {
                Ok(d) => Ok(d),
                Err(e) => Err(e@),
            },
        ),
{
    match parsed {
        Ok((secs, nanos)) => {
            if secs == 0 && nanos == 0 {
                let msg = chars_of("interval must be greater than zero");
                Err(string_of(msg.as_slice()))
            } else {
                Ok(Interval { secs, nanos })
            }
        },
        Err(e) => Err(e),
    }
}

/// The message given for a text with more digits than an interval may hold.
pub open spec fn too_many_digits_message() -> Seq<char> {
    "interval has too many digits"@
}

/// The significant digits of `s` (see `significant_digits`).
fn count_significant_digits(s: &str) -> (n: usize)
    ensures
        n == significant_digits(s@),
{
    let c = chars_of(s);
    let mut n: usize = 0;
    let mut seen = false;
    let mut i: usize = 0;
    assert(c@.skip(0) == c@);
    while i < c.len()
        invariant
            i <= c.len(),
            c@ == s@,
            n + significant_digits_from(c@.skip(i as int), seen) == significant_digits(s@),
            n <= i,
        decreases c.len() - i,
    {
        let ghost rest = c@.skip(i as int);
        assert(rest[0] == c@[i as int]);
        assert(rest.drop_first() == c@.skip(i + 1));
        let ch = c[i];
        if '0' <= ch && ch <= '9' {
            seen = seen || ch != '0';
            if seen {
                n += 1;
            }
        } else if ch == '.' || is_whitespace(ch) {
        } else {
            seen = false;
        }
        i += 1;
    }
    n
}

/// Reads an `--interval` value such as `500ms` or `2.5s`: a text of more
/// than `MAX_INTERVAL_DIGITS` significant digits is refused, zero is refused,
/// and a text that humantime does not read gives its error.
pub fn parse_duration(value: &str) -> (r: Result<Interval, String>)
    ensures
        interval_result_view(r) == if significant_digits(value@) > MAX_INTERVAL_DIGITS {
            Err(too_many_digits_message())
        } else {
            interval_of(humantime_duration(value@))
        },
        r matches Ok(i) ==> i.wf(),
{
    if count_significant_digits(value) > MAX_INTERVAL_DIGITS {
        let msg = chars_of("interval has too many digits");
        return Err(string_of(msg.as_slice()));
    }
    check_interval(humantime_parse(value))
}

/// A key of the interactive view, as far as quitting is concerned.
#[derive(Debug, Clone, Copy, PartialEq, Eq)]
pub enum Key {
    Esc,
    Char(char),
    Other,
}

/// The keys that end the interactive view: `q`, `Esc`, and `Ctrl-C`.
pub open spec fn quits(code: Key, control: bool) -> bool {
    code == Key::Esc || code == Key::Char('q') || (code == Key::Char('c') && control)
}

/// Whether a key press (with whether Control is held) ends the interactive view.
pub fn should_quit(code: Key, control: bool) -> (r: bool)
    ensures
        r == quits(code, control),
{
    match code {
        Key::Esc => true,
        Key::Char(c) => c == 'q' || (c == 'c' && control),
        Key::Other => false,
    }
}


/// What the interactive view does after waiting for a key.
#[derive(Debug, Clone, Copy, PartialEq, Eq)]
pub enum ViewStep {
    /// A quit key was pressed: the view ends.
    Quit,
    /// A whole interval has passed since the last sample: take a new one.
    Sample,
    /// Draw the view again and wait for the rest of the interval.
    Wait,
}

/// How long the view waits for a key: what is left of `interval` after
/// `elapsed`, or nothing once the interval has passed.
pub fn wait_time(interval: Interval, elapsed: Interval) -> (w: Interval)
    requires
        interval.wf(),
        elapsed.wf(),
    ensures
        w.wf(),
        w.total_nanos() == if elapsed.total_nanos() <= interval.total_nanos() {
            interval.total_nanos() - elapsed.total_nanos()
        } else {
            0
        },
{
    if elapsed.secs > interval.secs || (elapsed.secs == interval.secs && elapsed.nanos
        > interval.nanos) {
        Interval { secs: 0, nanos: 0 }
    } else if interval.nanos >= elapsed.nanos {
        Interval { secs: interval.secs - elapsed.secs, nanos: interval.nanos - elapsed.nanos }
    } else {
        Interval {
            secs: interval.secs - elapsed.secs - 1,
            nanos: 1_000_000_000 - elapsed.nanos + interval.nanos,
        }
    }
}

/// The step after a wait of the interactive view: a pressed quit key (with
/// whether Control is held) ends the view; otherwise, once `elapsed` since the
/// last sample reaches `interval`, a sample is due; otherwise it waits on.
pub fn view_step(pressed: Option<(Key, bool)>, elapsed: Interval, interval: Interval) -> (step:
    ViewStep)
    ensures
        step == if pressed matches Some((code, control)) && quits(code, control) {
            ViewStep::Quit
        } else if elapsed.total_nanos() >= interval.total_nanos() {
            ViewStep::Sample
        } else {
            ViewStep::Wait
        },
{
    let quit = match pressed {
        Some((code, control)) => should_quit(code, control),
        None => false,
    };
    if quit {
        ViewStep::Quit
    } else if elapsed.secs as u128 * 1_000_000_000 + elapsed.nanos as u128 >= interval.secs as u128
        * 1_000_000_000 + interval.nanos as u128 {
        ViewStep::Sample
    } else {
        ViewStep::Wait
    }
}

} // verus!
