//! Character-level text handling shared by the parsers: the meaning of the
//! `str` operations that the data sources are read with (`lines`, `trim`,
//! `split_once`, `split`, `split_whitespace`), stated over `Seq<char>`, and
//! executable versions proved against those statements.
use vstd::prelude::*;

verus! {

// ---------------------------------------------------------------------------
// Specifications
// ---------------------------------------------------------------------------

/// Unicode `White_Space`, the set that `char::is_whitespace` tests.
pub open spec fn is_ws(c: char) -> bool {
    let u = c as u32;
    ||| 0x09 <= u && u <= 0x0D
    ||| u == 0x20
    ||| u == 0x85
    ||| u == 0xA0
    ||| u == 0x1680
    ||| 0x2000 <= u && u <= 0x200A
    ||| u == 0x2028
    ||| u == 0x2029
    ||| u == 0x202F
    ||| u == 0x205F
    ||| u == 0x3000
}

/// The code of `c` after ASCII lower-casing.
pub open spec fn lower_code(c: char) -> u32 {
    let u = c as u32;
    if 0x41 <= u && u <= 0x5A {
        (u + 32) as u32
    } else {
        u
    }
}

/// `a.eq_ignore_ascii_case(b)` where `b` is ASCII (as every pattern here is).
pub open spec fn eq_ignore_case(a: Seq<char>, b: Seq<char>) -> bool {
    &&& a.len() == b.len()
    &&& forall|i: int| 0 <= i < a.len() ==> lower_code(a[i]) == lower_code(b[i])
}

/// `s.contains(pat)` for a non-empty pattern: `pat` occurs in `s` at some offset.
pub open spec fn contains_seq(s: Seq<char>, pat: Seq<char>) -> bool {
    exists|i: int| 0 <= i && i + pat.len() <= s.len() && #[trigger] s.subrange(i, i + pat.len()) == pat
}

/// `s.starts_with(pat)`.
pub open spec fn starts_with(s: Seq<char>, pat: Seq<char>) -> bool {
    pat.len() <= s.len() && s.take(pat.len() as int) == pat
}

/// `s.split_once(c)`: the text before and after the first `c`.
pub open spec fn split_once(s: Seq<char>, c: char) -> Option<(Seq<char>, Seq<char>)> {
    match s.index_of_first(c) {
        Some(i) => Some((s.take(i), s.skip(i + 1))),
        None => None,
    }
}

/// `s.split(c)`: the pieces between occurrences of `c` (at least one piece).
pub open spec fn split(s: Seq<char>, c: char) -> Seq<Seq<char>>
    decreases s.len(),
{
    match s.index_of_first(c) {
        Some(i) => {
            proof {
                s.index_of_first_ensures(c);
            }
            seq![s.take(i)] + split(s.skip(i + 1), c)
        },
        None => seq![s],
    }
}

/// A line taken from before a `'\n'` loses one trailing `'\r'`.
pub open spec fn strip_cr(l: Seq<char>) -> Seq<char> {
    if l.len() > 0 && l.last() == '\r' {
        l.drop_last()
    } else {
        l
    }
}

/// `s.lines()`: lines end at `"\n"` or `"\r\n"`; a final line needs no ending,
/// and an empty text has no lines.
pub open spec fn lines(s: Seq<char>) -> Seq<Seq<char>>
    decreases s.len(),
{
    if s.len() == 0 {
        Seq::empty()
    } else {
        match s.index_of_first('\n') {
            Some(i) => {
                proof {
                    s.index_of_first_ensures('\n');
                }
                seq![strip_cr(s.take(i))] + lines(s.skip(i + 1))
            },
            None => seq![s],
        }
    }
}

/// Number of leading white-space characters.
pub open spec fn ws_prefix(s: Seq<char>) -> nat
    decreases s.len(),
{
    if s.len() > 0 && is_ws(s[0]) {
        1 + ws_prefix(s.drop_first())
    } else {
        0
    }
}

/// Number of leading characters that are not white space.
pub open spec fn word_prefix(s: Seq<char>) -> nat
    decreases s.len(),
{
    if s.len() > 0 && !is_ws(s[0]) {
        1 + word_prefix(s.drop_first())
    } else {
        0
    }
}

/// Number of trailing white-space characters.
pub open spec fn ws_suffix(s: Seq<char>) -> nat
    decreases s.len(),
{
    if s.len() > 0 && is_ws(s.last()) {
        1 + ws_suffix(s.drop_last())
    } else {
        0
    }
}

/// `s.trim_start()`.
pub open spec fn trim_start(s: Seq<char>) -> Seq<char> {
    s.skip(ws_prefix(s) as int)
}

/// `s.trim_end()`.
pub open spec fn trim_end(s: Seq<char>) -> Seq<char> {
    s.take(s.len() - ws_suffix(s))
}

/// `s.trim()`.
pub open spec fn trim(s: Seq<char>) -> Seq<char> {
    trim_end(trim_start(s))
}

/// `s.split_whitespace()`: the maximal runs of characters that are not white space.
pub open spec fn tokens(s: Seq<char>) -> Seq<Seq<char>>
    decreases s.len(),
{
    let t = trim_start(s);
    if t.len() == 0 {
        Seq::empty()
    } else {
        let n = word_prefix(t);
        proof {
            lemma_ws_prefix_bound(s);
            lemma_trim_start_first(s);
            lemma_word_prefix_bound(t);
        }
        seq![t.take(n as int)] + tokens(t.skip(n as int))
    }
}

/// `s.split_whitespace().next()`.
pub open spec fn first_token(s: Seq<char>) -> Option<Seq<char>> {
    let ts = tokens(s);
    if ts.len() > 0 {
        Some(ts[0])
    } else {
        None
    }
}

/// The leading white space of `s` is within `s`, all white space, and ends
/// at a character that is not.
pub proof fn lemma_ws_prefix_bound(s: Seq<char>)
    ensures
        ws_prefix(s) <= s.len(),
        forall|j: int| 0 <= j < ws_prefix(s) ==> is_ws(#[trigger] s[j]),
        ws_prefix(s) < s.len() ==> !is_ws(s[ws_prefix(s) as int]),
    decreases s.len(),
{
    if s.len() > 0 && is_ws(s[0]) {
        lemma_ws_prefix_bound(s.drop_first());
        assert forall|j: int| 0 <= j < ws_prefix(s) implies is_ws(#[trigger] s[j]) by {
            if j > 0 {
                assert(s[j] == s.drop_first()[j - 1]);
            }
        }
    }
}

/// The leading word of `s` is within `s`, has no white space, and ends at
/// white space or the end; a non-empty text that starts with a word has one.
pub proof fn lemma_word_prefix_bound(s: Seq<char>)
    ensures
        word_prefix(s) <= s.len(),
        forall|j: int| 0 <= j < word_prefix(s) ==> !is_ws(#[trigger] s[j]),
        word_prefix(s) < s.len() ==> is_ws(s[word_prefix(s) as int]),
        s.len() > 0 && !is_ws(s[0]) ==> word_prefix(s) > 0,
    decreases s.len(),
{
    if s.len() > 0 && !is_ws(s[0]) {
        lemma_word_prefix_bound(s.drop_first());
        assert forall|j: int| 0 <= j < word_prefix(s) implies !is_ws(#[trigger] s[j]) by {
            if j > 0 {
                assert(s[j] == s.drop_first()[j - 1]);
            }
        }
    }
}

/// The trailing white space of `s` is within `s`, all white space, and starts
/// after a character that is not.
pub proof fn lemma_ws_suffix_bound(s: Seq<char>)
    ensures
        ws_suffix(s) <= s.len(),
        forall|j: int| s.len() - ws_suffix(s) <= j < s.len() ==> is_ws(#[trigger] s[j]),
        ws_suffix(s) < s.len() ==> !is_ws(s[s.len() - ws_suffix(s) - 1]),
    decreases s.len(),
{
    if s.len() > 0 && is_ws(s.last()) {
        lemma_ws_suffix_bound(s.drop_last());
        assert forall|j: int| s.len() - ws_suffix(s) <= j < s.len() implies is_ws(#[trigger] s[j]) by {
            if j < s.len() - 1 {
                assert(s[j] == s.drop_last()[j]);
            }
        }
    }
}

/// Text trimmed at the start does not start with white space.
pub proof fn lemma_trim_start_first(s: Seq<char>)
    ensures
        trim_start(s).len() > 0 ==> !is_ws(trim_start(s)[0]),
{
    lemma_ws_prefix_bound(s);
}

/// A prefix of `i` white-space characters followed by a non-white-space one (or
/// the end) is exactly the leading white space.
pub proof fn lemma_ws_prefix_is(s: Seq<char>, i: int)
    requires
        0 <= i <= s.len(),
        forall|j: int| 0 <= j < i ==> is_ws(#[trigger] s[j]),
        i == s.len() || !is_ws(s[i]),
    ensures
        ws_prefix(s) == i,
    decreases i,
{
    if i > 0 {
        let t = s.drop_first();
        assert forall|j: int| 0 <= j < i - 1 implies is_ws(#[trigger] t[j]) by {
            assert(t[j] == s[j + 1]);
        }
        if i - 1 < t.len() {
            assert(t[i - 1] == s[i]);
        }
        lemma_ws_prefix_is(t, i - 1);
    }
}

/// A prefix of `i` characters that are not white space, followed by white
/// space (or the end), is exactly the leading word.
pub proof fn lemma_word_prefix_is(s: Seq<char>, i: int)
    requires
        0 <= i <= s.len(),
        forall|j: int| 0 <= j < i ==> !is_ws(#[trigger] s[j]),
        i == s.len() || is_ws(s[i]),
    ensures
        word_prefix(s) == i,
    decreases i,
{
    if i > 0 {
        let t = s.drop_first();
        assert forall|j: int| 0 <= j < i - 1 implies !is_ws(#[trigger] t[j]) by {
            assert(t[j] == s[j + 1]);
        }
        if i - 1 < t.len() {
            assert(t[i - 1] == s[i]);
        }
        lemma_word_prefix_is(t, i - 1);
    }
}

/// A suffix of `k` white-space characters preceded by a character that is
/// not (or the start) is exactly the trailing white space.
pub proof fn lemma_ws_suffix_is(s: Seq<char>, k: int)
    requires
        0 <= k <= s.len(),
        forall|j: int| s.len() - k <= j < s.len() ==> is_ws(#[trigger] s[j]),
        k == s.len() || !is_ws(s[s.len() - k - 1]),
    ensures
        ws_suffix(s) == k,
    decreases k,
{
    if k > 0 {
        let t = s.drop_last();
        assert forall|j: int| t.len() - (k - 1) <= j < t.len() implies is_ws(#[trigger] t[j]) by {
            assert(t[j] == s[j]);
        }
        if k - 1 < t.len() {
            assert(t[t.len() - (k - 1) - 1] == s[s.len() - k - 1]);
        }
        lemma_ws_suffix_is(t, k - 1);
    }
}

/// The first occurrence of `c` is at `i` when none comes before it.
pub proof fn lemma_first_index_is(s: Seq<char>, c: char, i: int)
    requires
        0 <= i < s.len(),
        s[i] == c,
        forall|j: int| 0 <= j < i ==> s[j] != c,
    ensures
        s.index_of_first(c) == Some(i),
{
    s.index_of_first_ensures(c);
    assert(s.contains(c));
    match s.index_of_first(c) {
        Some(k) => {
            if k < i {
                assert(s[k] != c);
            } else if k > i {
                assert(s[i] != c);
            }
        },
        None => {},
    }
}

/// A text that is empty or ends with a line break, followed by another, has
/// the lines of the first and then those of the second.
pub proof fn lemma_lines_concat(a: Seq<char>, b: Seq<char>)
    requires
        a.len() == 0 || a.last() == '\n',
    ensures
        lines(a + b) == lines(a) + lines(b),
    decreases a.len(),
{
    if a.len() == 0 {
        assert(a + b =~= b);
        assert(lines(a) + lines(b) =~= lines(b));
    } else {
        a.index_of_first_ensures('\n');
        assert(a.contains('\n')) by {
            assert(a[a.len() - 1] == '\n');
        }
        let i = a.index_of_first('\n').unwrap();
        let s = a + b;
        assert forall|j: int| 0 <= j < i implies s[j] != '\n' by {
            assert(s[j] == a[j]);
        }
        lemma_first_index_is(s, '\n', i);
        let rest = a.skip(i + 1);
        assert(rest.len() == 0 || rest.last() == '\n');
        lemma_lines_concat(rest, b);
        assert(s.take(i) =~= a.take(i));
        assert(s.skip(i + 1) =~= rest + b);
        assert(lines(s) == seq![strip_cr(a.take(i))] + lines(rest + b));
        assert(lines(a) == seq![strip_cr(a.take(i))] + lines(rest));
        assert(lines(s) =~= lines(a) + lines(b));
    }
}

/// No occurrence of `c` at all.
pub proof fn lemma_first_index_none(s: Seq<char>, c: char)
    requires
        forall|j: int| 0 <= j < s.len() ==> s[j] != c,
    ensures
        s.index_of_first(c) == None::<int>,
{
    s.index_of_first_ensures(c);
    if s.contains(c) {
        let j = choose|j: int| 0 <= j < s.len() && s[j] == c;
        assert(s[j] != c);
    }
}

// ---------------------------------------------------------------------------
// Executable operations
// ---------------------------------------------------------------------------

/// The characters of `s`, in order.
pub fn chars_of(s: &str) -> (v: Vec<char>)
    ensures
        v@ == s@,
{
    let mut v: Vec<char> = Vec::new();
    for c in it: s.chars()
        invariant
            v@ == it.seq().take(it.index() as int),
    {
        v.push(c);
    }
    v
}

/// Appends `c` to `s` (`String::push`).
#[verifier::external_body]
fn string_push(s: &mut String, c: char)
    ensures
        final(s)@ == old(s)@.push(c),
{
    s.push(c);
}

/// A `String` holding exactly the characters of `v`.
pub fn string_of(v: &[char]) -> (s: String)
    ensures
        s@ == v@,
{
    let mut s = String::new();
    let mut i: usize = 0;
    while i < v.len()
        invariant
            i <= v.len(),
            s@ == v@.take(i as int),
        decreases v.len() - i,
    {
        string_push(&mut s, v[i]);
        assert(v@.take(i + 1) == v@.take(i as int).push(v@[i as int]));
        i += 1;
    }
    assert(v@.take(v.len() as int) == v@);
    s
}

/// `char::is_whitespace`.
pub fn is_whitespace(c: char) -> (b: bool)
    ensures
        b == is_ws(c),
{
    let u = c as u32;
    (0x09 <= u && u <= 0x0D) || u == 0x20 || u == 0x85 || u == 0xA0 || u == 0x1680 || (0x2000
        <= u && u <= 0x200A) || u == 0x2028 || u == 0x2029 || u == 0x202F || u == 0x205F || u
        == 0x3000
}

/// The characters `s[lo..hi]`.
pub fn slice_chars(s: &[char], lo: usize, hi: usize) -> (v: Vec<char>)
    requires
        lo <= hi <= s.len(),
    ensures
        v@ == s@.subrange(lo as int, hi as int),
{
    let mut v: Vec<char> = Vec::new();
    let mut i = lo;
    while i < hi
        invariant
            lo <= i <= hi <= s.len(),
            v@ == s@.subrange(lo as int, i as int),
        decreases hi - i,
    {
        v.push(s[i]);
        assert(s@.subrange(lo as int, i + 1) == s@.subrange(lo as int, i as int).push(s@[i as int]));
        i += 1;
    }
    v
}

/// Equality of two character sequences.
pub fn chars_eq(a: &[char], b: &[char]) -> (r: bool)
    ensures
        r == (a@ == b@),
{
    if a.len() != b.len() {
        return false;
    }
    let mut i: usize = 0;
    while i < a.len()
        invariant
            a.len() == b.len(),
            i <= a.len(),
            forall|j: int| 0 <= j < i ==> a@[j] == b@[j],
        decreases a.len() - i,
    {
        if a[i] != b[i] {
            return false;
        }
        i += 1;
    }
    assert(a@ =~= b@);
    true
}

/// `a == b` for a literal `b`.
pub fn eq_str(a: &[char], b: &str) -> (r: bool)
    ensures
        r == (a@ == b@),
{
    let bv = chars_of(b);
    chars_eq(a, bv.as_slice())
}

/// ASCII lower-casing of one character's code.
fn lower_code_of(c: char) -> (u: u32)
    ensures
        u == lower_code(c),
{
    let u = c as u32;
    if 0x41 <= u && u <= 0x5A {
        u + 32
    } else {
        u
    }
}

/// `a.eq_ignore_ascii_case(b)` for an ASCII literal `b`.
pub fn eq_ignore_case_str(a: &[char], b: &str) -> (r: bool)
    ensures
        r == eq_ignore_case(a@, b@),
{
    let bv = chars_of(b);
    if a.len() != bv.len() {
        return false;
    }
    let mut i: usize = 0;
    while i < a.len()
        invariant
            a.len() == bv.len(),
            bv@ == b@,
            i <= a.len(),
            forall|j: int| 0 <= j < i ==> lower_code(a@[j]) == lower_code(bv@[j]),
        decreases a.len() - i,
    {
        if lower_code_of(a[i]) != lower_code_of(bv[i]) {
            return false;
        }
        i += 1;
    }
    true
}

/// `s.starts_with(pat)` for a literal `pat`.
pub fn starts_with_str(s: &[char], pat: &str) -> (r: bool)
    ensures
        r == starts_with(s@, pat@),
{
    let p = chars_of(pat);
    if p.len() > s.len() {
        return false;
    }
    let head = slice_chars(s, 0, p.len());
    assert(head@ == s@.take(p.len() as int));
    chars_eq(head.as_slice(), p.as_slice())
}

/// `s.contains(pat)` for a non-empty literal `pat`.
pub fn contains_str(s: &[char], pat: &str) -> (r: bool)
    ensures
        r == contains_seq(s@, pat@),
{
    let p = chars_of(pat);
    if p.len() > s.len() {
        assert forall|i: int| 0 <= i && i + pat@.len() <= s@.len() implies #[trigger] s@.subrange(
            i,
            i + pat@.len(),
        ) != pat@ by {}
        return false;
    }
    let last = s.len() - p.len();
    let mut i: usize = 0;
    loop
        invariant
            p@ == pat@,
            p.len() <= s.len(),
            last == s.len() - p.len(),
            i <= last,
            forall|k: int| 0 <= k < i ==> #[trigger] s@.subrange(k, k + pat@.len()) != pat@,
        ensures
            forall|k: int| 0 <= k <= last ==> #[trigger] s@.subrange(k, k + pat@.len()) != pat@,
        decreases last - i,
    {
        let window = slice_chars(s, i, i + p.len());
        if chars_eq(window.as_slice(), p.as_slice()) {
            assert(s@.subrange(i as int, i + pat@.len()) == pat@);
            return true;
        }
        if i == last {
            break;
        }
        i += 1;
    }
    assert forall|k: int| 0 <= k && k + pat@.len() <= s@.len() implies #[trigger] s@.subrange(
        k,
        k + pat@.len(),
    ) != pat@ by {
        assert(k <= last);
    }
    false
}

/// Index of the first `c` in `s`, if any.
pub fn find_char(s: &[char], c: char) -> (r: Option<usize>)
    ensures
        match r {
            Some(i) => i < s@.len() && s@.index_of_first(c) == Some(i as int),
            None => s@.index_of_first(c) == None::<int>,
        },
{
    let mut i: usize = 0;
    while i < s.len()
        invariant
            i <= s.len(),
            forall|j: int| 0 <= j < i ==> s@[j] != c,
        decreases s.len() - i,
    {
        if s[i] == c {
            proof {
                lemma_first_index_is(s@, c, i as int);
            }
            return Some(i);
        }
        i += 1;
    }
    proof {
        lemma_first_index_none(s@, c);
    }
    None
}

/// `s.split_once(c)`.
pub fn split_once_char(s: &[char], c: char) -> (r: Option<(Vec<char>, Vec<char>)>)
    ensures
        match r {
            Some((a, b)) => split_once(s@, c) == Some((a@, b@)),
            None => split_once(s@, c) == None::<(Seq<char>, Seq<char>)>,
        },
{
    let found = find_char(s, c);
    match found {
        Some(i) => {
            assert(i < s.len());
            let a = slice_chars(s, 0, i);
            let b = slice_chars(s, i + 1, s.len());
            assert(a@ == s@.take(i as int));
            assert(b@ == s@.skip(i + 1));
            Some((a, b))
        },
        None => None,
    }
}

/// `s.trim()`.
pub fn trim_chars(s: &[char]) -> (v: Vec<char>)
    ensures
        v@ == trim(s@),
{
    let mut lo: usize = 0;
    while lo < s.len() && is_whitespace(s[lo])
        invariant
            lo <= s.len(),
            forall|j: int| 0 <= j < lo ==> is_ws(#[trigger] s@[j]),
        decreases s.len() - lo,
    {
        lo += 1;
    }
    proof {
        lemma_ws_prefix_is(s@, lo as int);
    }
    let ghost t = s@.skip(lo as int);
    let mut hi: usize = s.len();
    while hi > lo && is_whitespace(s[hi - 1])
        invariant
            lo <= hi <= s.len(),
            t == s@.skip(lo as int),
            forall|j: int| hi <= j < s.len() ==> is_ws(#[trigger] s@[j]),
        decreases hi,
    {
        hi -= 1;
    }
    proof {
        let k = s.len() - hi;
        assert forall|j: int| t.len() - k <= j < t.len() implies is_ws(#[trigger] t[j]) by {
            assert(t[j] == s@[j + lo]);
        }
        if k < t.len() {
            assert(t[t.len() - k - 1] == s@[hi - 1]);
        }
        lemma_ws_suffix_is(t, k as int);
    }
    let v = slice_chars(s, lo, hi);
    assert(v@ == t.take(t.len() - ws_suffix(t)));
    v
}

/// `s.split_whitespace()`, collected.
pub fn split_whitespace(s: &[char]) -> (r: Vec<Vec<char>>)
    ensures
        r@.len() == tokens(s@).len(),
        forall|i: int| 0 <= i < r@.len() ==> #[trigger] r@[i]@ == tokens(s@)[i],
{
    let mut r: Vec<Vec<char>> = Vec::new();
    let mut pos: usize = 0;
    let ghost mut done: Seq<Seq<char>> = Seq::empty();
    assert(s@.skip(0) == s@);
    while pos < s.len()
        invariant
            pos <= s.len(),
            r@.len() == done.len(),
            forall|i: int| 0 <= i < r@.len() ==> #[trigger] r@[i]@ == done[i],
            tokens(s@) == done + tokens(s@.skip(pos as int)),
        decreases s.len() - pos,
    {
        let ghost rest = s@.skip(pos as int);
        let mut a = pos;
        while a < s.len() && is_whitespace(s[a])
            invariant
                pos <= a <= s.len(),
                rest == s@.skip(pos as int),
                forall|j: int| pos <= j < a ==> is_ws(#[trigger] s@[j]),
            decreases s.len() - a,
        {
            a += 1;
        }
        proof {
            assert forall|j: int| 0 <= j < a - pos implies is_ws(#[trigger] rest[j]) by {
                assert(rest[j] == s@[j + pos]);
            }
            if a < s.len() {
                assert(rest[a - pos] == s@[a as int]);
            }
            lemma_ws_prefix_is(rest, a - pos);
            assert(trim_start(rest) == s@.skip(a as int));
        }
        if a == s.len() {
            proof {
                assert(tokens(rest) == Seq::<Seq<char>>::empty());
                assert(done + tokens(rest) == done);
            }
            pos = a;
            proof {
                assert(s@.skip(pos as int).len() == 0);
                assert(tokens(s@.skip(pos as int)) == Seq::<Seq<char>>::empty());
            }
        } else {
            let ghost t = s@.skip(a as int);
            let mut b = a;
            while b < s.len() && !is_whitespace(s[b])
                invariant
                    a <= b <= s.len(),
                    t == s@.skip(a as int),
                    forall|j: int| a <= j < b ==> !is_ws(#[trigger] s@[j]),
                decreases s.len() - b,
            {
                b += 1;
            }
            proof {
                assert forall|j: int| 0 <= j < b - a implies !is_ws(#[trigger] t[j]) by {
                    assert(t[j] == s@[j + a]);
                }
                if b < s.len() {
                    assert(t[b - a] == s@[b as int]);
                }
                lemma_word_prefix_is(t, b - a);
                assert(t.skip(b - a) == s@.skip(b as int));
            }
            let w = slice_chars(s, a, b);
            proof {
                assert(w@ == t.take(b - a));
                assert(tokens(rest) == seq![w@] + tokens(s@.skip(b as int)));
                done = done.push(w@);
            }
            r.push(w);
            pos = b;
        }
    }
    proof {
        assert(s@.skip(pos as int).len() == 0);
        assert(tokens(s@.skip(pos as int)) == Seq::<Seq<char>>::empty());
        assert(done + Seq::<Seq<char>>::empty() == done);
    }
    r
}

/// `s.lines()`, collected.
pub fn split_lines(s: &[char]) -> (r: Vec<Vec<char>>)
    ensures
        r@.len() == lines(s@).len(),
        forall|i: int| 0 <= i < r@.len() ==> #[trigger] r@[i]@ == lines(s@)[i],
{
    let mut r: Vec<Vec<char>> = Vec::new();
    let mut pos: usize = 0;
    let ghost mut done: Seq<Seq<char>> = Seq::empty();
    assert(s@.skip(0) == s@);
    while pos < s.len()
        invariant
            pos <= s.len(),
            r@.len() == done.len(),
            forall|i: int| 0 <= i < r@.len() ==> #[trigger] r@[i]@ == done[i],
            lines(s@) == done + lines(s@.skip(pos as int)),
        decreases s.len() - pos,
    {
        let ghost rest = s@.skip(pos as int);
        let mut e = pos;
        while e < s.len() && s[e] != '\n'
            invariant
                pos <= e <= s.len(),
                rest == s@.skip(pos as int),
                forall|j: int| pos <= j < e ==> s@[j] != '\n',
            decreases s.len() - e,
        {
            e += 1;
        }
        if e < s.len() {
            proof {
                assert forall|j: int| 0 <= j < e - pos implies rest[j] != '\n' by {
                    assert(rest[j] == s@[j + pos]);
                }
                assert(rest[e - pos] == s@[e as int]);
                lemma_first_index_is(rest, '\n', e - pos);
            }
            let mut end = e;
            if end > pos && s[end - 1] == '\r' {
                end = end - 1;
            }
            let l = slice_chars(s, pos, end);
            proof {
                let raw = rest.take(e - pos);
                assert(raw == s@.subrange(pos as int, e as int));
                if e > pos && s@[e - 1] == '\r' {
                    assert(raw.last() == s@[e - 1]);
                    assert(strip_cr(raw) == raw.drop_last());
                    assert(raw.drop_last() =~= s@.subrange(pos as int, end as int));
                }
                assert(l@ == strip_cr(raw));
                assert(rest.skip(e - pos + 1) == s@.skip(e + 1));
                assert(lines(rest) == seq![l@] + lines(s@.skip(e + 1)));
                done = done.push(l@);
            }
            r.push(l);
            pos = e + 1;
        } else {
            proof {
                assert forall|j: int| 0 <= j < rest.len() implies rest[j] != '\n' by {
                    assert(rest[j] == s@[j + pos]);
                }
                lemma_first_index_none(rest, '\n');
                assert(lines(rest) == seq![rest]);
            }
            let l = slice_chars(s, pos, s.len());
            proof {
                assert(l@ == rest);
                done = done.push(l@);
            }
            r.push(l);
            pos = s.len();
            proof {
                assert(s@.skip(pos as int).len() == 0);
                assert(lines(s@.skip(pos as int)) == Seq::<Seq<char>>::empty());
                assert(done == done.drop_last() + seq![rest]);
            }
        }
    }
    proof {
        assert(s@.skip(pos as int).len() == 0);
        assert(lines(s@.skip(pos as int)) == Seq::<Seq<char>>::empty());
        assert(done + Seq::<Seq<char>>::empty() == done);
    }
    r
}

/// `s.split(c)`, collected.
pub fn split_char(s: &[char], c: char) -> (r: Vec<Vec<char>>)
    ensures
        r@.len() == split(s@, c).len(),
        forall|i: int| 0 <= i < r@.len() ==> #[trigger] r@[i]@ == split(s@, c)[i],
{
    let mut r: Vec<Vec<char>> = Vec::new();
    let mut pos: usize = 0;
    let ghost mut done: Seq<Seq<char>> = Seq::empty();
    assert(s@.skip(0) == s@);
    loop
        invariant
            pos <= s.len(),
            r@.len() == done.len(),
            forall|i: int| 0 <= i < r@.len() ==> #[trigger] r@[i]@ == done[i],
            split(s@, c) == done + split(s@.skip(pos as int), c),
        ensures
            r@.len() == split(s@, c).len(),
            forall|i: int| 0 <= i < r@.len() ==> #[trigger] r@[i]@ == split(s@, c)[i],
        decreases s.len() - pos,
    {
        let ghost rest = s@.skip(pos as int);
        let mut e = pos;
        while e < s.len() && s[e] != c
            invariant
                pos <= e <= s.len(),
                rest == s@.skip(pos as int),
                forall|j: int| pos <= j < e ==> s@[j] != c,
            decreases s.len() - e,
        {
            e += 1;
        }
        let piece = slice_chars(s, pos, e);
        if e < s.len() {
            proof {
                assert forall|j: int| 0 <= j < e - pos implies rest[j] != c by {
                    assert(rest[j] == s@[j + pos]);
                }
                assert(rest[e - pos] == s@[e as int]);
                lemma_first_index_is(rest, c, e - pos);
                assert(piece@ == rest.take(e - pos));
                assert(rest.skip(e - pos + 1) == s@.skip(e + 1));
                assert(split(rest, c) == seq![piece@] + split(s@.skip(e + 1), c));
                done = done.push(piece@);
            }
            r.push(piece);
            pos = e + 1;
        } else {
            proof {
                assert forall|j: int| 0 <= j < rest.len() implies rest[j] != c by {
                    assert(rest[j] == s@[j + pos]);
                }
                lemma_first_index_none(rest, c);
                assert(piece@ == rest);
                done = done.push(piece@);
                assert(split(s@, c) == done);
            }
            r.push(piece);
            return r;
        }
    }
}

} // verus!
