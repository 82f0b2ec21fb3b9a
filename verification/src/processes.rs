//! `/proc/<pid>/status` parsing and the list of processes with the most
//! resident memory.
use vstd::multiset::Multiset;
use vstd::prelude::*;

use crate::memory::{sat_mul, saturating_mul, Percent};
use crate::num::{parse_u64_chars, parse_u64_dec, parse_unsigned, parse_unsigned_chars};
use crate::text::{
    chars_of, eq_str, first_token, lines, split_lines, split_once, split_once_char, split_whitespace,
    string_of, tokens, trim, trim_chars,
};

verus! {

/// A process and its resident memory.
#[derive(Debug, Clone, PartialEq, Eq)]
pub struct ProcessMemory {
    pub pid: u32,
    pub name: String,
    pub uid: Option<u32>,
    pub rss_bytes: u64,
    pub rss_percent: Option<Percent>,
}

/// A process with its name as characters.
pub struct ProcessView {
    pub pid: u32,
    pub name: Seq<char>,
    pub uid: Option<u32>,
    pub rss_bytes: u64,
    pub rss_percent: Option<Percent>,
}

impl View for ProcessMemory {
    type V = ProcessView;

    open spec fn view(&self) -> ProcessView {
        ProcessView {
            pid: self.pid,
            name: self.name@,
            uid: self.uid,
            rss_bytes: self.rss_bytes,
            rss_percent: self.rss_percent,
        }
    }
}

/// The views of a list of processes.
pub open spec fn processes_view(v: Seq<ProcessMemory>) -> Seq<ProcessView> {
    v.map_values(|p: ProcessMemory| p@)
}

impl ProcessMemory {
    /// A process with no share of memory computed yet.
    pub fn new(pid: u32, name: String, uid: Option<u32>, rss_bytes: u64) -> (p: Self)
        ensures
            p@ == (ProcessView { pid, name: name@, uid, rss_bytes, rss_percent: None }),
    {
        ProcessMemory { pid, name, uid, rss_bytes, rss_percent: None }
    }
}

/// `s.parse::<u32>().ok()`.
pub open spec fn parse_u32_dec(s: Seq<char>) -> Option<u32> {
    match parse_unsigned(s, 10, u32::MAX as nat) {
        Some(v) => Some(v as u32),
        None => None,
    }
}

/// What has been read of a status file: the name, pid, uid and resident size
/// seen so far.
pub struct StatusView {
    pub name: Option<Seq<char>>,
    pub pid: Option<u32>,
    pub uid: Option<u32>,
    pub rss: Option<u64>,
}

/// Nothing read yet.
pub open spec fn empty_status() -> StatusView {
    StatusView { name: None, pid: None, uid: None, rss: None }
}

/// The effect of one `Key:\tvalue` line (the value trimmed); later lines
/// override earlier ones.
pub open spec fn status_line(st: StatusView, line: Seq<char>) -> StatusView {
    match split_once(line, ':') {
        None => st,
        Some((key, raw)) => {
            let value = trim(raw);
            if key == "Name"@ {
                StatusView { name: Some(value), ..st }
            } else if key == "Pid"@ {
                StatusView { pid: parse_u32_dec(value), ..st }
            } else if key == "Uid"@ {
                StatusView {
                    uid: match first_token(value) {
                        Some(w) => parse_u32_dec(w),
                        None => None,
                    },
                    ..st
                }
            } else if key == "VmRSS"@ {
                StatusView {
                    rss: match first_token(value) {
                        Some(w) => match parse_u64_dec(w) {
                            Some(kib) => Some(sat_mul(kib, 1024)),
                            None => None,
                        },
                        None => None,
                    },
                    ..st
                }
            } else {
                st
            }
        },
    }
}

/// The process a status text describes: it needs a name, a pid and a
/// resident size (`VmRSS`, in kB, taken as bytes); the uid is the first (real)
/// uid where one is available, none otherwise.
pub open spec fn status_of(input: Seq<char>) -> Option<ProcessView> {
    let st = lines(input).fold_left(empty_status(), |st: StatusView, line: Seq<char>| status_line(st, line));
    match (st.pid, st.name, st.rss) {
        (Some(pid), Some(name), Some(rss)) => Some(
            ProcessView { pid, name, uid: st.uid, rss_bytes: rss, rss_percent: None },
        ),
        _ => None,
    }
}

/// The view of an optional process.
pub open spec fn opt_process_view(p: Option<ProcessMemory>) -> Option<ProcessView> {
    match p {
        Some(p) => Some(p@),
        None => None,
    }
}

struct StatusFields {
    name: Option<Vec<char>>,
    pid: Option<u32>,
    uid: Option<u32>,
    rss: Option<u64>,
}

impl StatusFields {
    spec fn view(&self) -> StatusView {
        StatusView {
            name: match self.name {
                Some(v) => Some(v@),
                None => None,
            },
            pid: self.pid,
            uid: self.uid,
            rss: self.rss,
        }
    }
}

fn parse_u32_chars(s: &[char]) -> (r: Option<u32>)
    ensures
        r == parse_u32_dec(s@),
{
    match parse_unsigned_chars(s, 10, u32::MAX as u64) {
        Some(v) => Some(v as u32),
        None => None,
    }
}

/// Whether a `/proc` entry name is a process id: a decimal `u32`.
pub fn is_pid_name(name: &str) -> (r: bool)
    ensures
        r == parse_u32_dec(name@) is Some,
{
    let c = chars_of(name);
    parse_u32_chars(c.as_slice()).is_some()
}

/// Reading status lines from any state, the name is the trimmed text after
/// the colon of the last `Name` line.
proof fn lemma_status_name_fold(ls: Seq<Seq<char>>, st: StatusView, i: int, rest: Seq<char>)
    requires
        0 <= i < ls.len(),
        split_once(ls[i], ':') == Some(("Name"@, rest)),
        forall|j: int|
            i < j < ls.len() && #[trigger] split_once(ls[j], ':') is Some ==> (split_once(ls[j], ':')->0).0 != "Name"@,
    ensures
        ls.fold_left(st, |st: StatusView, line: Seq<char>| status_line(st, line)).name == Some(
            trim(rest),
        ),
    decreases ls.len(),
{
    let f = |st: StatusView, line: Seq<char>| status_line(st, line);
    let init = ls.drop_last();
    let n = ls.len() - 1;
    if i < n {
        assert forall|j: int|
            i < j < init.len() && #[trigger] split_once(init[j], ':') is Some implies (split_once(init[j], ':')->0).0 != "Name"@ by {
            assert(init[j] == ls[j]);
            assert(split_once(ls[j], ':') is Some);
        }
        assert(init[i] == ls[i]);
        lemma_status_name_fold(init, st, i, rest);
        let prev = init.fold_left(st, f);
        match split_once(ls[n], ':') {
            Some((k, r)) => {
                assert(split_once(ls[n], ':') is Some);
                assert(k != "Name"@);
                assert(status_line(prev, ls[n]).name == prev.name);
            },
            None => {},
        }
    }
}

/// A process's name is the whole trimmed text after the colon of the last
/// `Name` line, inner white space included.
pub proof fn lemma_status_name(input: Seq<char>, i: int, rest: Seq<char>)
    requires
        0 <= i < lines(input).len(),
        split_once(lines(input)[i], ':') == Some(("Name"@, rest)),
        forall|j: int|
            i < j < lines(input).len() && #[trigger] split_once(lines(input)[j], ':') is Some
                ==> (split_once(lines(input)[j], ':')->0).0 != "Name"@,
    ensures
        status_of(input) matches Some(p) ==> p.name == trim(rest),
{
    lemma_status_name_fold(lines(input), empty_status(), i, rest);
}

/// Reads a `/proc/<pid>/status` text.
pub fn parse_status(input: &str) -> (r: Option<ProcessMemory>)
    ensures
        opt_process_view(r) == status_of(input@),
{
    let text = chars_of(input);
    let all = split_lines(text.as_slice());
    let ghost ls = lines(input@);
    let ghost f = |st: StatusView, line: Seq<char>| status_line(st, line);
    let mut st = StatusFields { name: None, pid: None, uid: None, rss: None };
    let mut i: usize = 0;
    while i < all.len()
        invariant
            ls == lines(input@),
            all@.len() == ls.len(),
            forall|j: int| 0 <= j < all@.len() ==> #[trigger] all@[j]@ == ls[j],
            f == (|st: StatusView, line: Seq<char>| status_line(st, line)),
            i <= all.len(),
            st.view() == ls.take(i as int).fold_left(empty_status(), f),
        decreases all.len() - i,
    {
        assert(all@[i as int]@ == ls[i as int]);
        assert(ls.take(i + 1).drop_last() == ls.take(i as int));
        let ghost before = st.view();
        if let Some((key, raw)) = split_once_char(all[i].as_slice(), ':') {
            let value = trim_chars(raw.as_slice());
            if eq_str(key.as_slice(), "Name") {
                st.name = Some(value);
            } else if eq_str(key.as_slice(), "Pid") {
                st.pid = parse_u32_chars(value.as_slice());
            } else if eq_str(key.as_slice(), "Uid") {
                let words = split_whitespace(value.as_slice());
                st.uid = if words.len() == 0 {
                    None
                } else {
                    assert(words@[0]@ == tokens(value@)[0]);
                    parse_u32_chars(words[0].as_slice())
                };
            } else if eq_str(key.as_slice(), "VmRSS") {
                let words = split_whitespace(value.as_slice());
                st.rss = if words.len() == 0 {
                    None
                } else {
                    assert(words@[0]@ == tokens(value@)[0]);
                    match parse_u64_chars(words[0].as_slice()) {
                        Some(kib) => Some(saturating_mul(kib, 1024)),
                        None => None,
                    }
                };
            }
        }
        assert(st.view() == status_line(before, ls[i as int]));
        i += 1;
    }
    assert(ls.take(all.len() as int) == ls);
    match (st.pid, st.name, st.rss) {
        (Some(pid), Some(name), Some(rss)) => {
            let name = string_of(name.as_slice());
            Some(ProcessMemory::new(pid, name, st.uid, rss))
        },
        _ => None,
    }
}

// ---------------------------------------------------------------------------
// Ranking by resident memory
// ---------------------------------------------------------------------------

/// `a` ranks strictly above `b`: more resident memory, or as much and a
/// smaller pid.
pub open spec fn ranks_above(a: ProcessView, b: ProcessView) -> bool {
    a.rss_bytes > b.rss_bytes || (a.rss_bytes == b.rss_bytes && a.pid < b.pid)
}

/// No process of `s` ranks above one that comes before it.
pub open spec fn ranked(s: Seq<ProcessView>) -> bool {
    forall|i: int, j: int| 0 <= i < j < s.len() ==> !ranks_above(#[trigger] s[j], #[trigger] s[i])
}

/// `x` placed into `t` just before the first process it ranks above.
pub open spec fn insert_ranked(t: Seq<ProcessView>, x: ProcessView) -> Seq<ProcessView>
    decreases t.len(),
{
    if t.len() == 0 {
        seq![x]
    } else if ranks_above(x, t[0]) {
        seq![x] + t
    } else {
        seq![t[0]] + insert_ranked(t.drop_first(), x)
    }
}

/// `s` in rank order; processes of equal rank keep their order (a stable sort).
pub open spec fn rank_sort(s: Seq<ProcessView>) -> Seq<ProcessView>
    decreases s.len(),
{
    if s.len() == 0 {
        Seq::empty()
    } else {
        insert_ranked(rank_sort(s.drop_last()), s.last())
    }
}

/// A process's share of `total` bytes; none when `total` is zero.
pub open spec fn share_of(rss: u64, total: u64) -> Option<Percent> {
    if total > 0 {
        Some(Percent { part: rss, whole: total })
    } else {
        None
    }
}

/// The `limit` processes that rank highest, in rank order, each with its share
/// of `total` bytes.
pub open spec fn top_of(s: Seq<ProcessView>, total: u64, limit: nat) -> Seq<ProcessView> {
    let sorted = rank_sort(s);
    let n = if limit < sorted.len() {
        limit as int
    } else {
        sorted.len() as int
    };
    sorted.take(n).map_values(
        |p: ProcessView| ProcessView { rss_percent: share_of(p.rss_bytes, total), ..p },
    )
}

/// Inserting at the first position whose process `x` ranks above.
proof fn lemma_insert_ranked_at(t: Seq<ProcessView>, x: ProcessView, p: int)
    requires
        0 <= p <= t.len(),
        forall|j: int| 0 <= j < p ==> !ranks_above(x, #[trigger] t[j]),
        p == t.len() || ranks_above(x, t[p]),
    ensures
        insert_ranked(t, x) == t.insert(p, x),
    decreases t.len(),
{
    if t.len() == 0 {
        assert(t.insert(p, x) =~= seq![x]);
    } else if p == 0 {
        assert(t.insert(0, x) =~= seq![x] + t);
    } else {
        let u = t.drop_first();
        assert forall|j: int| 0 <= j < p - 1 implies !ranks_above(x, #[trigger] u[j]) by {
            assert(u[j] == t[j + 1]);
        }
        if p - 1 < u.len() {
            assert(u[p - 1] == t[p]);
        }
        lemma_insert_ranked_at(u, x, p - 1);
        assert(t.insert(p, x) =~= seq![t[0]] + u.insert(p - 1, x));
    }
}

/// Insertion keeps a ranked list ranked.
pub proof fn lemma_insert_ranked_keeps_order(t: Seq<ProcessView>, x: ProcessView)
    requires
        ranked(t),
    ensures
        ranked(insert_ranked(t, x)),
        insert_ranked(t, x).to_multiset() == t.to_multiset().insert(x),
        insert_ranked(t, x).len() == t.len() + 1,
    decreases t.len(),
{
    broadcast use vstd::multiset::group_multiset_axioms;
    broadcast use vstd::seq_lib::group_to_multiset_ensures;

    if t.len() == 0 {
        assert(seq![x].to_multiset() =~= Multiset::empty().insert(x)) by {
            assert(seq![x] == Seq::<ProcessView>::empty().push(x));
        }
    } else if ranks_above(x, t[0]) {
        let r = seq![x] + t;
        assert forall|i: int, j: int| 0 <= i < j < r.len() implies !ranks_above(
            #[trigger] r[j],
            #[trigger] r[i],
        ) by {
            if i == 0 {
                assert(r[j] == t[j - 1]);
                if j - 1 > 0 {
                    assert(!ranks_above(t[j - 1], t[0]));
                }
            } else {
                assert(r[i] == t[i - 1]);
                assert(r[j] == t[j - 1]);
            }
        }
        vstd::seq_lib::lemma_multiset_commutative(seq![x], t);
        assert(seq![x].to_multiset() =~= Multiset::empty().insert(x)) by {
            assert(seq![x] == Seq::<ProcessView>::empty().push(x));
        }
    } else {
        let u = t.drop_first();
        assert(ranked(u)) by {
            assert forall|i: int, j: int| 0 <= i < j < u.len() implies !ranks_above(
                #[trigger] u[j],
                #[trigger] u[i],
            ) by {
                assert(u[i] == t[i + 1]);
                assert(u[j] == t[j + 1]);
            }
        }
        lemma_insert_ranked_keeps_order(u, x);
        let v = insert_ranked(u, x);
        let r = seq![t[0]] + v;
        assert forall|i: int, j: int| 0 <= i < j < r.len() implies !ranks_above(
            #[trigger] r[j],
            #[trigger] r[i],
        ) by {
            if i == 0 {
                assert(r[j] == v[j - 1]);
                // v[j-1] is x or some element of u, neither ranks above t[0].
                assert(v.to_multiset().count(v[j - 1]) > 0);
                assert(v.to_multiset() == u.to_multiset().insert(x));
                if v[j - 1] != x {
                    assert(u.to_multiset().count(v[j - 1]) > 0);
                    assert(u.contains(v[j - 1]));
                    let k = choose|k: int| 0 <= k < u.len() && u[k] == v[j - 1];
                    assert(u[k] == t[k + 1]);
                }
            } else {
                assert(r[i] == v[i - 1]);
                assert(r[j] == v[j - 1]);
            }
        }
        vstd::seq_lib::lemma_multiset_commutative(seq![t[0]], v);
        vstd::seq_lib::lemma_multiset_commutative(seq![t[0]], u);
        assert(seq![t[0]] + u == t);
        assert(seq![t[0]].to_multiset() =~= Multiset::empty().insert(t[0])) by {
            assert(seq![t[0]] == Seq::<ProcessView>::empty().push(t[0]));
        }
        assert(insert_ranked(t, x).to_multiset() =~= t.to_multiset().insert(x));
    }
}

/// Ranking puts the processes in rank order, stably, and neither adds nor
/// loses any.
pub proof fn lemma_rank_sort(s: Seq<ProcessView>)
    ensures
        ranked(rank_sort(s)),
        rank_sort(s).to_multiset() == s.to_multiset(),
        rank_sort(s).len() == s.len(),
    decreases s.len(),
{
    broadcast use vstd::multiset::group_multiset_axioms;
    broadcast use vstd::seq_lib::group_to_multiset_ensures;

    if s.len() == 0 {
    } else {
        lemma_rank_sort(s.drop_last());
        lemma_insert_ranked_keeps_order(rank_sort(s.drop_last()), s.last());
        assert(s.drop_last().push(s.last()) == s);
    }
}

/// The top list holds `limit` processes (all of them when there are fewer),
/// in rank order, each with its share of `total`: they are the first of all
/// processes put in rank order, so no process left out ranks above a kept one.
pub proof fn lemma_top_of(s: Seq<ProcessView>, total: u64, limit: nat)
    ensures
        top_of(s, total, limit).len() == if limit < s.len() {
            limit
        } else {
            s.len()
        },
        ranked(top_of(s, total, limit)),
        forall|i: int|
            0 <= i < top_of(s, total, limit).len() ==> #[trigger] top_of(s, total, limit)[i]
                == (ProcessView { rss_percent: share_of(rank_sort(s)[i].rss_bytes, total), ..rank_sort(s)[i] }),
        forall|i: int, j: int|
            0 <= i < top_of(s, total, limit).len() <= j < s.len() ==> !ranks_above(
                #[trigger] rank_sort(s)[j],
                #[trigger] top_of(s, total, limit)[i],
            ),
        rank_sort(s).to_multiset() == s.to_multiset(),
{
    lemma_rank_sort(s);
    let sorted = rank_sort(s);
    let top = top_of(s, total, limit);
    assert forall|i: int, j: int| 0 <= i < j < top.len() implies !ranks_above(
        #[trigger] top[j],
        #[trigger] top[i],
    ) by {
        assert(!ranks_above(sorted[j], sorted[i]));
    }
    assert forall|i: int, j: int| 0 <= i < top.len() <= j < s.len() implies !ranks_above(
        #[trigger] sorted[j],
        #[trigger] top[i],
    ) by {
        assert(!ranks_above(sorted[j], sorted[i]));
    }
}

/// A process with its share of memory left aside.
pub open spec fn without_share(p: ProcessView) -> ProcessView {
    ProcessView { rss_percent: None, ..p }
}

/// Processes with their shares left aside.
pub open spec fn shares_cleared(s: Seq<ProcessView>) -> Seq<ProcessView> {
    s.map_values(|p: ProcessView| without_share(p))
}

/// Lists holding the same processes still do with their shares left aside.
proof fn lemma_shares_cleared_multiset(a: Seq<ProcessView>, b: Seq<ProcessView>)
    requires
        a.to_multiset() == b.to_multiset(),
    ensures
        shares_cleared(a).to_multiset() == shares_cleared(b).to_multiset(),
    decreases a.len(),
{
    broadcast use vstd::multiset::group_multiset_axioms;
    broadcast use vstd::seq_lib::group_to_multiset_ensures;

    if a.len() == 0 {
        assert(b.len() == 0) by {
            b.to_multiset_ensures();
            a.to_multiset_ensures();
        }
        assert(shares_cleared(a) =~= shares_cleared(b));
    } else {
        let x = a.last();
        let a1 = a.drop_last();
        assert(a == a1.push(x));
        vstd::seq_lib::to_multiset_build(a1, x);
        assert(b.to_multiset().count(x) > 0);
        assert(b.contains(x));
        let i = choose|i: int| 0 <= i < b.len() && b[i] == x;
        let b1 = b.remove(i);
        vstd::seq_lib::to_multiset_remove(b, i);
        assert(b1.to_multiset() =~= a1.to_multiset());
        lemma_shares_cleared_multiset(a1, b1);
        let w = without_share(x);
        assert(shares_cleared(a) =~= shares_cleared(a1).push(w));
        vstd::seq_lib::to_multiset_build(shares_cleared(a1), w);
        let cb = shares_cleared(b);
        assert(cb.remove(i) =~= shares_cleared(b1));
        vstd::seq_lib::to_multiset_remove(cb, i);
        assert(cb[i] == w);
        assert(cb.to_multiset().count(w) > 0) by {
            assert(cb.contains(w));
        }
        assert(cb.to_multiset() =~= shares_cleared(b1).to_multiset().insert(w));
    }
}

/// The rows of the top list, their shares aside, are processes of the input:
/// they form a sub-multiset of it.
pub proof fn lemma_top_of_from_input(s: Seq<ProcessView>, total: u64, limit: nat)
    ensures
        shares_cleared(top_of(s, total, limit)).to_multiset().subset_of(
            shares_cleared(s).to_multiset(),
        ),
{
    broadcast use vstd::multiset::group_multiset_axioms;

    lemma_rank_sort(s);
    let sorted = rank_sort(s);
    let n = if limit < sorted.len() {
        limit as int
    } else {
        sorted.len() as int
    };
    let top = top_of(s, total, limit);
    assert(shares_cleared(top) =~= shares_cleared(sorted.take(n)));
    assert(shares_cleared(sorted) =~= shares_cleared(sorted.take(n)) + shares_cleared(sorted.skip(n)));
    vstd::seq_lib::lemma_multiset_commutative(shares_cleared(sorted.take(n)), shares_cleared(sorted.skip(n)));
    lemma_shares_cleared_multiset(sorted, s);
}

/// The `limit` processes with the most resident memory (ties broken by the
/// smaller pid, then by the given order), in that order, each with its share
/// of `total_memory_bytes`.
pub fn top_by_rss(processes: Vec<ProcessMemory>, total_memory_bytes: u64, limit: usize) -> (top:
    Vec<ProcessMemory>)
    ensures
        processes_view(top@) == top_of(processes_view(processes@), total_memory_bytes, limit as nat),
{
    let ghost s = processes_view(processes@);
    let mut rest = processes;
    let mut sorted: Vec<ProcessMemory> = Vec::new();
    let mut i: usize = 0;
    let n = rest.len();
    assert(s.skip(0) == s);
    while rest.len() > 0
        invariant
            s.len() == n,
            i + rest.len() == n,
            processes_view(rest@) == s.skip(i as int),
            processes_view(sorted@) == rank_sort(s.take(i as int)),
        decreases rest.len(),
    {
        let ghost old_rest = rest@;
        assert(processes_view(old_rest)[0] == old_rest[0]@);
        let x = rest.remove(0);
        assert(x@ == s[i as int]);
        assert forall|j: int| 0 <= j < rest@.len() implies #[trigger] processes_view(rest@)[j]
            == s.skip(i + 1)[j] by {
            assert(rest@[j] == old_rest[j + 1]);
            assert(processes_view(old_rest)[j + 1] == old_rest[j + 1]@);
            assert(s.skip(i as int)[j + 1] == s.skip(i + 1)[j]);
        }
        assert(processes_view(rest@) =~= s.skip(i + 1));
        let mut p: usize = 0;
        while p < sorted.len() && !(x.rss_bytes > sorted[p].rss_bytes || (x.rss_bytes
            == sorted[p].rss_bytes && x.pid < sorted[p].pid))
            invariant
                p <= sorted.len(),
                forall|j: int|
                    0 <= j < p ==> !ranks_above(x@, #[trigger] processes_view(sorted@)[j]),
            decreases sorted.len() - p,
        {
            p += 1;
        }
        proof {
            lemma_insert_ranked_at(processes_view(sorted@), x@, p as int);
            assert(s.take(i + 1).drop_last() == s.take(i as int));
            assert(s.take(i + 1).last() == s[i as int]);
        }
        let ghost before = sorted@;
        sorted.insert(p, x);
        assert(processes_view(sorted@) =~= processes_view(before).insert(p as int, x@));
        i += 1;
    }
    assert(s.take(n as int) == s);
    let ghost all = rank_sort(s);
    proof {
        lemma_rank_sort(s);
    }
    let mut top: Vec<ProcessMemory> = Vec::new();
    let ghost m = if (limit as nat) < all.len() {
        limit as int
    } else {
        all.len() as int
    };
    let mut k: usize = 0;
    while sorted.len() > 0 && top.len() < limit
        invariant
            all.len() == n,
            processes_view(sorted@) == all.skip(k as int),
            k == top.len(),
            k <= limit,
            k <= n,
            processes_view(top@) == all.take(k as int).map_values(
                |p: ProcessView| ProcessView { rss_percent: share_of(p.rss_bytes, total_memory_bytes), ..p },
            ),
        decreases sorted.len(),
    {
        let ghost old_sorted = sorted@;
        assert(processes_view(old_sorted).len() == old_sorted.len());
        assert(processes_view(old_sorted)[0] == old_sorted[0]@);
        let mut x = sorted.remove(0);
        assert(x@ == all[k as int]);
        assert forall|j: int| 0 <= j < sorted@.len() implies #[trigger] processes_view(sorted@)[j]
            == all.skip(k + 1)[j] by {
            assert(sorted@[j] == old_sorted[j + 1]);
            assert(processes_view(old_sorted)[j + 1] == old_sorted[j + 1]@);
            assert(all.skip(k as int)[j + 1] == all.skip(k + 1)[j]);
        }
        assert(processes_view(sorted@) =~= all.skip(k + 1));
        let ghost old_top = top@;
        x.rss_percent = if total_memory_bytes > 0 {
            Some(Percent { part: x.rss_bytes, whole: total_memory_bytes })
        } else {
            None
        };
        top.push(x);
        k += 1;
        assert forall|j: int| 0 <= j < top@.len() implies #[trigger] processes_view(top@)[j]
            == all.take(k as int).map_values(
            |p: ProcessView| ProcessView { rss_percent: share_of(p.rss_bytes, total_memory_bytes), ..p },
        )[j] by {
            if j < k - 1 {
                assert(top@[j] == old_top[j]);
                assert(processes_view(old_top)[j] == old_top[j]@);
                assert(all.take(k - 1)[j] == all.take(k as int)[j]);
            }
        }
        assert(processes_view(top@) =~= all.take(k as int).map_values(
            |p: ProcessView| ProcessView { rss_percent: share_of(p.rss_bytes, total_memory_bytes), ..p },
        ));
    }
    assert(k == m);
    top
}

} // verus!
