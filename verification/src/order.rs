//! The order of texts (`String`'s `Ord`: character by character, by code
//! point, a proper prefix first) and a stable sort by pairs of texts.
use vstd::prelude::*;
use vstd::multiset::Multiset;

verus! {

/// `a < b` for texts.
pub open spec fn str_lt(a: Seq<char>, b: Seq<char>) -> bool
    decreases a.len(),
{
    if a.len() == 0 {
        b.len() > 0
    } else if b.len() == 0 {
        false
    } else if a[0] != b[0] {
        a[0] < b[0]
    } else {
        str_lt(a.drop_first(), b.drop_first())
    }
}

/// `a < b` for pairs of texts, the first text deciding unless equal.
pub open spec fn pair_lt(a: (Seq<char>, Seq<char>), b: (Seq<char>, Seq<char>)) -> bool {
    str_lt(a.0, b.0) || (a.0 == b.0 && str_lt(a.1, b.1))
}

/// No text is below itself.
pub proof fn lemma_str_lt_irreflexive(a: Seq<char>)
    ensures
        !str_lt(a, a),
    decreases a.len(),
{
    if a.len() > 0 {
        lemma_str_lt_irreflexive(a.drop_first());
    }
}

/// Of two texts, at most one is below the other.
pub proof fn lemma_str_lt_asymmetric(a: Seq<char>, b: Seq<char>)
    requires
        str_lt(a, b),
    ensures
        !str_lt(b, a),
    decreases a.len(),
{
    if a.len() > 0 && b.len() > 0 && a[0] == b[0] {
        lemma_str_lt_asymmetric(a.drop_first(), b.drop_first());
    }
}

/// Text order is transitive.
pub proof fn lemma_str_lt_transitive(a: Seq<char>, b: Seq<char>, c: Seq<char>)
    requires
        str_lt(a, b),
        str_lt(b, c),
    ensures
        str_lt(a, c),
    decreases a.len(),
{
    if a.len() > 0 && b.len() > 0 && c.len() > 0 && a[0] == b[0] && b[0] == c[0] {
        lemma_str_lt_transitive(a.drop_first(), b.drop_first(), c.drop_first());
    }
}

/// Of two different texts, one is below the other.
pub proof fn lemma_str_lt_total(a: Seq<char>, b: Seq<char>)
    requires
        a != b,
    ensures
        str_lt(a, b) || str_lt(b, a),
    decreases a.len(),
{
    if a.len() > 0 && b.len() > 0 && a[0] == b[0] {
        if a.drop_first() == b.drop_first() {
            assert(a =~= seq![a[0]] + a.drop_first());
            assert(b =~= seq![b[0]] + b.drop_first());
        }
        lemma_str_lt_total(a.drop_first(), b.drop_first());
    } else if a.len() == 0 && b.len() == 0 {
        assert(a =~= b);
    } else if a.len() > 0 && b.len() > 0 {
    }
}

/// The order of text pairs is a strict total order.
pub proof fn lemma_pair_lt_order(a: (Seq<char>, Seq<char>), b: (Seq<char>, Seq<char>), c: (Seq<char>, Seq<char>))
    ensures
        !pair_lt(a, a),
        pair_lt(a, b) ==> !pair_lt(b, a),
        pair_lt(a, b) && pair_lt(b, c) ==> pair_lt(a, c),
        a != b ==> pair_lt(a, b) || pair_lt(b, a),
{
    lemma_str_lt_irreflexive(a.0);
    lemma_str_lt_irreflexive(a.1);
    if str_lt(a.0, b.0) {
        lemma_str_lt_asymmetric(a.0, b.0);
    }
    if str_lt(a.1, b.1) {
        lemma_str_lt_asymmetric(a.1, b.1);
    }
    if str_lt(a.0, b.0) && str_lt(b.0, c.0) {
        lemma_str_lt_transitive(a.0, b.0, c.0);
    }
    if str_lt(a.1, b.1) && str_lt(b.1, c.1) {
        lemma_str_lt_transitive(a.1, b.1, c.1);
    }
    if a.0 != b.0 {
        lemma_str_lt_total(a.0, b.0);
    }
    if a.1 != b.1 {
        lemma_str_lt_total(a.1, b.1);
    }
}

/// `a < b` for texts.
pub fn chars_lt(a: &[char], b: &[char]) -> (r: bool)
    ensures
        r == str_lt(a@, b@),
{
    let mut i: usize = 0;
    assert(a@.skip(0) == a@);
    assert(b@.skip(0) == b@);
    while i < a.len() && i < b.len() && a[i] == b[i]
        invariant
            i <= a.len(),
            i <= b.len(),
            str_lt(a@, b@) == str_lt(a@.skip(i as int), b@.skip(i as int)),
        decreases a.len() - i,
    {
        assert(a@.skip(i as int).drop_first() == a@.skip(i + 1));
        assert(b@.skip(i as int).drop_first() == b@.skip(i + 1));
        i += 1;
    }
    if i == a.len() {
        i < b.len()
    } else if i == b.len() {
        false
    } else {
        a[i] < b[i]
    }
}

/// `a < b` for `String`s.
pub fn string_lt(a: &String, b: &String) -> (r: bool)
    ensures
        r == str_lt(a@, b@),
{
    let x = crate::text::chars_of(a.as_str());
    let y = crate::text::chars_of(b.as_str());
    chars_lt(x.as_slice(), y.as_slice())
}

/// The views of a list of text pairs.
pub open spec fn pairs_view(v: Seq<(String, String)>) -> Seq<(Seq<char>, Seq<char>)> {
    v.map_values(|p: (String, String)| (p.0@, p.1@))
}

/// `i` placed into the index list `t` just before the first index whose key
/// is greater than key `i`.
pub open spec fn insert_index(keys: Seq<(Seq<char>, Seq<char>)>, t: Seq<int>, i: int) -> Seq<int>
    decreases t.len(),
{
    if t.len() == 0 {
        seq![i]
    } else if pair_lt(keys[i], keys[t[0]]) {
        seq![i] + t
    } else {
        seq![t[0]] + insert_index(keys, t.drop_first(), i)
    }
}

/// The order of the first `n` keys: their positions sorted by key, positions of
/// equal keys in their original order (a stable sort).
pub open spec fn sorted_positions(keys: Seq<(Seq<char>, Seq<char>)>, n: nat) -> Seq<int>
    decreases n,
{
    if n == 0 {
        Seq::empty()
    } else {
        insert_index(keys, sorted_positions(keys, (n - 1) as nat), n - 1)
    }
}

proof fn lemma_insert_index_len(keys: Seq<(Seq<char>, Seq<char>)>, t: Seq<int>, i: int)
    ensures
        insert_index(keys, t, i).len() == t.len() + 1,
    decreases t.len(),
{
    if t.len() > 0 {
        lemma_insert_index_len(keys, t.drop_first(), i);
    }
}

proof fn lemma_sorted_positions_len(keys: Seq<(Seq<char>, Seq<char>)>, n: nat)
    ensures
        sorted_positions(keys, n).len() == n,
    decreases n,
{
    if n > 0 {
        lemma_sorted_positions_len(keys, (n - 1) as nat);
        lemma_insert_index_len(keys, sorted_positions(keys, (n - 1) as nat), n - 1);
    }
}

proof fn lemma_insert_index_at(keys: Seq<(Seq<char>, Seq<char>)>, t: Seq<int>, i: int, p: int)
    requires
        0 <= p <= t.len(),
        forall|j: int| 0 <= j < p ==> !pair_lt(keys[i], keys[#[trigger] t[j]]),
        p == t.len() || pair_lt(keys[i], keys[t[p]]),
    ensures
        insert_index(keys, t, i) == t.insert(p, i),
    decreases t.len(),
{
    if t.len() == 0 {
        assert(t.insert(p, i) =~= seq![i]);
    } else if p == 0 {
        assert(t.insert(0, i) =~= seq![i] + t);
    } else {
        let u = t.drop_first();
        assert forall|j: int| 0 <= j < p - 1 implies !pair_lt(keys[i], keys[#[trigger] u[j]]) by {
            assert(u[j] == t[j + 1]);
        }
        if p - 1 < u.len() {
            assert(u[p - 1] == t[p]);
        }
        lemma_insert_index_at(keys, u, i, p - 1);
        assert(t.insert(p, i) =~= seq![t[0]] + u.insert(p - 1, i));
    }
}

/// The positions `t` list their keys in order: no key is followed by a
/// smaller one, and positions of equal keys come in increasing order.
pub open spec fn positions_sorted(keys: Seq<(Seq<char>, Seq<char>)>, t: Seq<int>) -> bool {
    forall|a: int, b: int|
        0 <= a < b < t.len() ==> {
            &&& !pair_lt(keys[#[trigger] t[b]], keys[#[trigger] t[a]])
            &&& (keys[t[a]] == keys[t[b]] ==> t[a] < t[b])
        }
}

/// No position occurs twice in `t`.
pub open spec fn positions_distinct(t: Seq<int>) -> bool {
    forall|a: int, b: int| 0 <= a < b < t.len() ==> #[trigger] t[a] != #[trigger] t[b]
}

proof fn lemma_insert_index_keeps_order(keys: Seq<(Seq<char>, Seq<char>)>, t: Seq<int>, i: int)
    requires
        positions_sorted(keys, t),
        positions_distinct(t),
        forall|a: int| 0 <= a < t.len() ==> #[trigger] t[a] < i,
    ensures
        positions_sorted(keys, insert_index(keys, t, i)),
        positions_distinct(insert_index(keys, t, i)),
        insert_index(keys, t, i).to_multiset() == t.to_multiset().insert(i),
    decreases t.len(),
{
    broadcast use vstd::multiset::group_multiset_axioms;
    broadcast use vstd::seq_lib::group_to_multiset_ensures;

    if t.len() == 0 {
        assert(seq![i].to_multiset() =~= Multiset::empty().insert(i)) by {
            assert(seq![i] == Seq::<int>::empty().push(i));
        }
    } else if pair_lt(keys[i], keys[t[0]]) {
        let r = seq![i] + t;
        assert forall|a: int, b: int| 0 <= a < b < r.len() implies {
            &&& !pair_lt(keys[#[trigger] r[b]], keys[#[trigger] r[a]])
            &&& (keys[r[a]] == keys[r[b]] ==> r[a] < r[b])
        } by {
            assert(r[b] == t[b - 1]);
            if a == 0 {
                lemma_pair_lt_order(keys[t[b - 1]], keys[i], keys[t[0]]);
                lemma_pair_lt_order(keys[i], keys[t[0]], keys[t[0]]);
                if b - 1 > 0 {
                    assert(!pair_lt(keys[t[b - 1]], keys[t[0]]));
                }
            } else {
                assert(r[a] == t[a - 1]);
            }
        }
        assert forall|a: int, b: int| 0 <= a < b < r.len() implies #[trigger] r[a] != #[trigger] r[b] by {
            assert(r[b] == t[b - 1]);
            if a > 0 {
                assert(r[a] == t[a - 1]);
            }
        }
        vstd::seq_lib::lemma_multiset_commutative(seq![i], t);
        assert(seq![i].to_multiset() =~= Multiset::empty().insert(i)) by {
            assert(seq![i] == Seq::<int>::empty().push(i));
        }
    } else {
        let u = t.drop_first();
        assert forall|a: int, b: int| 0 <= a < b < u.len() implies {
            &&& !pair_lt(keys[#[trigger] u[b]], keys[#[trigger] u[a]])
            &&& (keys[u[a]] == keys[u[b]] ==> u[a] < u[b])
        } by {
            assert(u[a] == t[a + 1]);
            assert(u[b] == t[b + 1]);
        }
        assert forall|a: int, b: int| 0 <= a < b < u.len() implies #[trigger] u[a] != #[trigger] u[b] by {
            assert(u[a] == t[a + 1]);
            assert(u[b] == t[b + 1]);
        }
        assert forall|a: int| 0 <= a < u.len() implies #[trigger] u[a] < i by {
            assert(u[a] == t[a + 1]);
        }
        lemma_insert_index_keeps_order(keys, u, i);
        let v = insert_index(keys, u, i);
        let r = seq![t[0]] + v;
        assert forall|b: int| 0 <= b < v.len() implies (#[trigger] v[b] == i || exists|k: int|
            0 <= k < u.len() && u[k] == v[b]) by {
            assert(v.to_multiset().count(v[b]) > 0);
            if v[b] != i {
                assert(u.to_multiset().count(v[b]) > 0);
                assert(u.contains(v[b]));
            }
        }
        assert forall|a: int, b: int| 0 <= a < b < r.len() implies {
            &&& !pair_lt(keys[#[trigger] r[b]], keys[#[trigger] r[a]])
            &&& (keys[r[a]] == keys[r[b]] ==> r[a] < r[b])
        } by {
            assert(r[b] == v[b - 1]);
            if a == 0 {
                if v[b - 1] != i {
                    let k = choose|k: int| 0 <= k < u.len() && u[k] == v[b - 1];
                    assert(u[k] == t[k + 1]);
                }
            } else {
                assert(r[a] == v[a - 1]);
            }
        }
        assert forall|a: int, b: int| 0 <= a < b < r.len() implies #[trigger] r[a] != #[trigger] r[b] by {
            assert(r[b] == v[b - 1]);
            if a == 0 {
                if v[b - 1] != i {
                    let k = choose|k: int| 0 <= k < u.len() && u[k] == v[b - 1];
                    assert(u[k] == t[k + 1]);
                }
            } else {
                assert(r[a] == v[a - 1]);
            }
        }
        vstd::seq_lib::lemma_multiset_commutative(seq![t[0]], v);
        vstd::seq_lib::lemma_multiset_commutative(seq![t[0]], u);
        assert(seq![t[0]] + u == t);
        assert(seq![t[0]].to_multiset() =~= Multiset::empty().insert(t[0])) by {
            assert(seq![t[0]] == Seq::<int>::empty().push(t[0]));
        }
        assert(insert_index(keys, t, i).to_multiset() =~= t.to_multiset().insert(i));
    }
}

/// Sorting the first `n` positions by key lists each of `0..n` exactly once,
/// keys in order, and positions of equal keys in their original order.
pub proof fn lemma_sorted_positions(keys: Seq<(Seq<char>, Seq<char>)>, n: nat)
    ensures
        sorted_positions(keys, n).len() == n,
        forall|a: int| 0 <= a < n ==> 0 <= #[trigger] sorted_positions(keys, n)[a] < n,
        positions_distinct(sorted_positions(keys, n)),
        positions_sorted(keys, sorted_positions(keys, n)),
    decreases n,
{
    broadcast use vstd::multiset::group_multiset_axioms;
    broadcast use vstd::seq_lib::group_to_multiset_ensures;

    lemma_sorted_positions_len(keys, n);
    if n > 0 {
        let m = (n - 1) as nat;
        let t = sorted_positions(keys, m);
        lemma_sorted_positions(keys, m);
        lemma_insert_index_keeps_order(keys, t, m as int);
        let r = sorted_positions(keys, n);
        assert(r == insert_index(keys, t, m as int));
        assert forall|a: int| 0 <= a < n implies 0 <= #[trigger] r[a] < n by {
            assert(r.to_multiset().count(r[a]) > 0);
            if r[a] != m {
                assert(t.to_multiset().count(r[a]) > 0);
                assert(t.contains(r[a]));
            }
        }
    }
}

/// The positions of `keys` in sorted order, stably (see `sorted_positions`).
pub fn sort_positions(keys: &Vec<(String, String)>) -> (order: Vec<usize>)
    ensures
        order@.len() == keys@.len(),
        forall|k: int|
            0 <= k < order@.len() ==> (#[trigger] order@[k]) as int == sorted_positions(
                pairs_view(keys@),
                keys@.len() as nat,
            )[k],
{
    let ghost ks = pairs_view(keys@);
    let mut order: Vec<usize> = Vec::new();
    let mut i: usize = 0;
    while i < keys.len()
        invariant
            ks == pairs_view(keys@),
            i <= keys.len(),
            order@.len() == sorted_positions(ks, i as nat).len(),
            forall|k: int|
                0 <= k < order@.len() ==> (#[trigger] order@[k]) as int == sorted_positions(
                    ks,
                    i as nat,
                )[k],
            forall|k: int| 0 <= k < order@.len() ==> (#[trigger] order@[k]) < i,
        decreases keys.len() - i,
    {
        let ghost t = sorted_positions(ks, i as nat);
        let a = crate::text::chars_of(keys[i].0.as_str());
        let b = crate::text::chars_of(keys[i].1.as_str());
        assert(ks[i as int] == (a@, b@));
        let mut p: usize = 0;
        loop
            invariant
                p <= order.len(),
                ks == pairs_view(keys@),
                i < keys.len(),
                ks[i as int] == (a@, b@),
                order@.len() == t.len(),
                forall|k: int| 0 <= k < order@.len() ==> (#[trigger] order@[k]) as int == t[k],
                forall|k: int| 0 <= k < order@.len() ==> (#[trigger] order@[k]) < i,
                forall|j: int| 0 <= j < p ==> !pair_lt(ks[i as int], ks[#[trigger] t[j]]),
            ensures
                p <= order.len(),
                forall|j: int| 0 <= j < p ==> !pair_lt(ks[i as int], ks[#[trigger] t[j]]),
                p == order.len() || pair_lt(ks[i as int], ks[t[p as int]]),
            decreases order.len() - p,
        {
            if p == order.len() {
                break;
            }
            let q = order[p];
            assert(q < keys.len());
            let c = crate::text::chars_of(keys[q].0.as_str());
            let d = crate::text::chars_of(keys[q].1.as_str());
            assert(ks[q as int] == (c@, d@));
            assert(t[p as int] == q as int);
            let first_lt = chars_lt(a.as_slice(), c.as_slice());
            let first_eq = crate::text::chars_eq(a.as_slice(), c.as_slice());
            let second_lt = chars_lt(b.as_slice(), d.as_slice());
            if first_lt || (first_eq && second_lt) {
                break;
            }
            p += 1;
        }
        proof {
            lemma_insert_index_at(ks, t, i as int, p as int);
        }
        let ghost before = order@;
        order.insert(p, i);
        proof {
            assert(sorted_positions(ks, (i + 1) as nat) == insert_index(ks, t, i as int));
            assert forall|k: int|
                0 <= k < order@.len() implies (#[trigger] order@[k]) as int == sorted_positions(
                ks,
                (i + 1) as nat,
            )[k] by {
                if k < p {
                    assert(order@[k] == before[k]);
                } else if k > p {
                    assert(order@[k] == before[k - 1]);
                }
            }
            assert forall|k: int| 0 <= k < order@.len() implies (#[trigger] order@[k]) < i + 1 by {
                if k < p {
                    assert(order@[k] == before[k]);
                } else if k > p {
                    assert(order@[k] == before[k - 1]);
                }
            }
        }
        i += 1;
    }
    proof {
        lemma_sorted_positions_len(ks, keys.len() as nat);
    }
    order
}


/// The items at `positions`, in that order; each position is listed once.
fn reorder<T>(items: Vec<T>, positions: &Vec<usize>) -> (out: Vec<T>)
    requires
        forall|k: int| 0 <= k < positions@.len() ==> (#[trigger] positions@[k]) < items@.len(),
        forall|a: int, b: int|
            0 <= a < b < positions@.len() ==> #[trigger] positions@[a] != #[trigger] positions@[b],
    ensures
        out@.len() == positions@.len(),
        forall|k: int| 0 <= k < out@.len() ==> #[trigger] out@[k] == items@[positions@[k] as int],
{
    let ghost orig = items@;
    let n = items.len();
    let mut rest = items;
    let mut slots: Vec<Option<T>> = Vec::new();
    while rest.len() > 0
        invariant
            slots@.len() + rest@.len() == n,
            orig.len() == n,
            rest@ == orig.skip(slots@.len() as int),
            forall|j: int| 0 <= j < slots@.len() ==> #[trigger] slots@[j] == Some(orig[j]),
        decreases rest.len(),
    {
        let ghost before = rest@;
        let x = rest.remove(0);
        assert(x == orig[slots@.len() as int]);
        slots.push(Some(x));
        assert(rest@ =~= orig.skip(slots@.len() as int)) by {
            assert forall|j: int| 0 <= j < rest@.len() implies rest@[j] == orig.skip(
                slots@.len() as int,
            )[j] by {
                assert(rest@[j] == before[j + 1]);
            }
        }
    }
    let mut out: Vec<T> = Vec::new();
    let mut k: usize = 0;
    while k < positions.len()
        invariant
            k <= positions@.len(),
            slots@.len() == n,
            orig.len() == n,
            out@.len() == k,
            forall|q: int| 0 <= q < positions@.len() ==> (#[trigger] positions@[q]) < n,
            forall|a: int, b: int|
                0 <= a < b < positions@.len() ==> #[trigger] positions@[a] != #[trigger] positions@[b],
            forall|q: int| 0 <= q < k ==> #[trigger] out@[q] == orig[positions@[q] as int],
            forall|j: int|
                0 <= j < n ==> (#[trigger] slots@[j] == Some(orig[j]) || exists|q: int|
                    0 <= q < k && positions@[q] == j),
        decreases positions.len() - k,
    {
        let i = positions[k];
        assert(slots@[i as int] == Some(orig[i as int])) by {
            if slots@[i as int] != Some(orig[i as int]) {
                let q = choose|q: int| 0 <= q < k && positions@[q] == i;
                assert(positions@[q] != positions@[k as int]);
            }
        }
        let ghost before = slots@;
        let taken = slots[i].take();
        assert(slots@ == before.update(i as int, None));
        match taken {
            Some(x) => {
                out.push(x);
            },
            None => {
                assert(false);
            },
        }
        assert forall|j: int| 0 <= j < n implies (#[trigger] slots@[j] == Some(orig[j]) || exists|q: int|
            0 <= q < k + 1 && positions@[q] == j) by {
            if j == i {
                assert(positions@[k as int] == j);
            } else {
                assert(slots@[j] == before[j]);
                if before[j] != Some(orig[j]) {
                    let q = choose|q: int| 0 <= q < k && positions@[q] == j;
                    assert(0 <= q < k + 1 && positions@[q] == j);
                }
            }
        }
        k += 1;
    }
    out
}

/// `items` sorted by their keys (`keys[i]` belongs to `items[i]`): the item at
/// each position of `sorted_positions`, so items with equal keys keep their order.
pub fn sort_by_keys<T>(items: Vec<T>, keys: &Vec<(String, String)>) -> (out: Vec<T>)
    requires
        keys@.len() == items@.len(),
    ensures
        out@.len() == items@.len(),
        forall|k: int|
            0 <= k < out@.len() ==> #[trigger] out@[k] == items@[sorted_positions(
                pairs_view(keys@),
                keys@.len() as nat,
            )[k]],
{
    let order = sort_positions(keys);
    proof {
        lemma_sorted_positions(pairs_view(keys@), keys@.len() as nat);
        let t = sorted_positions(pairs_view(keys@), keys@.len() as nat);
        assert forall|k: int| 0 <= k < order@.len() implies (#[trigger] order@[k]) < items@.len() by {
            assert(order@[k] as int == t[k]);
        }
        assert forall|a: int, b: int| 0 <= a < b < order@.len() implies #[trigger] order@[a]
            != #[trigger] order@[b] by {
            assert(order@[a] as int == t[a]);
            assert(order@[b] as int == t[b]);
        }
    }
    let out = reorder(items, &order);
    assert forall|k: int| 0 <= k < out@.len() implies #[trigger] out@[k] == items@[sorted_positions(
        pairs_view(keys@),
        keys@.len() as nat,
    )[k]] by {
        assert(order@[k] as int == sorted_positions(pairs_view(keys@), keys@.len() as nat)[k]);
    }
    out
}

} // verus!
