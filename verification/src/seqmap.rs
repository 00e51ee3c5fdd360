//! Sorted association sequences.
//!
//! The ladder's tiers are modelled as finite maps from price to quantity, and
//! every ordered operation (minimum, maximum, k-th key, ascending sweeps) is
//! stated over the unique key-sorted sequence of a map's entries. This module
//! ties the two presentations together.
use vstd::prelude::*;

verus! {

/// The entries stand in strictly ascending key order.
pub open spec fn key_sorted(s: Seq<(u32, u64)>) -> bool {
    forall|i: int, j: int| 0 <= i < j < s.len() ==> (#[trigger] s[i]).0 < (#[trigger] s[j]).0
}

/// Keys stand in strictly ascending order.
pub open spec fn keys_sorted(s: Seq<u32>) -> bool {
    forall|i: int, j: int| #![trigger s[i], s[j]] 0 <= i < j < s.len() ==> s[i] < s[j]
}

/// The finite map that an association sequence stands for.
pub open spec fn to_map(s: Seq<(u32, u64)>) -> Map<u32, u64>
    decreases s.len(),
{
    if s.len() == 0 {
        Map::empty()
    } else {
        to_map(s.drop_last()).insert(s.last().0, s.last().1)
    }
}

/// Whether some entry of `s` carries the key `k`.
pub open spec fn has_key(s: Seq<(u32, u64)>, k: u32) -> bool {
    exists|i: int| 0 <= i < s.len() && (#[trigger] s[i]).0 == k
}

/// A key is in the map of `s` exactly when an entry of `s` carries it; the
/// map is finite.
pub proof fn lemma_to_map_dom(s: Seq<(u32, u64)>)
    ensures
        to_map(s).dom().finite(),
        forall|k: u32| #[trigger] to_map(s).dom().contains(k) <==> has_key(s, k),
    decreases s.len(),
{
    if s.len() == 0 {
    } else {
        let d = s.drop_last();
        lemma_to_map_dom(d);
        assert forall|k: u32| #[trigger] to_map(s).dom().contains(k) <==> has_key(s, k) by {
            if to_map(s).dom().contains(k) {
                if k == s.last().0 {
                    assert(s[s.len() - 1].0 == k);
                } else {
                    let i = choose|i: int| 0 <= i < d.len() && (#[trigger] d[i]).0 == k;
                    assert(s[i].0 == k);
                }
            }
            if has_key(s, k) {
                let i = choose|i: int| 0 <= i < s.len() && (#[trigger] s[i]).0 == k;
                if i < s.len() - 1 {
                    assert(d[i].0 == k);
                }
            }
        }
    }
}

/// Each entry of a sorted sequence is what its map gives for that entry's key.
pub proof fn lemma_to_map_index(s: Seq<(u32, u64)>, i: int)
    requires
        key_sorted(s),
        0 <= i < s.len(),
    ensures
        to_map(s).dom().contains(s[i].0),
        to_map(s)[s[i].0] == s[i].1,
    decreases s.len(),
{
    lemma_to_map_dom(s);
    if i < s.len() - 1 {
        let d = s.drop_last();
        lemma_to_map_index(d, i);
        assert(s[i].0 < s.last().0);
    }
}

/// A sorted sequence has as many entries as its map has keys.
pub proof fn lemma_to_map_len(s: Seq<(u32, u64)>)
    requires
        key_sorted(s),
    ensures
        to_map(s).dom().finite(),
        to_map(s).dom().len() == s.len(),
    decreases s.len(),
{
    lemma_to_map_dom(s);
    if s.len() > 0 {
        let d = s.drop_last();
        lemma_to_map_len(d);
        lemma_to_map_dom(d);
        assert(!has_key(d, s.last().0));
        assert(to_map(s).dom() =~= to_map(d).dom().insert(s.last().0));
    }
}

/// Every key of a sorted sequence's map lies between the first and last keys.
pub proof fn lemma_to_map_bounds(s: Seq<(u32, u64)>)
    requires
        key_sorted(s),
        s.len() > 0,
    ensures
        forall|k: u32|
            #[trigger] to_map(s).dom().contains(k) ==> s[0].0 <= k <= s[s.len() - 1].0,
{
    lemma_to_map_dom(s);
    assert forall|k: u32| #[trigger] to_map(s).dom().contains(k)
        implies s[0].0 <= k <= s[s.len() - 1].0 by {
        let i = choose|i: int| 0 <= i < s.len() && (#[trigger] s[i]).0 == k;
        if i > 0 {
            assert(s[0].0 < s[i].0);
        }
        if i < s.len() - 1 {
            assert(s[i].0 < s[s.len() - 1].0);
        }
    }
}

/// A sorted sequence whose entries match a map entry for entry stands for
/// exactly that map.
pub proof fn lemma_to_map_eq(s: Seq<(u32, u64)>, m: Map<u32, u64>)
    requires
        key_sorted(s),
        forall|k: u32| #[trigger] m.dom().contains(k) ==> has_key(s, k),
        forall|i: int|
            0 <= i < s.len() ==> m.dom().contains((#[trigger] s[i]).0) && m[s[i].0] == s[i].1,
    ensures
        to_map(s) == m,
{
    lemma_to_map_dom(s);
    assert forall|i: int| 0 <= i < s.len() implies to_map(s)[(#[trigger] s[i]).0] == s[i].1 by {
        lemma_to_map_index(s, i);
    }
    assert(to_map(s) =~= m) by {
        assert forall|k: u32| to_map(s).dom().contains(k) == m.dom().contains(k) by {
            if m.dom().contains(k) {
                assert(has_key(s, k));
            }
            if to_map(s).dom().contains(k) {
                let i = choose|i: int| 0 <= i < s.len() && (#[trigger] s[i]).0 == k;
                assert(m.dom().contains(s[i].0));
            }
        }
        assert forall|k: u32| m.dom().contains(k) implies to_map(s)[k] == m[k] by {
            let i = choose|i: int| 0 <= i < s.len() && (#[trigger] s[i]).0 == k;
            lemma_to_map_index(s, i);
        }
    }
}

/// Two sorted sequences standing for the same map are the same sequence.
pub proof fn lemma_sorted_unique(a: Seq<(u32, u64)>, b: Seq<(u32, u64)>)
    requires
        key_sorted(a),
        key_sorted(b),
        to_map(a) == to_map(b),
    ensures
        a == b,
    decreases a.len(),
{
    lemma_to_map_dom(a);
    lemma_to_map_dom(b);
    if a.len() == 0 {
        if b.len() > 0 {
            lemma_to_map_index(b, b.len() - 1);
        }
        assert(a =~= b);
    } else if b.len() == 0 {
        lemma_to_map_index(a, a.len() - 1);
        assert(a =~= b);
    } else {
        let la = a.last();
        let lb = b.last();
        lemma_to_map_index(a, a.len() - 1);
        lemma_to_map_index(b, b.len() - 1);
        lemma_to_map_bounds(a);
        lemma_to_map_bounds(b);
        assert(la.0 == lb.0);
        assert(la.1 == to_map(a)[la.0] && lb.1 == to_map(b)[lb.0]);
        lemma_drop_last(a);
        lemma_drop_last(b);
        lemma_sorted_unique(a.drop_last(), b.drop_last());
        assert(a =~= b) by {
            assert forall|i: int| 0 <= i < a.len() implies a[i] == b[i] by {
                if i < a.len() - 1 {
                    assert(a.drop_last()[i] == b.drop_last()[i]);
                }
            }
        }
    }
}

/// Dropping the last entry of a sorted sequence removes exactly its key.
pub proof fn lemma_drop_last(s: Seq<(u32, u64)>)
    requires
        key_sorted(s),
        s.len() > 0,
    ensures
        key_sorted(s.drop_last()),
        to_map(s.drop_last()) == to_map(s).remove(s.last().0),
{
    let d = s.drop_last();
    lemma_to_map_dom(d);
    assert(!has_key(d, s.last().0));
    assert(to_map(d) =~= to_map(s).remove(s.last().0));
}

/// Splicing a new entry in at its ordered position inserts its key.
pub proof fn lemma_entry_insert(s: Seq<(u32, u64)>, i: int, k: u32, v: u64)
    requires
        key_sorted(s),
        0 <= i <= s.len(),
        forall|j: int| 0 <= j < i ==> (#[trigger] s[j]).0 < k,
        forall|j: int| i <= j < s.len() ==> k < (#[trigger] s[j]).0,
    ensures
        key_sorted(s.insert(i, (k, v))),
        to_map(s.insert(i, (k, v))) == to_map(s).insert(k, v),
{
    let t = s.insert(i, (k, v));
    s.insert_ensures(i, (k, v));
    assert(key_sorted(t));
    lemma_to_map_dom(s);
    assert forall|k2: u32| #[trigger] to_map(s).insert(k, v).dom().contains(k2)
        implies has_key(t, k2) by {
        if k2 == k {
            assert(t[i].0 == k2);
        } else {
            let j = choose|j: int| 0 <= j < s.len() && (#[trigger] s[j]).0 == k2;
            if j < i {
                assert(t[j].0 == k2);
            } else {
                assert(t[j + 1].0 == k2);
            }
        }
    }
    assert forall|j: int| 0 <= j < t.len()
        implies to_map(s).insert(k, v).dom().contains((#[trigger] t[j]).0)
            && to_map(s).insert(k, v)[t[j].0] == t[j].1 by {
        if j < i {
            lemma_to_map_index(s, j);
        } else if j > i {
            lemma_to_map_index(s, j - 1);
        }
    }
    lemma_to_map_eq(t, to_map(s).insert(k, v));
}

/// Rewriting the value of one entry in place updates its key's value.
pub proof fn lemma_entry_update(s: Seq<(u32, u64)>, i: int, v: u64)
    requires
        key_sorted(s),
        0 <= i < s.len(),
    ensures
        key_sorted(s.update(i, (s[i].0, v))),
        to_map(s.update(i, (s[i].0, v))) == to_map(s).insert(s[i].0, v),
{
    let t = s.update(i, (s[i].0, v));
    lemma_to_map_dom(s);
    assert forall|k2: u32| #[trigger] to_map(s).insert(s[i].0, v).dom().contains(k2)
        implies has_key(t, k2) by {
        if k2 == s[i].0 {
            assert(t[i].0 == k2);
        } else {
            let j = choose|j: int| 0 <= j < s.len() && (#[trigger] s[j]).0 == k2;
            assert(t[j].0 == k2);
        }
    }
    assert forall|j: int| 0 <= j < t.len()
        implies to_map(s).insert(s[i].0, v).dom().contains((#[trigger] t[j]).0)
            && to_map(s).insert(s[i].0, v)[t[j].0] == t[j].1 by {
        lemma_to_map_index(s, j);
        if j != i {
            assert(s[j].0 != s[i].0);
        }
    }
    lemma_to_map_eq(t, to_map(s).insert(s[i].0, v));
}

/// Taking one entry out removes exactly its key.
pub proof fn lemma_entry_remove(s: Seq<(u32, u64)>, i: int)
    requires
        key_sorted(s),
        0 <= i < s.len(),
    ensures
        key_sorted(s.remove(i)),
        to_map(s.remove(i)) == to_map(s).remove(s[i].0),
{
    let t = s.remove(i);
    s.remove_ensures(i);
    assert(key_sorted(t));
    lemma_to_map_dom(s);
    assert forall|k2: u32| #[trigger] to_map(s).remove(s[i].0).dom().contains(k2)
        implies has_key(t, k2) by {
        let j = choose|j: int| 0 <= j < s.len() && (#[trigger] s[j]).0 == k2;
        assert(j != i);
        if j < i {
            assert(t[j].0 == k2);
        } else {
            assert(t[j - 1].0 == k2);
        }
    }
    assert forall|j: int| 0 <= j < t.len()
        implies to_map(s).remove(s[i].0).dom().contains((#[trigger] t[j]).0)
            && to_map(s).remove(s[i].0)[t[j].0] == t[j].1 by {
        if j < i {
            lemma_to_map_index(s, j);
            assert(s[j].0 != s[i].0);
        } else {
            lemma_to_map_index(s, j + 1);
            assert(s[j + 1].0 != s[i].0);
        }
    }
    lemma_to_map_eq(t, to_map(s).remove(s[i].0));
}

/// Joining two sorted runs whose key ranges do not overlap joins their maps.
pub proof fn lemma_entry_concat(a: Seq<(u32, u64)>, b: Seq<(u32, u64)>)
    requires
        key_sorted(a),
        key_sorted(b),
        forall|i: int, j: int|
            0 <= i < a.len() && 0 <= j < b.len() ==> (#[trigger] a[i]).0 < (#[trigger] b[j]).0,
    ensures
        key_sorted(a + b),
        to_map(a + b) == to_map(a).union_prefer_right(to_map(b)),
    decreases b.len(),
{
    let t = a + b;
    let m = to_map(a).union_prefer_right(to_map(b));
    assert(key_sorted(t));
    lemma_to_map_dom(a);
    lemma_to_map_dom(b);
    assert forall|k2: u32| #[trigger] m.dom().contains(k2) implies has_key(t, k2) by {
        if to_map(a).dom().contains(k2) {
            let j = choose|j: int| 0 <= j < a.len() && (#[trigger] a[j]).0 == k2;
            assert(t[j].0 == k2);
        } else {
            let j = choose|j: int| 0 <= j < b.len() && (#[trigger] b[j]).0 == k2;
            assert(t[a.len() + j].0 == k2);
        }
    }
    assert forall|j: int| 0 <= j < t.len()
        implies m.dom().contains((#[trigger] t[j]).0) && m[t[j].0] == t[j].1 by {
        if j < a.len() {
            lemma_to_map_index(a, j);
            assert(t[j] == a[j]);
            assert(!has_key(b, a[j].0));
        } else {
            lemma_to_map_index(b, j - a.len());
            assert(t[j] == b[j - a.len()]);
        }
    }
    lemma_to_map_eq(t, m);
}

/// The entry at position `i` of a sorted sequence has exactly `i` keys of the
/// map below it: position and rank agree.
pub proof fn lemma_rank(s: Seq<(u32, u64)>, i: int)
    requires
        key_sorted(s),
        0 <= i < s.len(),
    ensures
        to_map(s).dom().filter(|k: u32| k < s[i].0).finite(),
        to_map(s).dom().filter(|k: u32| k < s[i].0).len() == i,
{
    let sub = s.take(i);
    assert(key_sorted(sub));
    lemma_to_map_len(sub);
    lemma_to_map_dom(sub);
    lemma_to_map_dom(s);
    lemma_to_map_len(s);
    let below = to_map(s).dom().filter(|k: u32| k < s[i].0);
    assert(below =~= to_map(sub).dom()) by {
        assert forall|k: u32| #[trigger] below.contains(k) implies to_map(sub).dom().contains(
            k,
        ) by {
            let j = choose|j: int| 0 <= j < s.len() && (#[trigger] s[j]).0 == k;
            if j >= i {
                assert(s[i].0 <= s[j].0);
            }
            assert(sub[j].0 == k);
        }
        assert forall|k: u32| #[trigger] to_map(sub).dom().contains(k) implies below.contains(
            k,
        ) by {
            let j = choose|j: int| 0 <= j < sub.len() && (#[trigger] sub[j]).0 == k;
            assert(s[j].0 == k);
            assert(s[j].0 < s[i].0);
        }
    }
}

/// The key-sorted entry sequence of a map: the one sorted association
/// sequence that stands for it.
pub open spec fn asc_entries(m: Map<u32, u64>) -> Seq<(u32, u64)> {
    choose|s: Seq<(u32, u64)>| key_sorted(s) && to_map(s) == m
}

/// Exhibiting a sorted sequence for a map pins `asc_entries` down to it.
pub proof fn lemma_asc_entries_is(m: Map<u32, u64>, s: Seq<(u32, u64)>)
    requires
        key_sorted(s),
        to_map(s) == m,
    ensures
        asc_entries(m) == s,
{
    let t = choose|t: Seq<(u32, u64)>| key_sorted(t) && to_map(t) == m;
    assert(key_sorted(t) && to_map(t) == m);
    lemma_sorted_unique(t, s);
}

/// A finite, non-empty set of keys has a largest element.
pub proof fn lemma_set_max(s: Set<u32>) -> (m: u32)
    requires
        s.finite(),
        s.len() > 0,
    ensures
        s.contains(m),
        forall|k: u32| #[trigger] s.contains(k) ==> k <= m,
    decreases s.len(),
{
    let x = s.choose();
    assert(s.contains(x));
    let rest = s.remove(x);
    if rest.len() == 0 {
        rest.lemma_len0_is_empty();
        assert forall|k: u32| #[trigger] s.contains(k) implies k <= x by {
            if k != x {
                assert(rest.contains(k));
            }
        }
        x
    } else {
        let m0 = lemma_set_max(rest);
        let m = if x > m0 {
            x
        } else {
            m0
        };
        assert forall|k: u32| #[trigger] s.contains(k) implies k <= m by {
            if k != x {
                assert(rest.contains(k));
            }
        }
        m
    }
}

/// Every finite map has a key-sorted entry sequence, so `asc_entries` always
/// delivers one.
pub proof fn lemma_exists_asc(m: Map<u32, u64>)
    requires
        m.dom().finite(),
    ensures
        key_sorted(asc_entries(m)),
        to_map(asc_entries(m)) == m,
    decreases m.dom().len(),
{
    if m.dom().len() == 0 {
        m.dom().lemma_len0_is_empty();
        let e = Seq::<(u32, u64)>::empty();
        assert(m =~= Map::<u32, u64>::empty());
        lemma_asc_entries_is(m, e);
    } else {
        let mx = lemma_set_max(m.dom());
        let m2 = m.remove(mx);
        assert(m2.dom() =~= m.dom().remove(mx));
        lemma_exists_asc(m2);
        let s2 = asc_entries(m2);
        let s = s2.push((mx, m[mx]));
        lemma_to_map_dom(s2);
        assert(key_sorted(s)) by {
            assert forall|i: int, j: int| 0 <= i < j < s.len() implies (#[trigger] s[i]).0 < (
            #[trigger] s[j]).0 by {
                if j == s.len() - 1 {
                    assert(s[i] == s2[i]);
                    assert(has_key(s2, s2[i].0));
                    assert(m2.dom().contains(s2[i].0));
                    assert(s2[i].0 <= mx && s2[i].0 != mx);
                } else {
                    assert(s[i] == s2[i] && s[j] == s2[j]);
                }
            }
        }
        assert(s.drop_last() =~= s2);
        assert(to_map(s) == to_map(s2).insert(mx, m[mx]));
        assert(to_map(s) =~= m);
        lemma_asc_entries_is(m, s);
    }
}

/// A finite, non-empty set of keys has a smallest element.
pub proof fn lemma_set_min(s: Set<u32>) -> (m: u32)
    requires
        s.finite(),
        s.len() > 0,
    ensures
        s.contains(m),
        forall|k: u32| #[trigger] s.contains(k) ==> m <= k,
    decreases s.len(),
{
    let x = s.choose();
    assert(s.contains(x));
    let rest = s.remove(x);
    if rest.len() == 0 {
        rest.lemma_len0_is_empty();
        assert forall|k: u32| #[trigger] s.contains(k) implies x <= k by {
            if k != x {
                assert(rest.contains(k));
            }
        }
        x
    } else {
        let m0 = lemma_set_min(rest);
        let m = if x < m0 {
            x
        } else {
            m0
        };
        assert forall|k: u32| #[trigger] s.contains(k) implies m <= k by {
            if k != x {
                assert(rest.contains(k));
            }
        }
        m
    }
}

/// The smallest key of a map.
pub open spec fn min_key_of(m: Map<u32, u64>) -> u32 {
    choose|k: u32|
        m.dom().contains(k) && forall|k2: u32| #[trigger] m.dom().contains(k2) ==> k <= k2
}

/// The cost of buying `t` shares the way the mutating sweep works: take the
/// book's lowest level, consume it whole (or only the remaining demand) and
/// go on with the rest of the book.
pub open spec fn sim_cost(m: Map<u32, u64>, t: u64) -> u64
    decreases m.dom().len(),
    when m.dom().finite()
    via sim_cost_decreases
{
    if t == 0 || m.dom().len() == 0 {
        0
    } else {
        let k = min_key_of(m);
        let q = m[k];
        if q <= t {
            sat_add64(sat_mul64(k as u64, q), sim_cost(m.remove(k), (t - q) as u64))
        } else {
            sat_mul64(k as u64, t)
        }
    }
}

#[via_fn]
proof fn sim_cost_decreases(m: Map<u32, u64>, t: u64) {
    if !(t == 0 || m.dom().len() == 0) {
        let w = lemma_set_min(m.dom());
        let k = min_key_of(m);
        assert(m.dom().contains(k) && forall|k2: u32| #[trigger] m.dom().contains(k2) ==> k
            <= k2);
        assert(m.remove(k).dom() =~= m.dom().remove(k));
    }
}

/// Pricing the sorted entry sequence front to back is the same as pricing by
/// repeated extraction of the book's minimum: the non-mutating sweep and the
/// mutating one quote one and the same cost.
pub proof fn lemma_seq_cost_is_sim_cost(m: Map<u32, u64>, t: u64)
    requires
        m.dom().finite(),
    ensures
        seq_cost(asc_entries(m), t) == sim_cost(m, t),
    decreases m.dom().len(),
{
    lemma_exists_asc(m);
    let s = asc_entries(m);
    lemma_to_map_len(s);
    if t == 0 || m.dom().len() == 0 {
    } else {
        lemma_to_map_dom(s);
        lemma_to_map_bounds(s);
        lemma_to_map_index(s, 0);
        let k = min_key_of(m);
        assert(m.dom().contains(k) && forall|k2: u32| #[trigger] m.dom().contains(k2) ==> k
            <= k2) by {
            let w = lemma_set_min(m.dom());
            assert(m.dom().contains(w) && forall|k2: u32| #[trigger] m.dom().contains(k2) ==> w
                <= k2);
        }
        assert(k == s[0].0);
        let q = m[k];
        assert(q == s[0].1);
        if q <= t {
            lemma_entry_remove(s, 0);
            assert(s.remove(0) =~= s.drop_first());
            lemma_asc_entries_is(m.remove(k), s.drop_first());
            assert(m.remove(k).dom() =~= m.dom().remove(k));
            lemma_seq_cost_is_sim_cost(m.remove(k), (t - q) as u64);
            assert(asc_entries(m.remove(k)) == s.drop_first());
            assert(seq_cost(s, t) == sat_add64(
                sat_mul64(k as u64, q),
                seq_cost(s.drop_first(), (t - q) as u64),
            ));
            assert(sim_cost(m, t) == sat_add64(
                sat_mul64(k as u64, q),
                sim_cost(m.remove(k), (t - q) as u64),
            ));
        } else {
            assert(seq_cost(s.drop_first(), 0) == 0);
            assert(seq_cost(s, t) == sat_mul64(k as u64, t));
            assert(sim_cost(m, t) == sat_mul64(k as u64, t));
        }
    }
}

/// The book left after buying `t` shares against the entries of `s`, taken
/// in ascending order: sold-out levels disappear, and a partially consumed
/// level keeps the remainder of its quantity.
pub open spec fn buy_left(s: Seq<(u32, u64)>, t: u64) -> Map<u32, u64>
    decreases s.len(),
{
    if t == 0 || s.len() == 0 {
        to_map(s)
    } else if s[0].1 <= t {
        buy_left(s.drop_first(), (t - s[0].1) as u64)
    } else {
        to_map(s).insert(s[0].0, (s[0].1 - t) as u64)
    }
}

/// `u64` addition that stops at the largest representable value.
pub open spec fn sat_add64(a: u64, b: u64) -> u64 {
    if a + b > u64::MAX {
        u64::MAX
    } else {
        (a + b) as u64
    }
}

/// `u64` multiplication that stops at the largest representable value.
pub open spec fn sat_mul64(a: u64, b: u64) -> u64 {
    if a * b > u64::MAX {
        u64::MAX
    } else {
        (a * b) as u64
    }
}

/// Saturating addition may be regrouped freely.
pub proof fn lemma_sat_add_assoc(a: u64, b: u64, c: u64)
    ensures
        sat_add64(sat_add64(a, b), c) == sat_add64(a, sat_add64(b, c)),
{
}

/// The cost of buying `t` shares against the entries of `s`, taken in order:
/// each entry sells up to its quantity at its key as the unit price, with the
/// total saturating at `u64::MAX`.
pub open spec fn seq_cost(s: Seq<(u32, u64)>, t: u64) -> u64
    decreases s.len(),
{
    if t == 0 || s.len() == 0 {
        0
    } else {
        let take = if s[0].1 <= t {
            s[0].1
        } else {
            t
        };
        sat_add64(sat_mul64(s[0].0 as u64, take), seq_cost(s.drop_first(), (t - take) as u64))
    }
}

} // verus!
