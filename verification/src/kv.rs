//! Key-value tables over account identifiers, stored as vectors of
//! `(key, value)` pairs with pairwise-distinct keys.
//!
//! Every storage table of the pallet (validator records, delegations,
//! stakes, balances, holds, tallies) is such a vector. The spec functions
//! here describe lookup, insertion and removal over the sequence view, and
//! the lemmas relate those operations to membership and lookup on the
//! untouched keys.

use vstd::prelude::*;

verus! {

/// All keys in the table are pairwise distinct.
pub open spec fn k_distinct<V>(s: Seq<(u64, V)>) -> bool {
    forall|i: int, j: int|
        0 <= i < j < s.len() ==> (#[trigger] s[i]).0 != (#[trigger] s[j]).0
}

/// The table holds an entry for key `k`.
pub open spec fn k_has<V>(s: Seq<(u64, V)>, k: u64) -> bool {
    exists|i: int| 0 <= i < s.len() && (#[trigger] s[i]).0 == k
}

/// The index of the entry for key `k` (meaningful when `k_has` holds and
/// the keys are distinct).
pub open spec fn k_idx<V>(s: Seq<(u64, V)>, k: u64) -> int {
    choose|i: int| 0 <= i < s.len() && (#[trigger] s[i]).0 == k
}

/// The value stored under key `k` (meaningful when `k_has` holds).
pub open spec fn k_get<V>(s: Seq<(u64, V)>, k: u64) -> V {
    s[k_idx(s, k)].1
}

/// The balance-like value stored under `k`, or zero when the key is absent.
pub open spec fn k_get0(s: Seq<(u64, u128)>, k: u64) -> u128 {
    if k_has(s, k) {
        k_get(s, k)
    } else {
        0
    }
}

/// The tally stored under `k`, or zero when the key is absent.
pub open spec fn k_cnt0(s: Seq<(u64, u32)>, k: u64) -> u32 {
    if k_has(s, k) {
        k_get(s, k)
    } else {
        0
    }
}

/// The table after mapping key `k` to `v`: the entry is updated in place
/// when present, appended otherwise.
pub open spec fn s_set<V>(s: Seq<(u64, V)>, k: u64, v: V) -> Seq<(u64, V)> {
    if k_has(s, k) {
        s.update(k_idx(s, k), (k, v))
    } else {
        s.push((k, v))
    }
}

/// The table after removing the entry for key `k`, if any.
pub open spec fn s_remove<V>(s: Seq<(u64, V)>, k: u64) -> Seq<(u64, V)> {
    if k_has(s, k) {
        s.remove(k_idx(s, k))
    } else {
        s
    }
}

/// In a distinct-key table, any index holding key `k` is the index `k_idx`
/// picks.
pub proof fn lemma_k_idx_unique<V>(s: Seq<(u64, V)>, k: u64, i: int)
    requires
        k_distinct(s),
        0 <= i < s.len(),
        s[i].0 == k,
    ensures
        k_has(s, k),
        k_idx(s, k) == i,
{
    assert(k_has(s, k));
    let j = k_idx(s, k);
    assert(0 <= j < s.len() && s[j].0 == k);
    if i != j {
        if i < j {
            assert(s[i].0 != s[j].0);
        } else {
            assert(s[j].0 != s[i].0);
        }
    }
}

/// Effect of `s_set` on membership and lookup, for the written key and for
/// every other key.
pub proof fn lemma_s_set<V>(s: Seq<(u64, V)>, k: u64, v: V)
    requires
        k_distinct(s),
    ensures
        k_distinct(s_set(s, k, v)),
        k_has(s_set(s, k, v), k),
        k_get(s_set(s, k, v), k) == v,
        s_set(s, k, v).len() == s.len() + (if k_has(s, k) {
            0int
        } else {
            1int
        }),
        forall|k2: u64| k2 != k ==> k_has(s_set(s, k, v), k2) == k_has(s, k2),
        forall|k2: u64|
            k2 != k && k_has(s, k2) ==> k_get(s_set(s, k, v), k2) == k_get(s, k2),
{
    let t = s_set(s, k, v);
    if k_has(s, k) {
        let i = k_idx(s, k);
        assert(0 <= i < s.len() && s[i].0 == k);
        assert(k_distinct(t));
        lemma_k_idx_unique(t, k, i);
        assert(k_get(t, k) == v);
        assert forall|k2: u64| k2 != k implies k_has(t, k2) == k_has(s, k2) by {
            if k_has(s, k2) {
                let j = k_idx(s, k2);
                assert(t[j].0 == k2);
            }
            if k_has(t, k2) {
                let j = k_idx(t, k2);
                assert(s[j].0 == k2);
            }
        }
        assert forall|k2: u64| k2 != k && k_has(s, k2) implies k_get(t, k2) == k_get(
            s,
            k2,
        ) by {
            let j = k_idx(s, k2);
            assert(j != i);
            assert(t[j].0 == k2);
            lemma_k_idx_unique(t, k2, j);
        }
    } else {
        assert forall|i: int, j: int| 0 <= i < j < t.len() implies (#[trigger] t[i]).0
            != (#[trigger] t[j]).0 by {
            if j < s.len() {
                assert(s[i].0 != s[j].0);
            } else {
                assert(t[j].0 == k);
                assert(t[i].0 == s[i].0);
                assert(!k_has(s, k));
            }
        }
        lemma_k_idx_unique(t, k, s.len() as int);
        assert forall|k2: u64| k2 != k implies k_has(t, k2) == k_has(s, k2) by {
            if k_has(s, k2) {
                let j = k_idx(s, k2);
                assert(t[j].0 == k2);
            }
            if k_has(t, k2) {
                let j = k_idx(t, k2);
                assert(j < s.len());
                assert(s[j].0 == k2);
            }
        }
        assert forall|k2: u64| k2 != k && k_has(s, k2) implies k_get(t, k2) == k_get(
            s,
            k2,
        ) by {
            let j = k_idx(s, k2);
            assert(t[j].0 == k2);
            lemma_k_idx_unique(t, k2, j);
        }
    }
}

/// Effect of `s_remove` on membership and lookup, for the removed key and
/// for every other key.
pub proof fn lemma_s_remove<V>(s: Seq<(u64, V)>, k: u64)
    requires
        k_distinct(s),
    ensures
        k_distinct(s_remove(s, k)),
        !k_has(s_remove(s, k), k),
        s_remove(s, k).len() == s.len() - (if k_has(s, k) {
            1int
        } else {
            0int
        }),
        forall|k2: u64| k2 != k ==> k_has(s_remove(s, k), k2) == k_has(s, k2),
        forall|k2: u64|
            k2 != k && k_has(s, k2) ==> k_get(s_remove(s, k), k2) == k_get(s, k2),
{
    if k_has(s, k) {
        let i = k_idx(s, k);
        assert(0 <= i < s.len() && s[i].0 == k);
        let t = s.remove(i);
        assert forall|a: int, b: int| 0 <= a < b < t.len() implies (#[trigger] t[a]).0
            != (#[trigger] t[b]).0 by {
            let a2 = if a < i { a } else { a + 1 };
            let b2 = if b < i { b } else { b + 1 };
            assert(t[a] == s[a2]);
            assert(t[b] == s[b2]);
        }
        assert forall|j: int| 0 <= j < t.len() implies (#[trigger] t[j]).0 != k by {
            let j2 = if j < i { j } else { j + 1 };
            assert(t[j] == s[j2]);
            if j2 != i {
                if j2 < i {
                    assert(s[j2].0 != s[i].0);
                } else {
                    assert(s[i].0 != s[j2].0);
                }
            }
        }
        assert forall|k2: u64| k2 != k implies k_has(t, k2) == k_has(s, k2) by {
            if k_has(s, k2) {
                let j = k_idx(s, k2);
                assert(j != i);
                let j2 = if j < i { j } else { j - 1 };
                assert(t[j2] == s[j]);
            }
            if k_has(t, k2) {
                let j = k_idx(t, k2);
                let j2 = if j < i { j } else { j + 1 };
                assert(t[j] == s[j2]);
            }
        }
        assert forall|k2: u64| k2 != k && k_has(s, k2) implies k_get(t, k2) == k_get(
            s,
            k2,
        ) by {
            let j = k_idx(s, k2);
            assert(j != i);
            let j2 = if j < i { j } else { j - 1 };
            assert(t[j2] == s[j]);
            lemma_k_idx_unique(t, k2, j2);
        }
    }
}

/// Filtering a distinct-key table keeps exactly the entries whose pair
/// satisfies the predicate, with their values.
pub proof fn lemma_filter_kv<V>(s: Seq<(u64, V)>, p: spec_fn((u64, V)) -> bool)
    requires
        k_distinct(s),
    ensures
        k_distinct(s.filter(p)),
        forall|k: u64|
            #[trigger] k_has(s.filter(p), k) <==> (k_has(s, k) && p((k, k_get(s, k)))),
        forall|k: u64|
            k_has(s.filter(p), k) ==> #[trigger] k_get(s.filter(p), k) == k_get(s, k),
    decreases s.len(),
{
    reveal(Seq::filter);
    if s.len() == 0 {
    } else {
        let s1 = s.drop_last();
        let e = s.last();
        assert(k_distinct(s1));
        lemma_filter_kv(s1, p);
        let t1 = s1.filter(p);
        assert(!k_has(s1, e.0)) by {
            if k_has(s1, e.0) {
                let i = k_idx(s1, e.0);
                assert(s[i].0 == s[s.len() - 1].0);
            }
        }
        assert(!k_has(t1, e.0));
        assert forall|k: u64| k != e.0 && k_has(s, k) implies k_has(s1, k) && k_get(
            s1,
            k,
        ) == k_get(s, k) by {
            let i = k_idx(s, k);
            assert(i < s1.len());
            assert(s1[i] == s[i]);
            lemma_k_idx_unique(s1, k, i);
        }
        assert forall|k: u64| k != e.0 && k_has(s1, k) implies k_has(s, k) && k_get(
            s1,
            k,
        ) == k_get(s, k) by {
            let i = k_idx(s1, k);
            assert(s[i] == s1[i]);
            lemma_k_idx_unique(s, k, i);
        }
        lemma_k_idx_unique(s, e.0, s.len() - 1);
        if p(e) {
            let t = t1.push(e);
            assert(s.filter(p) == t);
            assert forall|i: int, j: int| 0 <= i < j < t.len() implies (
            #[trigger] t[i]).0 != (#[trigger] t[j]).0 by {
                if j < t1.len() {
                    assert(t1[i].0 != t1[j].0);
                } else {
                    assert(t[j] == e);
                    assert(t[i] == t1[i]);
                    assert(!k_has(t1, e.0));
                }
            }
            lemma_k_idx_unique(t, e.0, t1.len() as int);
            assert forall|k: u64| k != e.0 && k_has(t, k) implies k_has(t1, k) && k_get(
                t,
                k,
            ) == k_get(t1, k) by {
                let i = k_idx(t, k);
                assert(i < t1.len());
                assert(t1[i] == t[i]);
                lemma_k_idx_unique(t1, k, i);
            }
            assert forall|k: u64| k != e.0 && k_has(t1, k) implies k_has(t, k) && k_get(
                t,
                k,
            ) == k_get(t1, k) by {
                let i = k_idx(t1, k);
                assert(t[i] == t1[i]);
                lemma_k_idx_unique(t, k, i);
            }
        } else {
            assert(s.filter(p) == t1);
        }
    }
}

/// Removing a key from a distinct-key table is filtering it out, for any
/// predicate that says "keeps another key" on the table's entries.
pub proof fn lemma_remove_is_filter<V>(s: Seq<(u64, V)>, k: u64, c: spec_fn((u64, V)) -> bool)
    requires
        k_distinct(s),
        forall|i: int| 0 <= i < s.len() ==> c(#[trigger] s[i]) == (s[i].0 != k),
    ensures
        s_remove(s, k) == s.filter(c),
    decreases s.len(),
{
    reveal(Seq::filter);
    if s.len() == 0 {
    } else {
        let s1 = s.drop_last();
        let e = s.last();
        assert(k_distinct(s1));
        lemma_remove_is_filter(s1, k, c);
        assert(c(e) == (e.0 != k));
        if e.0 == k {
            lemma_k_idx_unique(s, k, s.len() - 1);
            assert(s.remove(s.len() - 1) =~= s1);
            assert(!k_has(s1, k)) by {
                if k_has(s1, k) {
                    let i = k_idx(s1, k);
                    assert(s[i].0 == s[s.len() - 1].0);
                }
            }
            assert(s_remove(s1, k) == s1);
        } else {
            if k_has(s, k) {
                let i = k_idx(s, k);
                assert(i < s1.len()) by {
                    assert(s[s.len() - 1].0 != k);
                }
                assert(s1[i] == s[i]);
                lemma_k_idx_unique(s1, k, i);
                assert(s.remove(i) =~= s1.remove(i).push(e));
            } else {
                assert(!k_has(s1, k)) by {
                    if k_has(s1, k) {
                        let i = k_idx(s1, k);
                        assert(s[i] == s1[i]);
                    }
                }
            }
        }
    }
}

/// Filtering by a predicate every element satisfies changes nothing.
pub proof fn lemma_filter_all_of<A>(s: Seq<A>, p: spec_fn(A) -> bool)
    requires
        forall|i: int| 0 <= i < s.len() ==> p(#[trigger] s[i]),
    ensures
        s.filter(p) == s,
    decreases s.len(),
{
    reveal(Seq::filter);
    if s.len() > 0 {
        lemma_filter_all_of(s.drop_last(), p);
        assert(s.drop_last().push(s.last()) =~= s);
    }
}

/// Two filters in a row are one filter by any predicate that agrees with
/// the conjunction on the table's entries.
pub proof fn lemma_filter_filter<A>(
    s: Seq<A>,
    p: spec_fn(A) -> bool,
    q: spec_fn(A) -> bool,
    c: spec_fn(A) -> bool,
)
    requires
        forall|i: int| 0 <= i < s.len() ==> c(#[trigger] s[i]) == (p(s[i]) && q(s[i])),
    ensures
        s.filter(p).filter(q) == s.filter(c),
    decreases s.len(),
{
    reveal(Seq::filter);
    if s.len() > 0 {
        let s1 = s.drop_last();
        let e = s.last();
        lemma_filter_filter(s1, p, q, c);
        assert(c(e) == (p(e) && q(e)));
        if p(e) {
            assert(s.filter(p) == s1.filter(p).push(e));
            assert(s1.filter(p).push(e).drop_last() =~= s1.filter(p));
            assert(s1.filter(p).push(e).last() == e);
        } else {
            assert(s.filter(p) == s1.filter(p));
        }
    }
}

/// Filters by pointwise-equal predicates agree.
pub proof fn lemma_filter_congruent<V>(
    s: Seq<V>,
    p: spec_fn(V) -> bool,
    q: spec_fn(V) -> bool,
)
    requires
        forall|i: int| 0 <= i < s.len() ==> p(#[trigger] s[i]) == q(s[i]),
    ensures
        s.filter(p) == s.filter(q),
    decreases s.len(),
{
    reveal(Seq::filter);
    if s.len() > 0 {
        lemma_filter_congruent(s.drop_last(), p, q);
        assert(p(s[s.len() - 1]) == q(s[s.len() - 1]));
    }
}

/// Two distinct-key tables with the same key set have the same size.
pub proof fn lemma_same_keys_same_len<V, W>(s: Seq<(u64, V)>, t: Seq<(u64, W)>)
    requires
        k_distinct(s),
        k_distinct(t),
        forall|k: u64| k_has(s, k) == k_has(t, k),
    ensures
        s.len() == t.len(),
    decreases s.len(),
{
    if s.len() == 0 {
        if t.len() > 0 {
            assert(k_has(t, t[0].0));
            assert(k_has(s, t[0].0));
            let i = k_idx(s, t[0].0);
            assert(false);
        }
    } else {
        let e = s.last();
        let s1 = s.drop_last();
        assert(k_distinct(s1));
        assert(!k_has(s1, e.0)) by {
            if k_has(s1, e.0) {
                let i = k_idx(s1, e.0);
                assert(s[i].0 == s[s.len() - 1].0);
            }
        }
        assert(k_has(s, e.0)) by {
            assert(s[s.len() - 1].0 == e.0);
        }
        let t1 = s_remove(t, e.0);
        lemma_s_remove(t, e.0);
        assert forall|k: u64| k_has(s1, k) == k_has(t1, k) by {
            if k == e.0 {
                assert(!k_has(t1, k));
            } else {
                assert(k_has(s1, k) == k_has(s, k)) by {
                    if k_has(s, k) {
                        let i = k_idx(s, k);
                        assert(i < s1.len()) by {
                            assert(s[s.len() - 1].0 == e.0);
                        }
                        assert(s1[i] == s[i]);
                    }
                    if k_has(s1, k) {
                        let i = k_idx(s1, k);
                        assert(s[i] == s1[i]);
                    }
                }
            }
        }
        lemma_same_keys_same_len(s1, t1);
    }
}

/// Look up the value stored under `k`.
pub fn kv_get<V: Copy>(s: &Vec<(u64, V)>, k: u64) -> (r: Option<V>)
    requires
        k_distinct(s@),
    ensures
        r.is_some() <==> k_has(s@, k),
        r.is_some() ==> r == Some(k_get(s@, k)),
{
    let mut i: usize = 0;
    while i < s.len()
        invariant
            0 <= i <= s@.len(),
            forall|j: int| 0 <= j < i ==> (#[trigger] s@[j]).0 != k,
            k_distinct(s@),
        decreases s@.len() - i,
    {
        if s[i].0 == k {
            proof {
                lemma_k_idx_unique(s@, k, i as int);
            }
            return Some(s[i].1);
        }
        i += 1;
    }
    None
}

/// Whether the account list contains `a`.
pub fn contains_account(s: &Vec<u64>, a: u64) -> (r: bool)
    ensures
        r == s@.contains(a),
{
    let mut i: usize = 0;
    while i < s.len()
        invariant
            0 <= i <= s@.len(),
            forall|j: int| 0 <= j < i ==> s@[j] != a,
        decreases s@.len() - i,
    {
        if s[i] == a {
            return true;
        }
        i += 1;
    }
    false
}

/// Whether the table holds an entry for `k`.
pub fn kv_contains<V: Copy>(s: &Vec<(u64, V)>, k: u64) -> (r: bool)
    requires
        k_distinct(s@),
    ensures
        r == k_has(s@, k),
{
    kv_get(s, k).is_some()
}

/// Map key `k` to `v`, replacing any previous entry.
#[verifier::loop_isolation(false)]
pub fn kv_set<V: Copy>(s: &mut Vec<(u64, V)>, k: u64, v: V)
    requires
        k_distinct(old(s)@),
    ensures
        final(s)@ == s_set(old(s)@, k, v),
        k_distinct(final(s)@),
{
    proof {
        lemma_s_set(old(s)@, k, v);
    }
    let ghost s0 = s@;
    let mut i: usize = 0;
    while i < s.len()
        invariant
            0 <= i <= s@.len(),
            s@ == s0,
            forall|j: int| 0 <= j < i ==> (#[trigger] s@[j]).0 != k,
            k_distinct(s@),
        decreases s@.len() - i,
    {
        if s[i].0 == k {
            proof {
                lemma_k_idx_unique(s@, k, i as int);
            }
            s.set(i, (k, v));
            return ;
        }
        i += 1;
    }
    s.push((k, v));
}

/// Remove the entry for key `k`, if any.
#[verifier::loop_isolation(false)]
pub fn kv_remove<V: Copy>(s: &mut Vec<(u64, V)>, k: u64)
    requires
        k_distinct(old(s)@),
    ensures
        final(s)@ == s_remove(old(s)@, k),
        k_distinct(final(s)@),
{
    proof {
        lemma_s_remove(old(s)@, k);
    }
    let ghost s0 = s@;
    let mut i: usize = 0;
    while i < s.len()
        invariant
            0 <= i <= s@.len(),
            s@ == s0,
            forall|j: int| 0 <= j < i ==> (#[trigger] s@[j]).0 != k,
            k_distinct(s@),
        decreases s@.len() - i,
    {
        if s[i].0 == k {
            proof {
                lemma_k_idx_unique(s@, k, i as int);
            }
            s.remove(i);
            return ;
        }
        i += 1;
    }
}

} // verus!
