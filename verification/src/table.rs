//! Association sequences keyed by byte strings: the spec-level vocabulary
//! for the tracker's per-address tables, with the lemmas that connect
//! first-match lookup, in-place update, removal and filtering to the
//! corresponding vector operations.

use vstd::prelude::*;

verus! {

/// No two entries share a key.
pub open spec fn distinct_keys<T>(s: Seq<(Seq<u8>, T)>) -> bool {
    forall|i: int, j: int| 0 <= i < j < s.len() ==> s[i].0 != s[j].0
}

/// Some entry has the key `k`.
pub open spec fn has_key<T>(s: Seq<(Seq<u8>, T)>, k: Seq<u8>) -> bool {
    exists|i: int| 0 <= i < s.len() && s[i].0 == k
}

/// The value of the first entry with key `k`, if any.
pub open spec fn lookup<T>(s: Seq<(Seq<u8>, T)>, k: Seq<u8>) -> Option<T>
    decreases s.len(),
{
    if s.len() == 0 {
        None
    } else if s[0].0 == k {
        Some(s[0].1)
    } else {
        lookup(s.drop_first(), k)
    }
}

/// Replace the value of the first entry with key `k`, or append a new entry.
pub open spec fn upsert<T>(s: Seq<(Seq<u8>, T)>, k: Seq<u8>, v: T) -> Seq<(Seq<u8>, T)>
    decreases s.len(),
{
    if s.len() == 0 {
        seq![(k, v)]
    } else if s[0].0 == k {
        seq![(k, v)] + s.drop_first()
    } else {
        seq![s[0]] + upsert(s.drop_first(), k, v)
    }
}

/// Remove the first entry with key `k`, if any.
pub open spec fn remove_key<T>(s: Seq<(Seq<u8>, T)>, k: Seq<u8>) -> Seq<(Seq<u8>, T)>
    decreases s.len(),
{
    if s.len() == 0 {
        s
    } else if s[0].0 == k {
        s.drop_first()
    } else {
        seq![s[0]] + remove_key(s.drop_first(), k)
    }
}

/// The subsequence of elements satisfying `p`, in order.
pub open spec fn keep<T>(s: Seq<T>, p: spec_fn(T) -> bool) -> Seq<T>
    decreases s.len(),
{
    if s.len() == 0 {
        s
    } else if p(s[0]) {
        seq![s[0]] + keep(s.drop_first(), p)
    } else {
        keep(s.drop_first(), p)
    }
}

pub proof fn lemma_lookup_at<T>(s: Seq<(Seq<u8>, T)>, k: Seq<u8>, j: int)
    requires
        0 <= j < s.len(),
        s[j].0 == k,
        forall|i: int| 0 <= i < j ==> s[i].0 != k,
    ensures
        lookup(s, k) == Some(s[j].1),
    decreases s.len(),
{
    if j > 0 {
        lemma_lookup_at(s.drop_first(), k, j - 1);
    }
}

pub proof fn lemma_lookup_absent<T>(s: Seq<(Seq<u8>, T)>, k: Seq<u8>)
    requires
        forall|i: int| 0 <= i < s.len() ==> s[i].0 != k,
    ensures
        lookup(s, k) is None,
        !has_key(s, k),
    decreases s.len(),
{
    if s.len() > 0 {
        lemma_lookup_absent(s.drop_first(), k);
    }
}

pub proof fn lemma_lookup_has_key<T>(s: Seq<(Seq<u8>, T)>, k: Seq<u8>)
    ensures
        has_key(s, k) <==> lookup(s, k) is Some,
    decreases s.len(),
{
    if s.len() > 0 {
        lemma_lookup_has_key(s.drop_first(), k);
        if has_key(s, k) && s[0].0 != k {
            let i = choose|i: int| 0 <= i < s.len() && s[i].0 == k;
            assert(s.drop_first()[i - 1].0 == k);
        }
        if has_key(s.drop_first(), k) {
            let i = choose|i: int| 0 <= i < s.drop_first().len() && s.drop_first()[i].0 == k;
            assert(s[i + 1].0 == k);
        }
    }
}

pub proof fn lemma_upsert_at<T>(s: Seq<(Seq<u8>, T)>, k: Seq<u8>, v: T, j: int)
    requires
        0 <= j < s.len(),
        s[j].0 == k,
        forall|i: int| 0 <= i < j ==> s[i].0 != k,
    ensures
        upsert(s, k, v) == s.update(j, (k, v)),
    decreases s.len(),
{
    if j == 0 {
        assert(seq![(k, v)] + s.drop_first() =~= s.update(0, (k, v)));
    } else {
        lemma_upsert_at(s.drop_first(), k, v, j - 1);
        assert(seq![s[0]] + s.drop_first().update(j - 1, (k, v)) =~= s.update(j, (k, v)));
    }
}

pub proof fn lemma_upsert_absent<T>(s: Seq<(Seq<u8>, T)>, k: Seq<u8>, v: T)
    requires
        forall|i: int| 0 <= i < s.len() ==> s[i].0 != k,
    ensures
        upsert(s, k, v) == s.push((k, v)),
    decreases s.len(),
{
    if s.len() == 0 {
        assert(seq![(k, v)] =~= s.push((k, v)));
    } else {
        lemma_upsert_absent(s.drop_first(), k, v);
        assert(seq![s[0]] + s.drop_first().push((k, v)) =~= s.push((k, v)));
    }
}

pub proof fn lemma_remove_key_at<T>(s: Seq<(Seq<u8>, T)>, k: Seq<u8>, j: int)
    requires
        0 <= j < s.len(),
        s[j].0 == k,
        forall|i: int| 0 <= i < j ==> s[i].0 != k,
    ensures
        remove_key(s, k) == s.remove(j),
    decreases s.len(),
{
    if j == 0 {
        assert(s.drop_first() =~= s.remove(0));
    } else {
        lemma_remove_key_at(s.drop_first(), k, j - 1);
        assert(seq![s[0]] + s.drop_first().remove(j - 1) =~= s.remove(j));
    }
}

pub proof fn lemma_remove_key_absent<T>(s: Seq<(Seq<u8>, T)>, k: Seq<u8>)
    requires
        forall|i: int| 0 <= i < s.len() ==> s[i].0 != k,
    ensures
        remove_key(s, k) == s,
    decreases s.len(),
{
    if s.len() > 0 {
        lemma_remove_key_absent(s.drop_first(), k);
        assert(seq![s[0]] + s.drop_first() =~= s);
    }
}

pub proof fn lemma_lookup_upsert<T>(s: Seq<(Seq<u8>, T)>, k: Seq<u8>, v: T, k2: Seq<u8>)
    ensures
        k2 == k ==> lookup(upsert(s, k, v), k2) == Some(v),
        k2 != k ==> lookup(upsert(s, k, v), k2) == lookup(s, k2),
    decreases s.len(),
{
    let u = upsert(s, k, v);
    if s.len() == 0 {
        assert(u == seq![(k, v)]);
        assert(u[0] == (k, v) && u.len() == 1);
        assert(u.drop_first() =~= Seq::<(Seq<u8>, T)>::empty());
        if k2 != k {
            assert(u[0].0 == k);
            assert(lookup(u, k2) == lookup(u.drop_first(), k2));
            assert(lookup(u, k2) is None);
            assert(lookup(s, k2) is None);
        }
    } else if s[0].0 == k {
        assert(u == seq![(k, v)] + s.drop_first());
        assert(u[0] == (k, v));
        assert(u.drop_first() =~= s.drop_first());
        if k2 != k {
            assert(lookup(u, k2) == lookup(u.drop_first(), k2));
            assert(lookup(u.drop_first(), k2) == lookup(s.drop_first(), k2));
            assert(lookup(s, k2) == lookup(s.drop_first(), k2));
        }
    } else {
        assert(u == seq![s[0]] + upsert(s.drop_first(), k, v));
        assert(u[0] == s[0]);
        assert(u.drop_first() =~= upsert(s.drop_first(), k, v));
        lemma_lookup_upsert(s.drop_first(), k, v, k2);
        if k2 != k {
            if s[0].0 == k2 {
                assert(lookup(u, k2) == Some(u[0].1));
                assert(lookup(s, k2) == Some(s[0].1));
            } else {
                assert(lookup(u, k2) == lookup(u.drop_first(), k2));
                assert(lookup(s, k2) == lookup(s.drop_first(), k2));
            }
        }
    }
}

pub proof fn lemma_lookup_remove<T>(s: Seq<(Seq<u8>, T)>, k: Seq<u8>, k2: Seq<u8>)
    requires
        distinct_keys(s),
    ensures
        k2 == k ==> lookup(remove_key(s, k), k2) is None,
        k2 != k ==> lookup(remove_key(s, k), k2) == lookup(s, k2),
    decreases s.len(),
{
    let u = remove_key(s, k);
    if s.len() == 0 {
    } else if s[0].0 == k {
        assert(u =~= s.drop_first());
        if k2 == k {
            assert(forall|i: int|
                0 <= i < s.drop_first().len() ==> s.drop_first()[i].0 != k2);
            lemma_lookup_absent(s.drop_first(), k2);
        }
    } else {
        assert(u == seq![s[0]] + remove_key(s.drop_first(), k));
        assert(u[0] == s[0]);
        assert(u.drop_first() =~= remove_key(s.drop_first(), k));
        assert(distinct_keys(s.drop_first()));
        lemma_lookup_remove(s.drop_first(), k, k2);
    }
}

pub proof fn lemma_upsert_distinct<T>(s: Seq<(Seq<u8>, T)>, k: Seq<u8>, v: T)
    requires
        distinct_keys(s),
    ensures
        distinct_keys(upsert(s, k, v)),
        forall|k2: Seq<u8>| #[trigger] has_key(upsert(s, k, v), k2) <==> has_key(s, k2) || k2
            == k,
{
    let u = upsert(s, k, v);
    lemma_lookup_has_key(s, k);
    if has_key(s, k) {
        let j = choose|j: int| 0 <= j < s.len() && s[j].0 == k;
        assert(forall|i: int| 0 <= i < j ==> s[i].0 != k);
        lemma_upsert_at(s, k, v, j);
        assert forall|a: int, b: int| 0 <= a < b < u.len() implies u[a].0 != u[b].0 by {
            assert(u[a] == if a == j { (k, v) } else { s[a] });
            assert(u[b] == if b == j { (k, v) } else { s[b] });
        }
    } else {
        assert forall|i: int| 0 <= i < s.len() implies s[i].0 != k by {
            if s[i].0 == k {
                assert(has_key(s, k));
            }
        }
        lemma_upsert_absent(s, k, v);
        assert forall|a: int, b: int| 0 <= a < b < u.len() implies u[a].0 != u[b].0 by {
            if b < s.len() {
            } else {
                assert(u[b] == (k, v));
                assert(u[a] == s[a]);
            }
        }
    }
    assert forall|k2: Seq<u8>| #[trigger] has_key(u, k2) <==> has_key(s, k2) || k2 == k by {
        lemma_lookup_has_key(u, k2);
        lemma_lookup_has_key(s, k2);
        lemma_lookup_upsert(s, k, v, k2);
    }
}

pub proof fn lemma_remove_key_distinct<T>(s: Seq<(Seq<u8>, T)>, k: Seq<u8>)
    requires
        distinct_keys(s),
    ensures
        distinct_keys(remove_key(s, k)),
        forall|k2: Seq<u8>| #[trigger] has_key(remove_key(s, k), k2) ==> has_key(s, k2),
{
    let u = remove_key(s, k);
    lemma_lookup_has_key(s, k);
    if has_key(s, k) {
        let j = choose|j: int| 0 <= j < s.len() && s[j].0 == k;
        assert(forall|i: int| 0 <= i < j ==> s[i].0 != k);
        lemma_remove_key_at(s, k, j);
        assert forall|a: int, b: int| 0 <= a < b < u.len() implies u[a].0 != u[b].0 by {
            assert(u[a] == if a < j { s[a] } else { s[a + 1] });
            assert(u[b] == if b < j { s[b] } else { s[b + 1] });
        }
    } else {
        assert forall|i: int| 0 <= i < s.len() implies s[i].0 != k by {
            if s[i].0 == k {
                assert(has_key(s, k));
            }
        }
        lemma_remove_key_absent(s, k);
    }
    assert forall|k2: Seq<u8>| #[trigger] has_key(u, k2) implies has_key(s, k2) by {
        lemma_lookup_has_key(u, k2);
        lemma_lookup_has_key(s, k2);
        lemma_lookup_remove(s, k, k2);
    }
}

/// Filtering a keyed sequence keeps its keys distinct and introduces none.
pub proof fn lemma_keep_keyed_distinct<T>(s: Seq<(Seq<u8>, T)>, p: spec_fn((Seq<u8>, T)) -> bool)
    requires
        distinct_keys(s),
    ensures
        distinct_keys(keep(s, p)),
        forall|k: Seq<u8>| #[trigger] has_key(keep(s, p), k) ==> has_key(s, k),
    decreases s.len(),
{
    let u = keep(s, p);
    if s.len() == 0 {
    } else {
        let t = s.drop_first();
        assert(distinct_keys(t)) by {
            assert forall|i: int, j: int| 0 <= i < j < t.len() implies t[i].0 != t[j].0 by {
                assert(t[i] == s[i + 1] && t[j] == s[j + 1]);
            }
        }
        lemma_keep_keyed_distinct(t, p);
        let ut = keep(t, p);
        assert forall|k: Seq<u8>| #[trigger] has_key(ut, k) implies has_key(s, k) by {
            if has_key(t, k) {
                let i = choose|i: int| 0 <= i < t.len() && t[i].0 == k;
                assert(s[i + 1].0 == k);
            }
        }
        if p(s[0]) {
            assert(u == seq![s[0]] + ut);
            assert forall|a: int, b: int| 0 <= a < b < u.len() implies u[a].0 != u[b].0 by {
                assert(u[b] == ut[b - 1]);
                if a == 0 {
                    assert(u[0] == s[0]);
                    if s[0].0 == ut[b - 1].0 {
                        assert(has_key(ut, s[0].0));
                        assert(has_key(t, s[0].0));
                        let i = choose|i: int| 0 <= i < t.len() && t[i].0 == s[0].0;
                        assert(s[i + 1].0 == s[0].0);
                    }
                } else {
                    assert(u[a] == ut[a - 1]);
                }
            }
            assert forall|k: Seq<u8>| #[trigger] has_key(u, k) implies has_key(s, k) by {
                let i = choose|i: int| 0 <= i < u.len() && u[i].0 == k;
                if i == 0 {
                    assert(s[0].0 == k);
                } else {
                    assert(ut[i - 1].0 == k);
                    assert(has_key(ut, k));
                }
            }
        } else {
            assert(u == ut);
        }
    }
}

/// Looking a key up after filtering a keyed sequence: the entry survives
/// exactly when the filter keeps it.
pub proof fn lemma_lookup_keep<T>(s: Seq<(Seq<u8>, T)>, p: spec_fn((Seq<u8>, T)) -> bool, k: Seq<u8>)
    requires
        distinct_keys(s),
    ensures
        lookup(keep(s, p), k) == (match lookup(s, k) {
            Some(v) => if p((k, v)) {
                Some(v)
            } else {
                None
            },
            None => None::<T>,
        }),
    decreases s.len(),
{
    let u = keep(s, p);
    if s.len() == 0 {
    } else {
        let t = s.drop_first();
        assert(distinct_keys(t)) by {
            assert forall|i: int, j: int| 0 <= i < j < t.len() implies t[i].0 != t[j].0 by {
                assert(t[i] == s[i + 1] && t[j] == s[j + 1]);
            }
        }
        lemma_lookup_keep(t, p, k);
        if s[0].0 == k {
            assert(lookup(s, k) == Some(s[0].1));
            if p(s[0]) {
                assert(u == seq![s[0]] + keep(t, p));
                assert(u[0] == s[0]);
                assert(lookup(u, k) == Some(s[0].1));
            } else {
                assert(u == keep(t, p));
                assert(forall|i: int| 0 <= i < t.len() ==> t[i].0 != k) by {
                    assert(forall|i: int| 0 <= i < t.len() ==> t[i] == s[i + 1]);
                }
                lemma_lookup_absent(t, k);
            }
        } else {
            assert(lookup(s, k) == lookup(t, k));
            if p(s[0]) {
                assert(u == seq![s[0]] + keep(t, p));
                assert(u[0] == s[0]);
                assert(u.drop_first() =~= keep(t, p));
                assert(lookup(u, k) == lookup(keep(t, p), k));
            } else {
                assert(u == keep(t, p));
            }
        }
    }
}

/// `keep` commutes with appending one element.
pub proof fn lemma_keep_push<T>(s: Seq<T>, p: spec_fn(T) -> bool, x: T)
    ensures
        keep(s.push(x), p) == if p(x) {
            keep(s, p).push(x)
        } else {
            keep(s, p)
        },
    decreases s.len(),
{
    let sp = s.push(x);
    if s.len() == 0 {
        assert(sp[0] == x);
        assert(sp.drop_first() =~= Seq::<T>::empty());
        if p(x) {
            assert(seq![x] + keep(Seq::<T>::empty(), p) =~= keep(s, p).push(x));
        }
    } else {
        assert(sp[0] == s[0]);
        assert(sp.drop_first() =~= s.drop_first().push(x));
        lemma_keep_push(s.drop_first(), p, x);
        if p(s[0]) {
            if p(x) {
                assert(seq![s[0]] + keep(s.drop_first(), p).push(x) =~= (seq![s[0]] + keep(
                    s.drop_first(),
                    p,
                )).push(x));
            }
        }
    }
}

/// A second, stricter filter makes an earlier one redundant.
pub proof fn lemma_keep_absorb<T>(s: Seq<T>, p1: spec_fn(T) -> bool, p2: spec_fn(T) -> bool)
    requires
        forall|x: T| #[trigger] p2(x) ==> p1(x),
    ensures
        keep(keep(s, p1), p2) == keep(s, p2),
    decreases s.len(),
{
    if s.len() > 0 {
        lemma_keep_absorb(s.drop_first(), p1, p2);
        if p1(s[0]) {
            let u = keep(s, p1);
            assert(u == seq![s[0]] + keep(s.drop_first(), p1));
            assert(u[0] == s[0]);
            assert(u.drop_first() =~= keep(s.drop_first(), p1));
            if p2(s[0]) {
                assert(keep(u, p2) == seq![s[0]] + keep(keep(s.drop_first(), p1), p2));
                assert(keep(s, p2) == seq![s[0]] + keep(s.drop_first(), p2));
            } else {
                assert(keep(u, p2) == keep(keep(s.drop_first(), p1), p2));
                assert(keep(s, p2) == keep(s.drop_first(), p2));
            }
        } else {
            assert(!p2(s[0]));
            assert(keep(s, p1) == keep(s.drop_first(), p1));
            assert(keep(s, p2) == keep(s.drop_first(), p2));
        }
    }
}

/// Every element kept was present.
pub proof fn lemma_keep_contains<T>(s: Seq<T>, p: spec_fn(T) -> bool, i: int)
    requires
        0 <= i < keep(s, p).len(),
    ensures
        exists|j: int| 0 <= j < s.len() && s[j] == keep(s, p)[i] && p(s[j]),
    decreases s.len(),
{
    let u = keep(s, p);
    if s.len() > 0 {
        if p(s[0]) {
            if i == 0 {
                assert(s[0] == u[0] && p(s[0]));
            } else {
                lemma_keep_contains(s.drop_first(), p, i - 1);
                let j = choose|j: int|
                    0 <= j < s.drop_first().len() && s.drop_first()[j] == keep(
                        s.drop_first(),
                        p,
                    )[i - 1] && p(s.drop_first()[j]);
                assert(s[j + 1] == u[i] && p(s[j + 1]));
            }
        } else {
            lemma_keep_contains(s.drop_first(), p, i);
            let j = choose|j: int|
                0 <= j < s.drop_first().len() && s.drop_first()[j] == keep(s.drop_first(), p)[i]
                    && p(s.drop_first()[j]);
            assert(s[j + 1] == u[i] && p(s[j + 1]));
        }
    }
}

} // verus!
