use crate::bytes::{
    bytes_lt, lemma_bytes_lt_asymmetric, lemma_bytes_lt_irreflexive, lemma_bytes_lt_total,
    lemma_bytes_lt_transitive,
};
use vstd::prelude::*;

verus! {

/// The keys of `s` grow strictly from each entry to the next.
pub open spec fn keys_increasing<T>(s: Seq<(Seq<u8>, T)>) -> bool {
    forall|i: int, j: int|
        #![trigger s[i], s[j]]
        0 <= i < j < s.len() ==> bytes_lt(s[i].0, s[j].0)
}

/// No key of `s` occurs in two entries.
pub open spec fn keys_unique<T>(s: Seq<(Seq<u8>, T)>) -> bool {
    forall|i: int, j: int|
        #![trigger s[i], s[j]]
        0 <= i < j < s.len() ==> s[i].0 != s[j].0
}

/// Some entry of `s` has the key `k`.
pub open spec fn has_key<T>(s: Seq<(Seq<u8>, T)>, k: Seq<u8>) -> bool {
    exists|i: int| 0 <= i < s.len() && (#[trigger] s[i]).0 == k
}

/// What the last entry with key `k` holds, if there is one.
pub open spec fn last_value<T>(s: Seq<(Seq<u8>, T)>, k: Seq<u8>) -> Option<T>
    decreases s.len(),
{
    if s.len() == 0 {
        None
    } else if s.last().0 == k {
        Some(s.last().1)
    } else {
        last_value(s.drop_last(), k)
    }
}

/// What the first entry with key `k` holds, if there is one.
pub open spec fn first_value<T>(s: Seq<(Seq<u8>, T)>, k: Seq<u8>) -> Option<T>
    decreases s.len(),
{
    if s.len() == 0 {
        None
    } else if s[0].0 == k {
        Some(s[0].1)
    } else {
        first_value(s.skip(1), k)
    }
}

/// Puts `(k, t)` into a sequence ordered by key: in place of the entry
/// with that key if there is one, else where the order asks for it.
pub open spec fn sorted_upsert<T>(s: Seq<(Seq<u8>, T)>, k: Seq<u8>, t: T) -> Seq<(Seq<u8>, T)>
    decreases s.len(),
{
    if s.len() == 0 {
        seq![(k, t)]
    } else if bytes_lt(k, s.last().0) {
        sorted_upsert(s.drop_last(), k, t).push(s.last())
    } else if s.last().0 == k {
        s.drop_last().push((k, t))
    } else {
        s.push((k, t))
    }
}

/// The entries of `s` ordered by key; of several entries with one key the
/// last one stays. Written as an insertion of one entry after the other;
/// `lemma_sort_by_key_characterized` says what that comes to.
pub open spec fn sort_by_key<T>(s: Seq<(Seq<u8>, T)>) -> Seq<(Seq<u8>, T)>
    decreases s.len(),
{
    if s.len() == 0 {
        Seq::empty()
    } else {
        sorted_upsert(sort_by_key(s.drop_last()), s.last().0, s.last().1)
    }
}

/// Puts `(k, t)` into a sequence in arrival order: in place of the entry
/// with that key if there is one, else at the end.
pub open spec fn assoc_upsert<T>(s: Seq<(Seq<u8>, T)>, k: Seq<u8>, t: T) -> Seq<(Seq<u8>, T)> {
    if has_key(s, k) {
        let i = choose|i: int| 0 <= i < s.len() && (#[trigger] s[i]).0 == k;
        s.update(i, (k, t))
    } else {
        s.push((k, t))
    }
}

/// The entries of `s` in arrival order of their keys, each key once, with
/// what its last entry holds.
pub open spec fn dedup<T>(s: Seq<(Seq<u8>, T)>) -> Seq<(Seq<u8>, T)>
    decreases s.len(),
{
    if s.len() == 0 {
        Seq::empty()
    } else {
        assoc_upsert(dedup(s.drop_last()), s.last().0, s.last().1)
    }
}

pub proof fn lemma_increasing_is_unique<T>(s: Seq<(Seq<u8>, T)>)
    requires
        keys_increasing(s),
    ensures
        keys_unique(s),
{
    assert forall|i: int, j: int| #![trigger s[i], s[j]] 0 <= i < j < s.len() implies s[i].0
        != s[j].0 by {
        lemma_bytes_lt_asymmetric(s[i].0, s[j].0);
    }
}

/// What `sorted_upsert` makes of an ordered sequence: an ordered sequence
/// that holds `t` under `k` and everything else as before.
pub proof fn lemma_sorted_upsert<T>(s: Seq<(Seq<u8>, T)>, k: Seq<u8>, t: T)
    requires
        keys_increasing(s),
    ensures
        keys_increasing(sorted_upsert(s, k, t)),
        sorted_upsert(s, k, t).len() >= 1,
        sorted_upsert(s, k, t).last().0 == (if s.len() > 0 && bytes_lt(k, s.last().0) {
            s.last().0
        } else {
            k
        }),
        forall|q: Seq<u8>| #[trigger]
            last_value(sorted_upsert(s, k, t), q) == (if q == k {
                Some(t)
            } else {
                last_value(s, q)
            }),
    decreases s.len(),
{
    let r = sorted_upsert(s, k, t);
    if s.len() == 0 {
        assert(r.drop_last() =~= Seq::<(Seq<u8>, T)>::empty());
        assert forall|q: Seq<u8>| #[trigger]
            last_value(r, q) == (if q == k {
                Some(t)
            } else {
                last_value(s, q)
            }) by {
            assert(last_value(r.drop_last(), q) == None::<T>);
        }
    } else {
        let head = s.drop_last();
        let top = s.last();
        assert(keys_increasing(head)) by {
            assert forall|i: int, j: int| #![trigger head[i], head[j]] 0 <= i < j < head.len()
                implies bytes_lt(head[i].0, head[j].0) by {
                assert(head[i] == s[i] && head[j] == s[j]);
            }
        }
        if bytes_lt(k, top.0) {
            lemma_sorted_upsert(head, k, t);
            let inner = sorted_upsert(head, k, t);
            lemma_bytes_lt_asymmetric(k, top.0);
            assert(bytes_lt(inner.last().0, top.0)) by {
                if head.len() > 0 && bytes_lt(k, head.last().0) {
                    assert(head.last() == s[head.len() - 1]);
                    assert(top == s[s.len() - 1]);
                }
            }
            assert forall|i: int, j: int| #![trigger r[i], r[j]] 0 <= i < j < r.len() implies bytes_lt(
                r[i].0,
                r[j].0,
            ) by {
                if j < inner.len() {
                    assert(r[i] == inner[i] && r[j] == inner[j]);
                } else {
                    assert(r[i] == inner[i]);
                    if i < inner.len() - 1 {
                        assert(bytes_lt(inner[i].0, inner[inner.len() - 1].0));
                        lemma_bytes_lt_transitive(inner[i].0, inner.last().0, top.0);
                    }
                }
            }
            assert(r.drop_last() =~= inner);
            assert(r.last() == top);
            assert forall|q: Seq<u8>| #[trigger]
                last_value(r, q) == (if q == k {
                    Some(t)
                } else {
                    last_value(s, q)
                }) by {
                if top.0 != q {
                    assert(last_value(r, q) == last_value(inner, q));
                }
            }
        } else if top.0 == k {
            assert(r.drop_last() =~= head);
            assert(r.last() == (k, t));
            assert forall|q: Seq<u8>| #[trigger]
                last_value(r, q) == (if q == k {
                    Some(t)
                } else {
                    last_value(s, q)
                }) by {
                if q != k {
                    assert(last_value(r, q) == last_value(head, q));
                }
            }
            assert forall|i: int, j: int| #![trigger r[i], r[j]] 0 <= i < j < r.len() implies bytes_lt(
                r[i].0,
                r[j].0,
            ) by {
                assert(r[i] == s[i]);
                if j < head.len() {
                    assert(r[j] == s[j]);
                } else {
                    assert(s[j].0 == k);
                }
            }
        } else {
            lemma_bytes_lt_total(k, top.0);
            assert(r.drop_last() =~= s);
            assert(r.last() == (k, t));
            assert forall|q: Seq<u8>| #[trigger]
                last_value(r, q) == (if q == k {
                    Some(t)
                } else {
                    last_value(s, q)
                }) by {
                if q != k {
                    assert(last_value(r, q) == last_value(s, q));
                }
            }
            assert forall|i: int, j: int| #![trigger r[i], r[j]] 0 <= i < j < r.len() implies bytes_lt(
                r[i].0,
                r[j].0,
            ) by {
                assert(r[i] == s[i]);
                if j < s.len() {
                    assert(r[j] == s[j]);
                } else if i < s.len() - 1 {
                    assert(bytes_lt(s[i].0, s[s.len() - 1].0));
                    lemma_bytes_lt_transitive(s[i].0, top.0, k);
                }
            }
        }
    }
}

/// Where `sorted_upsert` puts a key, told from the entries around the place.
pub proof fn lemma_sorted_upsert_at<T>(s: Seq<(Seq<u8>, T)>, k: Seq<u8>, t: T, p: int)
    requires
        0 <= p <= s.len(),
        forall|j: int| p <= j < s.len() ==> bytes_lt(k, (#[trigger] s[j]).0),
        p > 0 ==> !bytes_lt(k, s[p - 1].0),
    ensures
        sorted_upsert(s, k, t) == (if p > 0 && s[p - 1].0 == k {
            s.update(p - 1, (k, t))
        } else {
            s.insert(p, (k, t))
        }),
    decreases s.len() - p,
{
    if p == s.len() {
        if s.len() == 0 {
            assert(sorted_upsert(s, k, t) =~= s.insert(p, (k, t)));
        } else if s.last().0 == k {
            assert(s.drop_last().push((k, t)) =~= s.update(p - 1, (k, t)));
        } else {
            assert(s.push((k, t)) =~= s.insert(p, (k, t)));
        }
    } else {
        let head = s.drop_last();
        assert(bytes_lt(k, s[s.len() - 1].0));
        assert forall|j: int| p <= j < head.len() implies bytes_lt(k, (#[trigger] head[j]).0) by {
            assert(head[j] == s[j]);
        }
        if p > 0 {
            assert(head[p - 1] == s[p - 1]);
        }
        lemma_sorted_upsert_at(head, k, t, p);
        if p > 0 && s[p - 1].0 == k {
            assert(head.update(p - 1, (k, t)).push(s.last()) =~= s.update(p - 1, (k, t)));
        } else {
            assert(head.insert(p, (k, t)).push(s.last()) =~= s.insert(p, (k, t)));
        }
    }
}

/// `sort_by_key` orders by key and keeps under each key what its last
/// entry held.
pub proof fn lemma_sort_by_key<T>(s: Seq<(Seq<u8>, T)>)
    ensures
        keys_increasing(sort_by_key(s)),
        forall|q: Seq<u8>| #[trigger] last_value(sort_by_key(s), q) == last_value(s, q),
    decreases s.len(),
{
    if s.len() > 0 {
        lemma_sort_by_key(s.drop_last());
        lemma_sorted_upsert(sort_by_key(s.drop_last()), s.last().0, s.last().1);
    }
}

/// Ordering leaves an ordered sequence as it is.
pub proof fn lemma_sort_by_key_of_increasing<T>(s: Seq<(Seq<u8>, T)>)
    requires
        keys_increasing(s),
    ensures
        sort_by_key(s) == s,
    decreases s.len(),
{
    if s.len() > 0 {
        let head = s.drop_last();
        assert(keys_increasing(head)) by {
            assert forall|i: int, j: int| #![trigger head[i], head[j]] 0 <= i < j < head.len()
                implies bytes_lt(head[i].0, head[j].0) by {
                assert(head[i] == s[i] && head[j] == s[j]);
            }
        }
        lemma_sort_by_key_of_increasing(head);
        if head.len() > 0 {
            assert(head.last() == s[head.len() - 1]);
            assert(s.last() == s[s.len() - 1]);
            lemma_bytes_lt_asymmetric(head.last().0, s.last().0);
        }
        assert(head.push(s.last()) =~= s);
    }
}

/// In a sequence without a repeated key, each entry is what `last_value`
/// finds under its key, and `last_value` finds nothing else.
pub proof fn lemma_last_value_unique<T>(s: Seq<(Seq<u8>, T)>, q: Seq<u8>)
    requires
        keys_unique(s),
    ensures
        forall|i: int| 0 <= i < s.len() && (#[trigger] s[i]).0 == q ==> last_value(s, q) == Some(s[i].1),
        !has_key(s, q) ==> last_value(s, q) == None::<T>,
    decreases s.len(),
{
    if s.len() > 0 {
        let head = s.drop_last();
        assert(keys_unique(head)) by {
            assert forall|i: int, j: int| #![trigger head[i], head[j]] 0 <= i < j < head.len()
                implies head[i].0 != head[j].0 by {
                assert(head[i] == s[i] && head[j] == s[j]);
            }
        }
        lemma_last_value_unique(head, q);
        assert forall|i: int| 0 <= i < s.len() && (#[trigger] s[i]).0 == q implies last_value(s, q)
            == Some(s[i].1) by {
            if s.last().0 == q {
                if i < s.len() - 1 {
                    assert(s[i].0 != s[s.len() - 1].0);
                }
            } else {
                assert(head[i] == s[i]);
            }
        }
        if !has_key(s, q) {
            assert(s[s.len() - 1].0 != q);
            if has_key(head, q) {
                let i = choose|i: int| 0 <= i < head.len() && (#[trigger] head[i]).0 == q;
                assert(s[i].0 == q);
            }
        }
    }
}

/// An ordered sequence is determined by what it holds under each key.
pub proof fn lemma_increasing_determined<T>(a: Seq<(Seq<u8>, T)>, b: Seq<(Seq<u8>, T)>)
    requires
        keys_increasing(a),
        keys_increasing(b),
        forall|q: Seq<u8>| last_value(a, q) == last_value(b, q),
    ensures
        a == b,
    decreases a.len(),
{
    lemma_increasing_is_unique(a);
    lemma_increasing_is_unique(b);
    if a.len() == 0 {
        if b.len() > 0 {
            lemma_last_value_unique(b, b[0].0);
            assert(last_value(a, b[0].0) == last_value(b, b[0].0));
        }
        assert(a =~= b);
    } else if b.len() == 0 {
        lemma_last_value_unique(a, a[0].0);
        assert(last_value(a, a[0].0) == last_value(b, a[0].0));
    } else {
        let x = a.last();
        let y = b.last();
        lemma_last_value_unique(a, y.0);
        lemma_last_value_unique(b, y.0);
        lemma_last_value_unique(a, x.0);
        lemma_last_value_unique(b, x.0);
        assert(last_value(a, x.0) == last_value(b, x.0));
        assert(last_value(a, y.0) == last_value(b, y.0));
        assert(a[a.len() - 1] == x && b[b.len() - 1] == y);
        assert(has_key(b, x.0));
        assert(has_key(a, y.0));
        let j = choose|j: int| 0 <= j < b.len() && (#[trigger] b[j]).0 == x.0;
        let i = choose|i: int| 0 <= i < a.len() && (#[trigger] a[i]).0 == y.0;
        if j < b.len() - 1 && i < a.len() - 1 {
            assert(bytes_lt(b[j].0, b[b.len() - 1].0));
            assert(bytes_lt(a[i].0, a[a.len() - 1].0));
            lemma_bytes_lt_asymmetric(x.0, y.0);
        }
        if j < b.len() - 1 {
            assert(i == a.len() - 1);
            assert(bytes_lt(b[j].0, b[b.len() - 1].0));
            lemma_bytes_lt_irreflexive(x.0);
        }
        assert(j == b.len() - 1);
        assert(x == y);
        let ha = a.drop_last();
        let hb = b.drop_last();
        assert(keys_increasing(ha)) by {
            assert forall|i: int, j: int| #![trigger ha[i], ha[j]] 0 <= i < j < ha.len() implies bytes_lt(
                ha[i].0,
                ha[j].0,
            ) by {
                assert(ha[i] == a[i] && ha[j] == a[j]);
            }
        }
        assert(keys_increasing(hb)) by {
            assert forall|i: int, j: int| #![trigger hb[i], hb[j]] 0 <= i < j < hb.len() implies bytes_lt(
                hb[i].0,
                hb[j].0,
            ) by {
                assert(hb[i] == b[i] && hb[j] == b[j]);
            }
        }
        lemma_increasing_is_unique(ha);
        lemma_increasing_is_unique(hb);
        assert forall|q: Seq<u8>| last_value(ha, q) == last_value(hb, q) by {
            if q == x.0 {
                lemma_last_value_unique(ha, q);
                lemma_last_value_unique(hb, q);
                if has_key(ha, q) {
                    let m = choose|m: int| 0 <= m < ha.len() && (#[trigger] ha[m]).0 == q;
                    assert(a[m].0 == q);
                    assert(a[m].0 != a[a.len() - 1].0);
                }
                if has_key(hb, q) {
                    let m = choose|m: int| 0 <= m < hb.len() && (#[trigger] hb[m]).0 == q;
                    assert(b[m].0 == q);
                    assert(b[m].0 != b[b.len() - 1].0);
                }
            } else {
                assert(last_value(a, q) == last_value(b, q));
            }
        }
        lemma_increasing_determined(ha, hb);
        assert(a =~= ha.push(x));
        assert(b =~= hb.push(y));
    }
}

/// `sort_by_key` is told by what it promises: the one sequence with
/// strictly increasing keys that holds under each key what the last entry
/// of `s` with that key holds.
pub proof fn lemma_sort_by_key_characterized<T>(s: Seq<(Seq<u8>, T)>, r: Seq<(Seq<u8>, T)>)
    requires
        keys_increasing(r),
        forall|q: Seq<u8>| last_value(r, q) == last_value(s, q),
    ensures
        r == sort_by_key(s),
{
    lemma_sort_by_key(s);
    assert forall|q: Seq<u8>| last_value(r, q) == last_value(sort_by_key(s), q) by {
        assert(last_value(r, q) == last_value(s, q));
    }
    lemma_increasing_determined(r, sort_by_key(s));
}

/// `assoc_upsert` keeps keys from repeating.
pub proof fn lemma_assoc_upsert_unique<T>(s: Seq<(Seq<u8>, T)>, k: Seq<u8>, t: T)
    requires
        keys_unique(s),
    ensures
        keys_unique(assoc_upsert(s, k, t)),
        last_value(assoc_upsert(s, k, t), k) == Some(t),
        forall|q: Seq<u8>| q != k ==> #[trigger] last_value(assoc_upsert(s, k, t), q) == last_value(s, q),
{
    let r = assoc_upsert(s, k, t);
    if has_key(s, k) {
        let c = choose|i: int| 0 <= i < s.len() && (#[trigger] s[i]).0 == k;
        assert forall|i: int, j: int| #![trigger r[i], r[j]] 0 <= i < j < r.len() implies r[i].0
            != r[j].0 by {
            assert(r[i].0 == s[i].0 && r[j].0 == s[j].0);
        }
        lemma_last_value_unique(r, k);
        assert(r[c].0 == k);
        assert forall|q: Seq<u8>| q != k implies #[trigger] last_value(r, q) == last_value(s, q) by {
            lemma_last_value_unique(r, q);
            lemma_last_value_unique(s, q);
            if has_key(s, q) {
                let m = choose|m: int| 0 <= m < s.len() && (#[trigger] s[m]).0 == q;
                assert(r[m] == s[m]);
            } else if has_key(r, q) {
                let m = choose|m: int| 0 <= m < r.len() && (#[trigger] r[m]).0 == q;
                assert(s[m].0 == q);
            }
        }
    } else {
        assert(r.drop_last() =~= s);
        assert forall|i: int, j: int| #![trigger r[i], r[j]] 0 <= i < j < r.len() implies r[i].0
            != r[j].0 by {
            assert(r[i] == s[i]);
            if j < s.len() {
                assert(r[j] == s[j]);
            }
        }
    }
}

/// `dedup` leaves no key twice and keeps under each key what its last
/// entry held.
pub proof fn lemma_dedup<T>(s: Seq<(Seq<u8>, T)>)
    ensures
        keys_unique(dedup(s)),
        forall|q: Seq<u8>| #[trigger] last_value(dedup(s), q) == last_value(s, q),
    decreases s.len(),
{
    if s.len() > 0 {
        lemma_dedup(s.drop_last());
        lemma_assoc_upsert_unique(dedup(s.drop_last()), s.last().0, s.last().1);
    }
}

/// `dedup` leaves a sequence without a repeated key as it is.
pub proof fn lemma_dedup_of_unique<T>(s: Seq<(Seq<u8>, T)>)
    requires
        keys_unique(s),
    ensures
        dedup(s) == s,
    decreases s.len(),
{
    if s.len() > 0 {
        let head = s.drop_last();
        assert(keys_unique(head)) by {
            assert forall|i: int, j: int| #![trigger head[i], head[j]] 0 <= i < j < head.len()
                implies head[i].0 != head[j].0 by {
                assert(head[i] == s[i] && head[j] == s[j]);
            }
        }
        lemma_dedup_of_unique(head);
        if has_key(head, s.last().0) {
            let m = choose|m: int| 0 <= m < head.len() && (#[trigger] head[m]).0 == s.last().0;
            assert(s[m].0 == s[s.len() - 1].0);
        }
        assert(head.push(s.last()) =~= s);
    }
}

/// The entries of `s` with `f` applied to what each holds.
pub open spec fn map_payload<A, B>(s: Seq<(Seq<u8>, A)>, f: spec_fn(A) -> B) -> Seq<(Seq<u8>, B)> {
    Seq::new(s.len(), |i: int| (s[i].0, f(s[i].1)))
}

/// `sorted_upsert` looks at keys only: it does to the images under `f`
/// what it does to the entries themselves.
pub proof fn lemma_sorted_upsert_maps<A, B>(s: Seq<(Seq<u8>, A)>, k: Seq<u8>, t: A, f: spec_fn(A) -> B)
    ensures
        sorted_upsert(map_payload(s, f), k, f(t)) == map_payload(sorted_upsert(s, k, t), f),
    decreases s.len(),
{
    let image = map_payload(s, f);
    if s.len() == 0 {
        assert(sorted_upsert(image, k, f(t)) =~= map_payload(sorted_upsert(s, k, t), f));
    } else {
        assert(image.last() == (s.last().0, f(s.last().1)));
        assert(image.drop_last() =~= map_payload(s.drop_last(), f));
        if bytes_lt(k, s.last().0) {
            lemma_sorted_upsert_maps(s.drop_last(), k, t, f);
            assert(sorted_upsert(image, k, f(t)) =~= map_payload(sorted_upsert(s, k, t), f));
        } else if s.last().0 == k {
            assert(sorted_upsert(image, k, f(t)) =~= map_payload(sorted_upsert(s, k, t), f));
        } else {
            assert(sorted_upsert(image, k, f(t)) =~= map_payload(sorted_upsert(s, k, t), f));
        }
    }
}

/// Ordering by key and applying `f` to what the entries hold can be done
/// in either order.
pub proof fn lemma_sort_by_key_maps<A, B>(s: Seq<(Seq<u8>, A)>, f: spec_fn(A) -> B)
    ensures
        sort_by_key(map_payload(s, f)) == map_payload(sort_by_key(s), f),
    decreases s.len(),
{
    let image = map_payload(s, f);
    if s.len() == 0 {
        assert(sort_by_key(image) =~= map_payload(sort_by_key(s), f));
    } else {
        assert(image.last() == (s.last().0, f(s.last().1)));
        assert(image.drop_last() =~= map_payload(s.drop_last(), f));
        lemma_sort_by_key_maps(s.drop_last(), f);
        lemma_sorted_upsert_maps(sort_by_key(s.drop_last()), s.last().0, s.last().1, f);
    }
}

/// `e` is one of the entries of `s`.
pub open spec fn is_entry_of<T>(s: Seq<(Seq<u8>, T)>, e: (Seq<u8>, T)) -> bool {
    exists|j: int| 0 <= j < s.len() && #[trigger] s[j] == e
}

pub proof fn lemma_sorted_upsert_members<T>(s: Seq<(Seq<u8>, T)>, k: Seq<u8>, t: T, i: int)
    requires
        0 <= i < sorted_upsert(s, k, t).len(),
    ensures
        sorted_upsert(s, k, t)[i] == (k, t) || is_entry_of(s, sorted_upsert(s, k, t)[i]),
    decreases s.len(),
{
    let r = sorted_upsert(s, k, t);
    if s.len() == 0 {
    } else if bytes_lt(k, s.last().0) {
        let inner = sorted_upsert(s.drop_last(), k, t);
        if i < inner.len() {
            lemma_sorted_upsert_members(s.drop_last(), k, t, i);
            if inner[i] != (k, t) {
                let j = choose|j: int| 0 <= j < s.drop_last().len() && #[trigger] s.drop_last()[j] == inner[i];
                assert(s[j] == r[i]);
            }
        } else {
            assert(s[s.len() - 1] == r[i]);
        }
    } else if s.last().0 == k {
        if i < s.len() - 1 {
            assert(s[i] == r[i]);
        }
    } else {
        if i < s.len() {
            assert(s[i] == r[i]);
        }
    }
}

/// Ordering invents no entry: what it gives was there before.
pub proof fn lemma_sort_by_key_members<T>(s: Seq<(Seq<u8>, T)>, i: int)
    requires
        0 <= i < sort_by_key(s).len(),
    ensures
        is_entry_of(s, sort_by_key(s)[i]),
    decreases s.len(),
{
    if s.len() > 0 {
        let head = sort_by_key(s.drop_last());
        let e = sort_by_key(s)[i];
        lemma_sorted_upsert_members(head, s.last().0, s.last().1, i);
        if e == s.last() {
            assert(s[s.len() - 1] == e);
        } else {
            let j = choose|j: int| 0 <= j < head.len() && #[trigger] head[j] == e;
            lemma_sort_by_key_members(s.drop_last(), j);
            let m = choose|m: int| 0 <= m < s.drop_last().len() && #[trigger] s.drop_last()[m] == e;
            assert(s[m] == e);
        }
    }
}

/// `last_value` finds something under exactly the keys that occur.
pub proof fn lemma_last_value_has_key<T>(s: Seq<(Seq<u8>, T)>, q: Seq<u8>)
    ensures
        last_value(s, q) is Some <==> has_key(s, q),
        last_value(s, q) matches Some(t) ==> is_entry_of(s, (q, t)),
    decreases s.len(),
{
    if s.len() > 0 {
        let head = s.drop_last();
        lemma_last_value_has_key(head, q);
        if s.last().0 == q {
            assert(s[s.len() - 1].0 == q);
            assert(s[s.len() - 1] == (q, s.last().1));
        } else {
            if has_key(head, q) {
                let i = choose|i: int| 0 <= i < head.len() && (#[trigger] head[i]).0 == q;
                assert(s[i].0 == q);
            }
            if has_key(s, q) {
                let i = choose|i: int| 0 <= i < s.len() && (#[trigger] s[i]).0 == q;
                assert(head[i].0 == q);
            }
            if let Some(t) = last_value(s, q) {
                let j = choose|j: int| 0 <= j < head.len() && #[trigger] head[j] == (q, t);
                assert(s[j] == (q, t));
            }
        }
    }
}

/// What `last_value` finds among the images under `f` is the image of
/// what it finds among the entries.
pub proof fn lemma_last_value_maps<A, B>(s: Seq<(Seq<u8>, A)>, f: spec_fn(A) -> B, q: Seq<u8>)
    ensures
        last_value(map_payload(s, f), q) == (match last_value(s, q) {
            Some(t) => Some(f(t)),
            None => None,
        }),
    decreases s.len(),
{
    let image = map_payload(s, f);
    if s.len() > 0 {
        assert(image.last() == (s.last().0, f(s.last().1)));
        assert(image.drop_last() =~= map_payload(s.drop_last(), f));
        lemma_last_value_maps(s.drop_last(), f, q);
    }
}

/// Ordering a sequence without a repeated key keeps its length.
pub proof fn lemma_sort_by_key_len<T>(s: Seq<(Seq<u8>, T)>)
    requires
        keys_unique(s),
    ensures
        sort_by_key(s).len() == s.len(),
    decreases s.len(),
{
    if s.len() > 0 {
        let head = s.drop_last();
        let k = s.last().0;
        assert(keys_unique(head)) by {
            assert forall|i: int, j: int| #![trigger head[i], head[j]] 0 <= i < j < head.len()
                implies head[i].0 != head[j].0 by {
                assert(head[i] == s[i] && head[j] == s[j]);
            }
        }
        lemma_sort_by_key_len(head);
        let sorted = sort_by_key(head);
        lemma_sort_by_key(head);
        lemma_last_value_has_key(sorted, k);
        lemma_last_value_has_key(head, k);
        assert(last_value(sorted, k) == last_value(head, k));
        if has_key(head, k) {
            let i = choose|i: int| 0 <= i < head.len() && (#[trigger] head[i]).0 == k;
            assert(s[i].0 != s[s.len() - 1].0);
        }
        lemma_sorted_upsert_len(sorted, k, s.last().1);
    }
}

pub proof fn lemma_sorted_upsert_len<T>(s: Seq<(Seq<u8>, T)>, k: Seq<u8>, t: T)
    requires
        !has_key(s, k),
    ensures
        sorted_upsert(s, k, t).len() == s.len() + 1,
    decreases s.len(),
{
    if s.len() > 0 {
        assert(s[s.len() - 1].0 != k);
        if bytes_lt(k, s.last().0) {
            let head = s.drop_last();
            if has_key(head, k) {
                let i = choose|i: int| 0 <= i < head.len() && (#[trigger] head[i]).0 == k;
                assert(s[i].0 == k);
            }
            lemma_sorted_upsert_len(head, k, t);
        }
    }
}

/// `dedup` invents no entry: what it gives was there before.
pub proof fn lemma_dedup_members<T>(s: Seq<(Seq<u8>, T)>, i: int)
    requires
        0 <= i < dedup(s).len(),
    ensures
        is_entry_of(s, dedup(s)[i]),
    decreases s.len(),
{
    if s.len() > 0 {
        let head = dedup(s.drop_last());
        let e = dedup(s)[i];
        if e == s.last() {
            assert(s[s.len() - 1] == e);
        } else {
            if has_key(head, s.last().0) {
                let c = choose|c: int| 0 <= c < head.len() && (#[trigger] head[c]).0 == s.last().0;
                assert(head.update(c, s.last())[i] == e);
            }
            assert(head[i] == e);
            lemma_dedup_members(s.drop_last(), i);
            let m = choose|m: int| 0 <= m < s.drop_last().len() && #[trigger] s.drop_last()[m] == e;
            assert(s[m] == e);
        }
    }
}

} // verus!
