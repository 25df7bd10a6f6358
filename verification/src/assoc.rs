use vstd::prelude::*;
use crate::json::str_equal;

verus! {

/// The value paired with the first occurrence of `k` in the list `s`, if any.
pub open spec fn assoc_get<K, V>(s: Seq<(K, V)>, k: K) -> Option<V>
    decreases s.len(),
{
    if s.len() == 0 {
        None
    } else if s[0].0 == k {
        Some(s[0].1)
    } else {
        assoc_get(s.drop_first(), k)
    }
}

/// The list `s` with `v` paired to `k`: the first pair for `k` is replaced,
/// or, where there is none, a new pair is added at the end.
pub open spec fn assoc_put<K, V>(s: Seq<(K, V)>, k: K, v: V) -> Seq<(K, V)>
    decreases s.len(),
{
    if s.len() == 0 {
        seq![(k, v)]
    } else if s[0].0 == k {
        s.update(0, (k, v))
    } else {
        seq![s[0]] + assoc_put(s.drop_first(), k, v)
    }
}

/// The list that pairing each element of `s` in turn gives, starting from
/// the empty list.
pub open spec fn assoc_from<K, V>(s: Seq<(K, V)>) -> Seq<(K, V)>
    decreases s.len(),
{
    if s.len() == 0 {
        Seq::empty()
    } else {
        assoc_put(assoc_from(s.drop_last()), s.last().0, s.last().1)
    }
}

/// Where no pair before `i` has the key `k`, the lookup may start at `i`.
pub proof fn lemma_assoc_get_skip<K, V>(s: Seq<(K, V)>, k: K, i: int)
    requires
        0 <= i <= s.len(),
        forall|j: int| 0 <= j < i ==> #[trigger] s[j].0 != k,
    ensures
        assoc_get(s, k) == assoc_get(s.skip(i), k),
    decreases i,
{
    if i == 0 {
        assert(s.skip(0) =~= s);
    } else {
        let t = s.drop_first();
        assert forall|j: int| 0 <= j < i - 1 implies #[trigger] t[j].0 != k by {
            assert(t[j] == s[j + 1]);
        }
        lemma_assoc_get_skip(t, k, i - 1);
        assert(t.skip(i - 1) =~= s.skip(i));
    }
}

/// Where the first pair for `k` stands at `i`, the lookup gives its value.
pub proof fn lemma_assoc_get_at<K, V>(s: Seq<(K, V)>, k: K, i: int)
    requires
        0 <= i < s.len(),
        s[i].0 == k,
        forall|j: int| 0 <= j < i ==> #[trigger] s[j].0 != k,
    ensures
        assoc_get(s, k) == Some(s[i].1),
{
    lemma_assoc_get_skip(s, k, i);
    assert(s.skip(i)[0] == s[i]);
}

/// Where no pair has the key `k`, the lookup gives nothing.
pub proof fn lemma_assoc_get_none<K, V>(s: Seq<(K, V)>, k: K)
    requires
        forall|j: int| 0 <= j < s.len() ==> #[trigger] s[j].0 != k,
    ensures
        assoc_get(s, k) is None,
{
    lemma_assoc_get_skip(s, k, s.len() as int);
}

/// Where the first pair for `k` stands at `i`, pairing replaces it.
pub proof fn lemma_assoc_put_at<K, V>(s: Seq<(K, V)>, k: K, v: V, i: int)
    requires
        0 <= i < s.len(),
        s[i].0 == k,
        forall|j: int| 0 <= j < i ==> #[trigger] s[j].0 != k,
    ensures
        assoc_put(s, k, v) == s.update(i, (k, v)),
    decreases i,
{
    if i == 0 {
    } else {
        let t = s.drop_first();
        assert forall|j: int| 0 <= j < i - 1 implies #[trigger] t[j].0 != k by {
            assert(t[j] == s[j + 1]);
        }
        lemma_assoc_put_at(t, k, v, i - 1);
        assert(assoc_put(s, k, v) =~= s.update(i, (k, v)));
    }
}

/// Where no pair has the key `k`, pairing adds one at the end.
pub proof fn lemma_assoc_put_end<K, V>(s: Seq<(K, V)>, k: K, v: V)
    requires
        forall|j: int| 0 <= j < s.len() ==> #[trigger] s[j].0 != k,
    ensures
        assoc_put(s, k, v) == s.push((k, v)),
    decreases s.len(),
{
    if s.len() > 0 {
        let t = s.drop_first();
        assert forall|j: int| 0 <= j < t.len() implies #[trigger] t[j].0 != k by {
            assert(t[j] == s[j + 1]);
        }
        lemma_assoc_put_end(t, k, v);
        assert(assoc_put(s, k, v) =~= s.push((k, v)));
    }
}

/// A lookup after pairing `v` to `k` gives `v` for `k` and what it gave
/// before for every other key.
pub proof fn lemma_assoc_get_put<K, V>(s: Seq<(K, V)>, k: K, v: V, x: K)
    ensures
        assoc_get(assoc_put(s, k, v), x) == (if x == k {
            Some(v)
        } else {
            assoc_get(s, x)
        }),
    decreases s.len(),
{
    let r = assoc_put(s, k, v);
    if s.len() == 0 {
        assert(r.len() == 1 && r[0] == (k, v));
        assert(r.drop_first() =~= Seq::<(K, V)>::empty());
        if x != k {
            assert(assoc_get(r, x) == assoc_get(r.drop_first(), x));
        }
    } else if s[0].0 == k {
        assert(r.len() == s.len() && r[0] == (k, v));
        assert(r.drop_first() =~= s.drop_first());
        if x != k {
            assert(assoc_get(r, x) == assoc_get(r.drop_first(), x));
        }
    } else {
        assert(r.len() > 0 && r[0] == s[0]);
        assert(r.drop_first() =~= assoc_put(s.drop_first(), k, v));
        lemma_assoc_get_put(s.drop_first(), k, v, x);
    }
}

/// A lookup in a list with a pair added at its end gives what it gave
/// before, or the added value where the key was not there before.
pub proof fn lemma_assoc_get_push<K, V>(s: Seq<(K, V)>, x: (K, V), k: K)
    ensures
        assoc_get(s.push(x), k) == (if assoc_get(s, k) is Some {
            assoc_get(s, k)
        } else if x.0 == k {
            Some(x.1)
        } else {
            None
        }),
    decreases s.len(),
{
    let t = s.push(x);
    if s.len() == 0 {
        assert(t.len() == 1 && t[0] == x);
        assert(t.drop_first() =~= Seq::<(K, V)>::empty());
        assert(assoc_get(s, k) is None);
        if x.0 != k {
            assert(assoc_get(t, k) == assoc_get(t.drop_first(), k));
        }
    } else {
        assert(t.len() > 0 && t[0] == s[0]);
        assert(t.drop_first() =~= s.drop_first().push(x));
        lemma_assoc_get_push(s.drop_first(), x, k);
        if s[0].0 != k {
            assert(assoc_get(t, k) == assoc_get(t.drop_first(), k));
            assert(assoc_get(s, k) == assoc_get(s.drop_first(), k));
        }
    }
}

/// Where no pair has the key `k`, the lookup gives nothing, and the other
/// way round.
pub proof fn lemma_assoc_get_some<K, V>(s: Seq<(K, V)>, k: K)
    ensures
        assoc_get(s, k) is Some <==> exists|i: int| 0 <= i < s.len() && #[trigger] s[i].0 == k,
    decreases s.len(),
{
    if s.len() > 0 {
        lemma_assoc_get_some(s.drop_first(), k);
        if s[0].0 != k {
            if exists|i: int| 0 <= i < s.len() && #[trigger] s[i].0 == k {
                let i = choose|i: int| 0 <= i < s.len() && #[trigger] s[i].0 == k;
                assert(s.drop_first()[i - 1].0 == k);
            }
            if assoc_get(s.drop_first(), k) is Some {
                let i = choose|i: int| 0 <= i < s.drop_first().len() && #[trigger] s.drop_first()[i].0 == k;
                assert(s[i + 1].0 == k);
            }
        }
    }
}

/// A value that the lookup gives stands in the list, paired to its key.
pub proof fn lemma_assoc_get_elem<K, V>(s: Seq<(K, V)>, k: K)
    requires
        assoc_get(s, k) is Some,
    ensures
        exists|i: int| 0 <= i < s.len() && #[trigger] s[i] == (k, assoc_get(s, k).unwrap()),
    decreases s.len(),
{
    if s[0].0 == k {
        assert(s[0] == (k, assoc_get(s, k).unwrap()));
    } else {
        let t = s.drop_first();
        lemma_assoc_get_elem(t, k);
        let i = choose|i: int| 0 <= i < t.len() && #[trigger] t[i] == (k, assoc_get(t, k).unwrap());
        assert(s[i + 1] == t[i]);
    }
}

/// Each pair after pairing `v` to `k` is `(k, v)` or a pair of the list
/// before.
pub proof fn lemma_assoc_put_elems<K, V>(s: Seq<(K, V)>, k: K, v: V, i: int)
    requires
        0 <= i < assoc_put(s, k, v).len(),
    ensures
        assoc_put(s, k, v)[i] == (k, v) || exists|j: int| 0 <= j < s.len() && s[j] == assoc_put(s, k, v)[i],
    decreases s.len(),
{
    let r = assoc_put(s, k, v);
    if s.len() == 0 {
    } else if s[0].0 == k {
        if i > 0 {
            assert(r[i] == s[i]);
        }
    } else {
        if i == 0 {
            assert(r[0] == s[0]);
        } else {
            let t = s.drop_first();
            lemma_assoc_put_elems(t, k, v, i - 1);
            assert(r[i] == assoc_put(t, k, v)[i - 1]);
            if r[i] != (k, v) {
                let j = choose|j: int| 0 <= j < t.len() && t[j] == assoc_put(t, k, v)[i - 1];
                assert(s[j + 1] == r[i]);
            }
        }
    }
}

} // verus!

verus! {

/// The list `s` of named items, each name and item taken by its view.
pub open spec fn named_view<V: View>(s: Seq<(String, V)>) -> Seq<(Seq<char>, V::V)> {
    s.map_values(|e: (String, V)| (e.0@, e.1@))
}

/// The position of the first item named `name` in `s`, if any.
pub fn find_named<V: View>(s: &Vec<(String, V)>, name: &str) -> (r: Option<usize>)
    ensures
        match r {
            Some(i) => i < s@.len() && named_view(s@)[i as int].0 == name@ && forall|j: int|
                0 <= j < i ==> #[trigger] named_view(s@)[j].0 != name@,
            None => forall|j: int| 0 <= j < s@.len() ==> #[trigger] named_view(s@)[j].0 != name@,
        },
        match r {
            Some(i) => assoc_get(named_view(s@), name@) == Some(named_view(s@)[i as int].1),
            None => assoc_get(named_view(s@), name@) is None,
        },
{
    let n = s.len();
    let mut i: usize = 0;
    while i < n
        invariant
            n == s@.len(),
            i <= n,
            forall|j: int| 0 <= j < i ==> #[trigger] named_view(s@)[j].0 != name@,
        decreases n - i,
    {
        if str_equal(s[i].0.as_str(), name) {
            proof {
                lemma_assoc_get_at(named_view(s@), name@, i as int);
            }
            return Some(i);
        }
        i = i + 1;
    }
    proof {
        lemma_assoc_get_none(named_view(s@), name@);
    }
    None
}

/// Pairs `item` to `name` in `s`, as `assoc_put` says.
pub fn put_named<V: View>(s: &mut Vec<(String, V)>, name: String, item: V)
    ensures
        named_view(final(s)@) == assoc_put(named_view(old(s)@), name@, item@),
{
    let ghost nv = name@;
    let ghost iv = item@;
    match find_named(s, name.as_str()) {
        Some(i) => {
            proof {
                lemma_assoc_put_at(named_view(s@), nv, iv, i as int);
            }
            s.set(i, (name, item));
            assert(named_view(s@) =~= named_view(old(s)@).update(i as int, (nv, iv)));
        },
        None => {
            proof {
                lemma_assoc_put_end(named_view(s@), nv, iv);
            }
            s.push((name, item));
            assert(named_view(s@) =~= named_view(old(s)@).push((nv, iv)));
        },
    }
}

/// The named items of `list`, each name once, as `assoc_from` says.
pub fn collect_named<V: View>(list: Vec<(String, V)>) -> (r: Vec<(String, V)>)
    ensures
        named_view(r@) == assoc_from(named_view(list@)),
{
    let ghost orig = named_view(list@);
    let mut list = list;
    let mut out: Vec<(String, V)> = Vec::new();
    let ghost mut k: int = 0;
    assert(orig.take(0) =~= Seq::<(Seq<char>, V::V)>::empty());
    assert(named_view(out@) =~= Seq::<(Seq<char>, V::V)>::empty());
    assert(orig.skip(0) =~= orig);
    while list.len() > 0
        invariant
            0 <= k <= orig.len(),
            named_view(out@) == assoc_from(orig.take(k)),
            named_view(list@) == orig.skip(k),
        decreases list@.len(),
    {
        let ghost before = list@;
        let (name, item) = list.remove(0);
        proof {
            assert(named_view(before).len() == before.len());
            assert(k < orig.len());
            assert(named_view(before)[0] == (before[0].0@, before[0].1@));
            assert(named_view(before)[0] == orig.skip(k)[0]);
            assert(orig[k] == (name@, item@));
        }
        put_named(&mut out, name, item);
        proof {
            assert(orig.take(k + 1).drop_last() =~= orig.take(k));
            assert forall|j: int| 0 <= j < list@.len() implies named_view(list@)[j] == orig.skip(k + 1)[j] by {
                assert(list@[j] == before[j + 1]);
                assert(named_view(before)[j + 1] == orig.skip(k)[j + 1]);
            }
            assert(named_view(list@) =~= orig.skip(k + 1));
            k = k + 1;
        }
    }
    assert(named_view(list@).len() == list@.len());
    assert(orig.take(k) =~= orig);
    out
}

} // verus!
