use vstd::prelude::*;
use vstd::multiset::Multiset;
use vstd::relations::total_ordering;
use vstd::seq_lib::{to_multiset_build, to_multiset_insert, to_multiset_len, to_multiset_contains, to_multiset_remove};
use crate::assoc::{assoc_get, assoc_put, lemma_assoc_get_elem, lemma_assoc_get_at, lemma_assoc_get_put, lemma_assoc_put_elems, lemma_assoc_get_none, lemma_assoc_put_at, lemma_assoc_put_end};
use crate::database::row::{pk_of, Row};
use crate::json::{Json, JsonV};

verus! {

/// The primary keys `t` are in ascending order, or in descending order
/// where `desc` holds.
pub open spec fn pks_in_order(t: Seq<u64>, desc: bool) -> bool {
    forall|i: int, j: int|
        0 <= i < j < t.len() ==> (if desc {
            t[i] >= t[j]
        } else {
            t[i] <= t[j]
        })
}

/// The primary keys `s`, each as often as in `s`, in ascending order, or
/// in descending order where `desc` holds.
pub open spec fn sorted_pks(s: Seq<u64>, desc: bool) -> Seq<u64> {
    choose|t: Seq<u64>| pks_in_order(t, desc) && t.to_multiset() == s.to_multiset()
}

/// Two lists in the same order that hold the same keys equally often are
/// the same list.
pub proof fn lemma_sorted_unique(a: Seq<u64>, b: Seq<u64>, desc: bool)
    requires
        pks_in_order(a, desc),
        pks_in_order(b, desc),
        a.to_multiset() == b.to_multiset(),
    ensures
        a == b,
    decreases a.len(),
{
    broadcast use to_multiset_len, to_multiset_contains, to_multiset_remove;

    assert(a.len() == a.to_multiset().len());
    assert(b.len() == b.to_multiset().len());
    if a.len() > 0 {
        assert(a.to_multiset().count(a[0]) > 0);
        assert(b.contains(a[0]));
        let j = choose|j: int| 0 <= j < b.len() && b[j] == a[0];
        assert(b.to_multiset().count(b[0]) > 0);
        assert(a.contains(b[0]));
        let k = choose|k: int| 0 <= k < a.len() && a[k] == b[0];
        if j > 0 {
            assert(if desc { b[0] >= b[j] } else { b[0] <= b[j] });
        }
        if k > 0 {
            assert(if desc { a[0] >= a[k] } else { a[0] <= a[k] });
        }
        assert(a[0] == b[0]);
        assert(a.remove(0) =~= a.drop_first());
        assert(b.remove(0) =~= b.drop_first());
        assert(a.remove(0).to_multiset() == a.to_multiset().remove(a[0]));
        assert(b.remove(0).to_multiset() == b.to_multiset().remove(b[0]));
        lemma_sorted_unique(a.drop_first(), b.drop_first(), desc);
        assert forall|i: int| 0 <= i < a.len() implies a[i] == b[i] by {
            if i > 0 {
                assert(a[i] == a.drop_first()[i - 1]);
                assert(b[i] == b.drop_first()[i - 1]);
            }
        }
        assert(a =~= b);
    } else {
        assert(b.len() == 0);
        assert(a =~= b);
    }
}

/// `sorted_pks` is a list in the order asked for that holds the given keys
/// equally often.
pub proof fn lemma_sorted_pks(s: Seq<u64>, desc: bool)
    ensures
        pks_in_order(sorted_pks(s, desc), desc),
        sorted_pks(s, desc).to_multiset() == s.to_multiset(),
{
    if desc {
        let leq = |a: u64, b: u64| a >= b;
        assert(total_ordering(leq));
        s.lemma_sort_by_ensures(leq);
        let t = s.sort_by(leq);
        assert(pks_in_order(t, desc)) by {
            assert forall|i: int, j: int| 0 <= i < j < t.len() implies t[i] >= t[j] by {
                assert(leq(t[i], t[j]));
            }
        }
    } else {
        let leq = |a: u64, b: u64| a <= b;
        assert(total_ordering(leq));
        s.lemma_sort_by_ensures(leq);
        let t = s.sort_by(leq);
        assert(pks_in_order(t, desc)) by {
            assert forall|i: int, j: int| 0 <= i < j < t.len() implies t[i] <= t[j] by {
                assert(leq(t[i], t[j]));
            }
        }
    }
}

/// Whether `a` may stand before `b` in a list in the order that `desc` names.
fn in_order(a: u64, b: u64, desc: bool) -> (r: bool)
    ensures
        r == (if desc {
            a >= b
        } else {
            a <= b
        }),
{
    if desc {
        a >= b
    } else {
        a <= b
    }
}

/// The primary keys of `v`, sorted as `sorted_pks` says.
pub fn sort_pks(v: &Vec<u64>, desc: bool) -> (r: Vec<u64>)
    ensures
        r@ == sorted_pks(v@, desc),
{
    broadcast use to_multiset_build, to_multiset_insert;

    let n = v.len();
    let mut r: Vec<u64> = Vec::new();
    let mut i: usize = 0;
    assert(v@.take(0) =~= Seq::<u64>::empty());
    while i < n
        invariant
            n == v@.len(),
            i <= n,
            pks_in_order(r@, desc),
            r@.to_multiset() == v@.take(i as int).to_multiset(),
        decreases n - i,
    {
        let x = v[i];
        let m = r.len();
        let mut p: usize = 0;
        while p < m && in_order(r[p], x, desc)
            invariant
                m == r@.len(),
                p <= m,
                forall|j: int| 0 <= j < p ==> (if desc { r@[j] >= x } else { r@[j] <= x }),
            decreases m - p,
        {
            p = p + 1;
        }
        let ghost before = r@;
        r.insert(p, x);
        assert forall|a: int, b: int| 0 <= a < b < r@.len() implies (if desc {
            r@[a] >= r@[b]
        } else {
            r@[a] <= r@[b]
        }) by {
            if a < p as int && b == p as int {
            } else if a == p as int {
                assert(r@[b] == before[b - 1]);
                assert(if desc { before[p as int] < x } else { before[p as int] > x });
                if b - 1 > p as int {
                    assert(if desc { before[p as int] >= before[b - 1] } else { before[p as int] <= before[b - 1] });
                }
            } else if a < p as int && b > p as int {
                assert(r@[b] == before[b - 1]);
            } else if b < p as int {
            } else {
                assert(r@[a] == before[a - 1]);
                assert(r@[b] == before[b - 1]);
            }
        }
        assert(r@ == before.insert(p as int, x));
        proof {
            to_multiset_insert(before, p as int, x);
            to_multiset_build(v@.take(i as int), x);
        }
        assert(v@.take(i + 1) =~= v@.take(i as int).push(x));
        assert(v@.take(i as int).push(x).to_multiset() == v@.take(i as int).to_multiset().insert(x));
        i = i + 1;
    }
    assert(v@.take(n as int) =~= v@);
    proof {
        let t = sorted_pks(v@, desc);
        assert(pks_in_order(t, desc) && t.to_multiset() == v@.to_multiset());
        lemma_sorted_unique(r@, t, desc);
    }
    r
}

/// The mathematical value of an index.
pub struct IndexV {
    pub desc_sort: bool,
    pub key: Seq<char>,
    pub unique: bool,
    pub rows: Seq<(JsonV, Seq<u64>)>,
}

/// The index `idx` after it took in primary key `pk` for value `value`,
/// or nothing where a unique index already holds `value`.
pub open spec fn index_insert(idx: IndexV, value: JsonV, pk: u64) -> Option<IndexV> {
    match assoc_get(idx.rows, value) {
        None => Some(IndexV { rows: assoc_put(idx.rows, value, seq![pk]), ..idx }),
        Some(pks) => if idx.unique {
            None
        } else {
            Some(
                IndexV {
                    rows: assoc_put(idx.rows, value, sorted_pks(pks.push(pk), idx.desc_sort)),
                    ..idx
                },
            )
        },
    }
}

/// Every list that the index records is non-empty and in its order, and a
/// unique index records one key per value.
pub open spec fn index_well_kept(idx: IndexV) -> bool {
    forall|i: int|
        0 <= i < idx.rows.len() ==> {
            &&& (#[trigger] idx.rows[i]).1.len() >= 1
            &&& pks_in_order(idx.rows[i].1, idx.desc_sort)
            &&& idx.unique ==> idx.rows[i].1.len() == 1
        }
}

/// An index refuses a key for `value` exactly where it is unique and
/// already records `value`.
pub proof fn lemma_index_refuses(idx: IndexV, value: JsonV, pk: u64)
    ensures
        index_insert(idx, value, pk) is None <==> (idx.unique && assoc_get(idx.rows, value) is Some),
{
}

/// After an index takes in key `pk` for `value`, the list that it records
/// for `value` holds `pk` and every key that it recorded for `value` before,
/// each as often, in its order; the lists of other values stay as they were.
pub proof fn lemma_index_insert_lookup(idx: IndexV, value: JsonV, pk: u64, other: JsonV)
    requires
        index_insert(idx, value, pk) is Some,
    ensures
        assoc_get(index_insert(idx, value, pk).unwrap().rows, value) matches Some(l) && pks_in_order(
            l,
            idx.desc_sort,
        ) && l.to_multiset() == (match assoc_get(idx.rows, value) {
            Some(old) => old.to_multiset(),
            None => Multiset::empty(),
        }).insert(pk),
        other != value ==> assoc_get(index_insert(idx, value, pk).unwrap().rows, other) == assoc_get(
            idx.rows,
            other,
        ),
{
    broadcast use to_multiset_build;

    let n = index_insert(idx, value, pk).unwrap();
    match assoc_get(idx.rows, value) {
        None => {
            lemma_assoc_get_put(idx.rows, value, seq![pk], value);
            lemma_assoc_get_put(idx.rows, value, seq![pk], other);
            assert(seq![pk] =~= Seq::<u64>::empty().push(pk));
            assert(Seq::<u64>::empty().to_multiset() =~= Multiset::<u64>::empty()) by {
                broadcast use to_multiset_len;

                vstd::multiset::lemma_multiset_empty_len(Seq::<u64>::empty().to_multiset());
            }
        },
        Some(l) => {
            let t = sorted_pks(l.push(pk), idx.desc_sort);
            lemma_sorted_pks(l.push(pk), idx.desc_sort);
            lemma_assoc_get_put(idx.rows, value, t, value);
            lemma_assoc_get_put(idx.rows, value, t, other);
        },
    }
}

/// An empty index is well kept, and taking in a key keeps an index well
/// kept.
pub proof fn lemma_index_insert_well_kept(idx: IndexV, value: JsonV, pk: u64)
    requires
        index_well_kept(idx),
        index_insert(idx, value, pk) is Some,
    ensures
        index_well_kept(index_insert(idx, value, pk).unwrap()),
        index_well_kept(IndexV { rows: Seq::empty(), ..idx }),
{
    broadcast use to_multiset_len, to_multiset_build;

    let n = index_insert(idx, value, pk).unwrap();
    let l = match assoc_get(idx.rows, value) {
        Some(old) => sorted_pks(old.push(pk), idx.desc_sort),
        None => seq![pk],
    };
    assert(n.rows == assoc_put(idx.rows, value, l));
    if let Some(old) = assoc_get(idx.rows, value) {
        lemma_sorted_pks(old.push(pk), idx.desc_sort);
        assert(l.len() == l.to_multiset().len());
        assert(old.push(pk).len() == old.push(pk).to_multiset().len());
    }
    assert forall|i: int| 0 <= i < n.rows.len() implies {
        &&& (#[trigger] n.rows[i]).1.len() >= 1
        &&& pks_in_order(n.rows[i].1, n.desc_sort)
        &&& n.unique ==> n.rows[i].1.len() == 1
    } by {
        lemma_assoc_put_elems(idx.rows, value, l, i);
        if n.rows[i] != (value, l) {
            let j = choose|j: int| 0 <= j < idx.rows.len() && idx.rows[j] == n.rows[i];
            assert(idx.rows[j] == n.rows[i]);
        }
    }
}

/// No list that the index records holds a key twice.
pub open spec fn lists_distinct(idx: IndexV) -> bool {
    forall|i: int| 0 <= i < idx.rows.len() ==> (#[trigger] idx.rows[i]).1.no_duplicates()
}

/// Where the list for `value` does not hold `pk` yet, after the index takes
/// in `pk` for `value` that list holds `pk` exactly once; where no list held
/// a key twice, none does after.
pub proof fn lemma_index_insert_once(idx: IndexV, value: JsonV, pk: u64)
    requires
        index_insert(idx, value, pk) is Some,
        assoc_get(idx.rows, value) matches Some(l) ==> !l.contains(pk),
    ensures
        assoc_get(index_insert(idx, value, pk).unwrap().rows, value) matches Some(l) && l.to_multiset().count(pk)
            == 1,
        lists_distinct(idx) ==> lists_distinct(index_insert(idx, value, pk).unwrap()),
{
    broadcast use to_multiset_contains, vstd::multiset::group_multiset_axioms;

    let n = index_insert(idx, value, pk).unwrap();
    lemma_index_insert_lookup(idx, value, pk, value);
    let l = assoc_get(n.rows, value).unwrap();
    let base = match assoc_get(idx.rows, value) {
        Some(old) => old.to_multiset(),
        None => Multiset::<u64>::empty(),
    };
    assert(l.to_multiset() == base.insert(pk));
    assert(base.count(pk) == 0);
    if lists_distinct(idx) {
        assert forall|x: u64| base.contains(x) implies base.count(x) == 1 by {
            if let Some(old) = assoc_get(idx.rows, value) {
                lemma_assoc_get_elem(idx.rows, value);
                let i = choose|i: int| 0 <= i < idx.rows.len() && #[trigger] idx.rows[i] == (value, old);
                assert(idx.rows[i].1.no_duplicates());
                old.lemma_multiset_has_no_duplicates();
            }
        }
        assert forall|x: u64| l.to_multiset().contains(x) implies l.to_multiset().count(x) == 1 by {
            if x != pk {
                assert(base.contains(x));
            }
        }
        l.lemma_multiset_has_no_duplicates_conv();
        let pks = match assoc_get(idx.rows, value) {
            Some(old) => sorted_pks(old.push(pk), idx.desc_sort),
            None => seq![pk],
        };
        assert(n.rows == assoc_put(idx.rows, value, pks));
        lemma_assoc_get_put(idx.rows, value, pks, value);
        assert forall|i: int| 0 <= i < n.rows.len() implies (#[trigger] n.rows[i]).1.no_duplicates() by {
            lemma_assoc_put_elems(idx.rows, value, pks, i);
            if n.rows[i] != (value, pks) {
                let j = choose|j: int| 0 <= j < idx.rows.len() && idx.rows[j] == n.rows[i];
                assert(idx.rows[j].1.no_duplicates());
            }
        }
    }
}

/// An index on one column of a table: for each value of that column, the
/// primary keys of the rows that hold it.
pub struct Index {
    desc_sort: bool,
    key: String,
    unique: bool,
    index_rows: Vec<(Json, Vec<u64>)>,
}

impl View for Index {
    type V = IndexV;

    closed spec fn view(&self) -> IndexV {
        IndexV {
            desc_sort: self.desc_sort,
            key: self.key@,
            unique: self.unique,
            rows: self.index_rows@.map_values(|e: (Json, Vec<u64>)| (e.0@, e.1@)),
        }
    }
}

impl Index {
    /// The column that the index is on.
    pub fn key(&self) -> (r: &String)
        ensures
            r@ == self@.key,
    {
        &self.key
    }

    /// Whether the index keeps its lists in descending order.
    pub fn desc_sort(&self) -> (r: bool)
        ensures
            r == self@.desc_sort,
    {
        self.desc_sort
    }

    /// Whether the index records one row at most for each value.
    pub fn unique(&self) -> (r: bool)
        ensures
            r == self@.unique,
    {
        self.unique
    }

    /// The values that the index records, each with its list of primary
    /// keys.
    pub fn index_rows(&self) -> (r: &Vec<(Json, Vec<u64>)>)
        ensures
            r@.map_values(|e: (Json, Vec<u64>)| (e.0@, e.1@)) == self@.rows,
    {
        &self.index_rows
    }

    /// An index with the given settings that records the given lists, as
    /// they are.
    pub fn from_parts(desc_sort: bool, key: String, unique: bool, index_rows: Vec<(Json, Vec<u64>)>) -> (r: Index)
        ensures
            r@ == (IndexV {
                desc_sort,
                key: key@,
                unique,
                rows: index_rows@.map_values(|e: (Json, Vec<u64>)| (e.0@, e.1@)),
            }),
    {
        Index { desc_sort, key, unique, index_rows }
    }

    /// Whether the index takes in a row whose indexed column holds `value`:
    /// a unique index refuses a value that it already holds.
    pub fn accepts(&self, value: &Json) -> (r: bool)
        ensures
            r == !(self@.unique && assoc_get(self@.rows, value@) is Some),
    {
        match self.find(value) {
            Some(i) => {
                proof {
                    lemma_assoc_get_at(self@.rows, value@, i as int);
                }
                !self.unique
            },
            None => {
                proof {
                    lemma_assoc_get_none(self@.rows, value@);
                }
                true
            },
        }
    }

    /// An empty index on column `key`; it keeps its lists in ascending order
    /// unless `desc_sort` is `Some(true)`, and holds each value once at most
    /// where `unique` is `Some(true)`.
    pub fn new(key: String, desc_sort: Option<bool>, unique: Option<bool>) -> (r: Index)
        ensures
            r@ == (IndexV {
                desc_sort: desc_sort == Some(true),
                key: key@,
                unique: unique == Some(true),
                rows: Seq::empty(),
            }),
    {
        let d = match desc_sort {
            Some(b) => b,
            None => false,
        };
        let u = match unique {
            Some(b) => b,
            None => false,
        };
        let r = Index { desc_sort: d, key, unique: u, index_rows: Vec::new() };
        assert(r@.rows =~= Seq::<(JsonV, Seq<u64>)>::empty());
        r
    }

    /// The position of the first entry for `value`, if any.
    fn find(&self, value: &Json) -> (r: Option<usize>)
        ensures
            match r {
                Some(i) => i < self@.rows.len() && self@.rows[i as int].0 == value@ && forall|j: int|
                    0 <= j < i ==> #[trigger] self@.rows[j].0 != value@,
                None => forall|j: int| 0 <= j < self@.rows.len() ==> #[trigger] self@.rows[j].0 != value@,
            },
    {
        let n = self.index_rows.len();
        let mut i: usize = 0;
        while i < n
            invariant
                n == self.index_rows@.len(),
                n == self@.rows.len(),
                i <= n,
                forall|j: int| 0 <= j < i ==> #[trigger] self@.rows[j].0 != value@,
            decreases n - i,
        {
            if self.index_rows[i].0.equals(value) {
                return Some(i);
            }
            i = i + 1;
        }
        None
    }

    /// Records that the row `row`, whose primary key stands in column
    /// `pk_name`, holds its value of the indexed column. A unique index that
    /// already holds that value refuses, and is left as it was.
    pub fn insert_row(&mut self, pk_name: String, row: Row) -> (r: Result<(), &'static str>)
        requires
            assoc_get(row@, old(self)@.key) is Some,
            pk_of(row@, pk_name@) is Some,
        ensures
            match index_insert(
                old(self)@,
                assoc_get(row@, old(self)@.key).unwrap(),
                pk_of(row@, pk_name@).unwrap(),
            ) {
                Some(idx) => r is Ok && final(self)@ == idx,
                None => r == Err::<(), &'static str>("Index is unique!") && final(self)@ == old(self)@,
            },
    {
        let value = match row.get(self.key.as_str()) {
            Some(v) => v.deep_copy(),
            None => Json::Null,
        };
        let pk = match row.pk_value(pk_name.as_str()) {
            Some(p) => p,
            None => 0,
        };
        let ghost old_rows = self@.rows;
        match self.find(&value) {
            None => {
                proof {
                    lemma_assoc_get_none(old_rows, value@);
                    lemma_assoc_put_end(old_rows, value@, seq![pk]);
                }
                let ghost vv = value@;
                let mut pks: Vec<u64> = Vec::new();
                pks.push(pk);
                self.index_rows.push((value, pks));
                assert(self@.rows =~= old_rows.push((vv, seq![pk])));
                Ok(())
            },
            Some(i) => {
                proof {
                    lemma_assoc_get_at(old_rows, value@, i as int);
                }
                if self.unique {
                    return Err("Index is unique!");
                }
                let mut pks = self.index_rows[i].1.clone();
                pks.push(pk);
                let sorted = sort_pks(&pks, self.desc_sort);
                proof {
                    lemma_assoc_put_at(old_rows, value@, sorted@, i as int);
                }
                let ghost vv = value@;
                self.index_rows.set(i, (value, sorted));
                assert(self@.rows =~= old_rows.update(i as int, (vv, sorted@)));
                Ok(())
            },
        }
    }

    /// The primary keys recorded for `value`, if any.
    pub fn get_pks_by_value(&self, value: Json) -> (r: Option<&Vec<u64>>)
        ensures
            match r {
                Some(pks) => assoc_get(self@.rows, value@) == Some(pks@),
                None => assoc_get(self@.rows, value@) is None,
            },
    {
        match self.find(&value) {
            Some(i) => {
                proof {
                    lemma_assoc_get_at(self@.rows, value@, i as int);
                }
                Some(&self.index_rows[i].1)
            },
            None => {
                proof {
                    lemma_assoc_get_none(self@.rows, value@);
                }
                None
            },
        }
    }
}

/// One entry of an index: a primary key and the text of a value.
pub struct IndexRow {
    pk: u64,
    value: String,
}

} // verus!
