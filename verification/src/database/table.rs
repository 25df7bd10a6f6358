use vstd::prelude::*;
use vstd::multiset::Multiset;
use vstd::seq_lib::to_multiset_contains;
use crate::assoc::{
    assoc_from, assoc_get, assoc_put, collect_named, find_named, lemma_assoc_get_at,
    lemma_assoc_get_none, lemma_assoc_get_push, lemma_assoc_get_put, lemma_assoc_get_some, lemma_assoc_put_at, lemma_assoc_put_end, named_view, put_named,
};
use crate::database::index::{
    index_insert, lemma_index_insert_lookup, lemma_index_insert_once, lemma_index_refuses, lists_distinct, Index,
    IndexV,
};
use crate::database::relation::{Relation, RelationV};
use crate::database::row::{pk_of, Row};
use crate::json::{Json, JsonV, ObjV};
use crate::text::{join_texts, decimal, u64_to_decimal};

verus! {

/// The mathematical value of a table.
pub struct TableV {
    pub name: Seq<char>,
    pub pk: Seq<char>,
    pub indexes: Seq<(Seq<char>, IndexV)>,
    pub relations: Seq<(Seq<char>, RelationV)>,
    pub rows: Seq<(u64, ObjV)>,
}

/// What the index `entry` becomes when the row `row` with primary key `pk`
/// goes into its table: an index named after a column that the row lacks
/// stays as it is; nothing where the index refuses the row.
pub open spec fn index_after_row(entry: (Seq<char>, IndexV), row: ObjV, pk: u64) -> Option<IndexV> {
    if assoc_get(row, entry.0) is Some {
        index_insert(entry.1, assoc_get(row, entry.1.key).unwrap(), pk)
    } else {
        Some(entry.1)
    }
}

/// The table `t` after the row `row` went into it, or nothing where one of
/// its indexes refuses the row.
pub open spec fn table_insert(t: TableV, row: ObjV) -> Option<TableV> {
    let pk = pk_of(row, t.pk).unwrap();
    if exists|i: int| 0 <= i < t.indexes.len() && index_after_row(t.indexes[i], row, pk) is None {
        None
    } else {
        Some(
            TableV {
                rows: assoc_put(t.rows, pk, row),
                indexes: t.indexes.map_values(
                    |e: (Seq<char>, IndexV)| (e.0, index_after_row(e, row, pk).unwrap()),
                ),
                ..t
            },
        )
    }
}

/// The index `idx` after it took in, one after the other, the rows `rows`,
/// each with the primary key that it holds in column `pk_name`; a row that
/// the index refuses leaves it as it was.
pub open spec fn fill_index(idx: IndexV, rows: Seq<(u64, ObjV)>, pk_name: Seq<char>) -> IndexV
    decreases rows.len(),
{
    if rows.len() == 0 {
        idx
    } else {
        let prev = fill_index(idx, rows.drop_last(), pk_name);
        let row = rows.last().1;
        match index_insert(prev, assoc_get(row, prev.key).unwrap(), pk_of(row, pk_name).unwrap()) {
            Some(next) => next,
            None => prev,
        }
    }
}

/// The error text for a primary key that no row holds.
pub open spec fn row_not_found(pk: u64) -> Seq<char> {
    "Row with pk: "@ + decimal(pk as nat) + " not found!"@
}

/// The error text for an index that a table lacks.
pub open spec fn index_not_found(name: Seq<char>) -> Seq<char> {
    "Nothing found index not found: "@ + name
}

/// After a row goes into a table, the row under its primary key is that row,
/// and the rows under other keys stay as they were.
pub proof fn lemma_table_insert_read(t: TableV, row: ObjV, k: u64)
    requires
        table_insert(t, row) is Some,
    ensures
        assoc_get(table_insert(t, row).unwrap().rows, k) == (if k == pk_of(row, t.pk).unwrap() {
            Some(row)
        } else {
            assoc_get(t.rows, k)
        }),
{
    lemma_assoc_get_put(t.rows, pk_of(row, t.pk).unwrap(), row, k);
}

/// A table refuses a row exactly where one of its indexes, named after a
/// column of the row, is unique and already records the row's value.
pub proof fn lemma_table_insert_refused(t: TableV, row: ObjV)
    ensures
        table_insert(t, row) is None <==> exists|i: int|
            0 <= i < t.indexes.len() && assoc_get(row, #[trigger] t.indexes[i].0) is Some
                && t.indexes[i].1.unique && assoc_get(
                t.indexes[i].1.rows,
                assoc_get(row, t.indexes[i].1.key).unwrap(),
            ) is Some,
{
    let pk = pk_of(row, t.pk).unwrap();
    if table_insert(t, row) is None {
        let i = choose|i: int| 0 <= i < t.indexes.len() && index_after_row(t.indexes[i], row, pk) is None;
        lemma_index_refuses(t.indexes[i].1, assoc_get(row, t.indexes[i].1.key).unwrap(), pk);
    } else {
        assert forall|i: int|
            0 <= i < t.indexes.len() && assoc_get(row, #[trigger] t.indexes[i].0) is Some implies !(
            t.indexes[i].1.unique && assoc_get(t.indexes[i].1.rows, assoc_get(row, t.indexes[i].1.key).unwrap())
                is Some) by {
            assert(index_after_row(t.indexes[i], row, pk) is Some);
            lemma_index_refuses(t.indexes[i].1, assoc_get(row, t.indexes[i].1.key).unwrap(), pk);
        }
    }
}

/// After a row goes into a table, each index named after a column of the
/// row records the row's primary key for the row's value.
pub proof fn lemma_table_insert_indexed(t: TableV, row: ObjV, i: int)
    requires
        table_insert(t, row) is Some,
        0 <= i < t.indexes.len(),
        assoc_get(row, t.indexes[i].0) is Some,
    ensures
        assoc_get(
            table_insert(t, row).unwrap().indexes[i].1.rows,
            assoc_get(row, t.indexes[i].1.key).unwrap(),
        ) matches Some(pks) && pks.contains(pk_of(row, t.pk).unwrap()),
{
    broadcast use to_multiset_contains;

    let pk = pk_of(row, t.pk).unwrap();
    let value = assoc_get(row, t.indexes[i].1.key).unwrap();
    assert(index_after_row(t.indexes[i], row, pk) is Some);
    lemma_index_insert_lookup(t.indexes[i].1, value, pk, value);
    let pks = assoc_get(index_insert(t.indexes[i].1, value, pk).unwrap().rows, value).unwrap();
    assert(pks.to_multiset().count(pk) > 0);
}

/// The index `idx` records key `p` for value `v`.
pub open spec fn indexed(idx: IndexV, v: JsonV, p: u64) -> bool {
    assoc_get(idx.rows, v) matches Some(pks) && pks.contains(p)
}

/// The row under key `p` has a column `name` and holds `v` in column `key`.
pub open spec fn row_holds(rows: Seq<(u64, ObjV)>, name: Seq<char>, key: Seq<char>, v: JsonV, p: u64) -> bool {
    assoc_get(rows, p) matches Some(r) && assoc_get(r, name) is Some && assoc_get(r, key) == Some(v)
}

/// Each index of the table records a key for a value exactly where the row
/// under that key has the column that the index is named after and holds the
/// value in the indexed column.
pub open spec fn indexes_match_rows(t: TableV) -> bool {
    forall|i: int, v: JsonV, p: u64|
        #![trigger indexed(t.indexes[i].1, v, p)]
        #![trigger row_holds(t.rows, t.indexes[i].0, t.indexes[i].1.key, v, p)]
        0 <= i < t.indexes.len() ==> (indexed(t.indexes[i].1, v, p) <==> row_holds(
            t.rows,
            t.indexes[i].0,
            t.indexes[i].1.key,
            v,
            p,
        ))
}

/// A table without rows, whose indexes record nothing, has its indexes
/// match its rows.
pub proof fn lemma_empty_table_indexes_match(t: TableV)
    requires
        t.rows.len() == 0,
        forall|i: int| 0 <= i < t.indexes.len() ==> (#[trigger] t.indexes[i]).1.rows.len() == 0,
    ensures
        indexes_match_rows(t),
        indexes_distinct(t),
{
    assert forall|i: int, v: JsonV, p: u64|
        #![trigger indexed(t.indexes[i].1, v, p)]
        #![trigger row_holds(t.rows, t.indexes[i].0, t.indexes[i].1.key, v, p)]
        0 <= i < t.indexes.len() implies (indexed(t.indexes[i].1, v, p) <==> row_holds(
        t.rows,
        t.indexes[i].0,
        t.indexes[i].1.key,
        v,
        p,
    )) by {
        assert(t.indexes[i].1.rows.len() == 0);
    }
}

/// A row that goes into a table under a primary key that the table does not
/// hold yet keeps the table's indexes matching its rows.
pub proof fn lemma_table_insert_keeps_indexes(t: TableV, row: ObjV)
    requires
        indexes_match_rows(t),
        table_insert(t, row) is Some,
        assoc_get(t.rows, pk_of(row, t.pk).unwrap()) is None,
        forall|i: int|
            0 <= i < t.indexes.len() && assoc_get(row, #[trigger] t.indexes[i].0) is Some
                ==> assoc_get(row, t.indexes[i].1.key) is Some,
    ensures
        indexes_match_rows(table_insert(t, row).unwrap()),
{
    broadcast use to_multiset_contains;

    let pk = pk_of(row, t.pk).unwrap();
    let n = table_insert(t, row).unwrap();
    assert forall|i: int, v: JsonV, p: u64|
        #![trigger indexed(n.indexes[i].1, v, p)]
        #![trigger row_holds(n.rows, n.indexes[i].0, n.indexes[i].1.key, v, p)]
        0 <= i < n.indexes.len() implies (indexed(n.indexes[i].1, v, p) <==> row_holds(
        n.rows,
        n.indexes[i].0,
        n.indexes[i].1.key,
        v,
        p,
    )) by {
        let e = t.indexes[i];
        assert(n.indexes[i] == (e.0, index_after_row(e, row, pk).unwrap()));
        assert(indexed(e.1, v, p) <==> row_holds(t.rows, e.0, e.1.key, v, p));
        lemma_assoc_get_put(t.rows, pk, row, p);
        assert(index_after_row(e, row, pk) is Some);
        if assoc_get(row, e.0) is Some {
            let v0 = assoc_get(row, e.1.key).unwrap();
            let ni = index_insert(e.1, v0, pk).unwrap();
            assert(n.indexes[i].1 == ni);
            assert(ni.key == e.1.key);
            lemma_index_insert_lookup(e.1, v0, pk, v);
            if v == v0 {
                let pks = assoc_get(ni.rows, v0).unwrap();
                let before = match assoc_get(e.1.rows, v0) {
                    Some(old) => old.to_multiset(),
                    None => Multiset::empty(),
                };
                assert(pks.to_multiset() == before.insert(pk));
                if let Some(old) = assoc_get(e.1.rows, v0) {
                    assert(pks.contains(p) <==> (old.contains(p) || p == pk)) by {
                        assert(pks.to_multiset().count(p) == old.to_multiset().count(p) + (if p == pk { 1int } else { 0int }));
                    }
                } else {
                    assert(pks.contains(p) <==> p == pk) by {
                        assert(pks.to_multiset().count(p) == (if p == pk { 1int } else { 0int }));
                    }
                }
            }
        }
    }
}

/// No list that an index of the table records holds a key twice.
pub open spec fn indexes_distinct(t: TableV) -> bool {
    forall|i: int| 0 <= i < t.indexes.len() ==> lists_distinct(#[trigger] t.indexes[i].1)
}

/// A row that goes into a table, under a primary key `pk` that the table
/// does not hold yet, is listed by each index `i` as follows: where the row
/// has the column that the index is named after, the list for the row's
/// value holds `pk` exactly once; and `pk` is listed for a value `v` exactly
/// where the row has that column and holds `v` in the indexed column, for no
/// other value. No list holds a key twice after, where none did before.
pub proof fn lemma_table_insert_lists_key_once(t: TableV, row: ObjV, i: int, v: JsonV)
    requires
        indexes_match_rows(t),
        table_insert(t, row) is Some,
        pk_of(row, t.pk) is Some,
        assoc_get(t.rows, pk_of(row, t.pk).unwrap()) is None,
        forall|j: int|
            0 <= j < t.indexes.len() && assoc_get(row, #[trigger] t.indexes[j].0) is Some
                ==> assoc_get(row, t.indexes[j].1.key) is Some,
        0 <= i < t.indexes.len(),
    ensures
        assoc_get(row, t.indexes[i].0) is Some ==> (assoc_get(
            table_insert(t, row).unwrap().indexes[i].1.rows,
            assoc_get(row, t.indexes[i].1.key).unwrap(),
        ) matches Some(pks) && pks.to_multiset().count(pk_of(row, t.pk).unwrap()) == 1),
        indexed(table_insert(t, row).unwrap().indexes[i].1, v, pk_of(row, t.pk).unwrap()) <==> (assoc_get(
            row,
            t.indexes[i].0,
        ) is Some && assoc_get(row, t.indexes[i].1.key) == Some(v)),
        lists_distinct(t.indexes[i].1) ==> lists_distinct(table_insert(t, row).unwrap().indexes[i].1),
{
    let pk = pk_of(row, t.pk).unwrap();
    let n = table_insert(t, row).unwrap();
    let e = t.indexes[i];
    lemma_table_insert_keeps_indexes(t, row);
    lemma_assoc_get_put(t.rows, pk, row, pk);
    assert(indexed(n.indexes[i].1, v, pk) <==> row_holds(n.rows, n.indexes[i].0, n.indexes[i].1.key, v, pk));
    assert(n.indexes[i] == (e.0, index_after_row(e, row, pk).unwrap()));
    assert(index_after_row(e, row, pk) is Some);
    if assoc_get(row, e.0) is Some {
        let v0 = assoc_get(row, e.1.key).unwrap();
        assert(n.indexes[i].1 == index_insert(e.1, v0, pk).unwrap());
        assert(index_insert(e.1, v0, pk).unwrap().key == e.1.key);
        assert(indexed(e.1, v0, pk) <==> row_holds(t.rows, e.0, e.1.key, v0, pk));
        lemma_index_insert_once(e.1, v0, pk);
    }
}

/// A row that goes into a table under a primary key that the table does not
/// hold yet keeps every list of every index free of keys that come twice.
pub proof fn lemma_table_insert_keeps_distinct(t: TableV, row: ObjV)
    requires
        indexes_match_rows(t),
        indexes_distinct(t),
        table_insert(t, row) is Some,
        pk_of(row, t.pk) is Some,
        assoc_get(t.rows, pk_of(row, t.pk).unwrap()) is None,
        forall|j: int|
            0 <= j < t.indexes.len() && assoc_get(row, #[trigger] t.indexes[j].0) is Some
                ==> assoc_get(row, t.indexes[j].1.key) is Some,
    ensures
        indexes_distinct(table_insert(t, row).unwrap()),
{
    let n = table_insert(t, row).unwrap();
    assert forall|i: int| 0 <= i < n.indexes.len() implies lists_distinct(#[trigger] n.indexes[i].1) by {
        assert(lists_distinct(t.indexes[i].1));
        lemma_table_insert_lists_key_once(t, row, i, JsonV::Null);
    }
}

/// Each row is under the primary key that it holds, and no key comes twice.
pub open spec fn rows_keyed(rows: Seq<(u64, ObjV)>, pk_name: Seq<char>) -> bool {
    &&& forall|i: int| 0 <= i < rows.len() ==> pk_of(#[trigger] rows[i].1, pk_name) == Some(rows[i].0)
    &&& forall|i: int, j: int| 0 <= i < j < rows.len() ==> #[trigger] rows[i].0 != #[trigger] rows[j].0
}

/// The index `idx`, named `name`, records a key for a value exactly where
/// the row under that key has the column `name` and holds the value in the
/// indexed column.
pub open spec fn index_matches_rows(name: Seq<char>, idx: IndexV, rows: Seq<(u64, ObjV)>) -> bool {
    forall|v: JsonV, p: u64|
        #![trigger indexed(idx, v, p)]
        #![trigger row_holds(rows, name, idx.key, v, p)]
        indexed(idx, v, p) <==> row_holds(rows, name, idx.key, v, p)
}

/// A row going into a table keeps each row under the key that it holds,
/// each key once.
pub proof fn lemma_table_insert_keeps_rows_keyed(t: TableV, row: ObjV)
    requires
        rows_keyed(t.rows, t.pk),
        pk_of(row, t.pk) is Some,
        table_insert(t, row) is Some,
    ensures
        rows_keyed(table_insert(t, row).unwrap().rows, t.pk),
{
    let pk = pk_of(row, t.pk).unwrap();
    let n = table_insert(t, row).unwrap();
    lemma_assoc_get_some(t.rows, pk);
    if assoc_get(t.rows, pk) is Some {
        let i = choose|i: int| 0 <= i < t.rows.len() && #[trigger] t.rows[i].0 == pk;
        assert forall|j: int| 0 <= j < i implies #[trigger] t.rows[j].0 != pk by {
            assert(t.rows[j].0 != t.rows[i].0);
        }
        lemma_assoc_put_at(t.rows, pk, row, i);
        assert(n.rows == t.rows.update(i, (pk, row)));
    } else {
        lemma_assoc_put_end(t.rows, pk, row);
        assert(n.rows == t.rows.push((pk, row)));
    }
}

/// An index that starts empty and is not unique, filled with rows that are
/// each under the key that they hold, records a key for a value exactly
/// where the row under that key holds the value in the indexed column.
pub proof fn lemma_fill_index_matches(idx: IndexV, rows: Seq<(u64, ObjV)>, pk_name: Seq<char>)
    requires
        idx.rows.len() == 0,
        !idx.unique,
        rows_keyed(rows, pk_name),
        forall|i: int| 0 <= i < rows.len() ==> assoc_get(#[trigger] rows[i].1, idx.key) is Some,
    ensures
        fill_index(idx, rows, pk_name).key == idx.key,
        !fill_index(idx, rows, pk_name).unique,
        index_matches_rows(idx.key, fill_index(idx, rows, pk_name), rows),
    decreases rows.len(),
{
    broadcast use to_multiset_contains;

    let f = fill_index(idx, rows, pk_name);
    if rows.len() == 0 {
        assert forall|v: JsonV, p: u64|
            #![trigger indexed(f, v, p)]
            #![trigger row_holds(rows, idx.key, f.key, v, p)]
            indexed(f, v, p) <==> row_holds(rows, idx.key, f.key, v, p) by {
            assert(idx.rows.len() == 0);
        }
    } else {
        let prefix = rows.drop_last();
        let last = rows.last();
        assert(rows =~= prefix.push(last));
        assert forall|i: int| 0 <= i < prefix.len() implies pk_of(#[trigger] prefix[i].1, pk_name) == Some(
            prefix[i].0,
        ) by {
            assert(prefix[i] == rows[i]);
        }
        assert forall|i: int, j: int| 0 <= i < j < prefix.len() implies #[trigger] prefix[i].0
            != #[trigger] prefix[j].0 by {
            assert(prefix[i] == rows[i] && prefix[j] == rows[j]);
        }
        assert forall|i: int| 0 <= i < prefix.len() implies assoc_get(#[trigger] prefix[i].1, idx.key) is Some by {
            assert(prefix[i] == rows[i]);
        }
        lemma_fill_index_matches(idx, prefix, pk_name);
        let prev = fill_index(idx, prefix, pk_name);
        let pk = last.0;
        assert(pk_of(rows[rows.len() - 1].1, pk_name) == Some(rows[rows.len() - 1].0));
        assert(assoc_get(rows[rows.len() - 1].1, idx.key) is Some);
        let v0 = assoc_get(last.1, prev.key).unwrap();
        assert(index_insert(prev, v0, pk) is Some);
        assert(f == index_insert(prev, v0, pk).unwrap());
        lemma_assoc_get_some(prefix, pk);
        assert(assoc_get(prefix, pk) is None) by {
            if assoc_get(prefix, pk) is Some {
                let i = choose|i: int| 0 <= i < prefix.len() && #[trigger] prefix[i].0 == pk;
                assert(rows[i].0 != rows[rows.len() - 1].0);
            }
        }
        assert forall|v: JsonV, p: u64|
            #![trigger indexed(f, v, p)]
            #![trigger row_holds(rows, idx.key, f.key, v, p)]
            indexed(f, v, p) <==> row_holds(rows, idx.key, f.key, v, p) by {
            lemma_assoc_get_push(prefix, last, p);
            lemma_index_insert_lookup(prev, v0, pk, v);
            assert(indexed(prev, v, p) <==> row_holds(prefix, idx.key, prev.key, v, p));
            if v == v0 {
                let pks = assoc_get(f.rows, v0).unwrap();
                if let Some(old) = assoc_get(prev.rows, v0) {
                    assert(pks.contains(p) <==> (old.contains(p) || p == pk)) by {
                        assert(pks.to_multiset().count(p) == old.to_multiset().count(p) + (if p == pk {
                            1int
                        } else {
                            0int
                        }));
                    }
                } else {
                    assert(pks.contains(p) <==> p == pk) by {
                        assert(pks.to_multiset().count(p) == (if p == pk {
                            1int
                        } else {
                            0int
                        }));
                    }
                }
            }
        }
    }
}

/// The index that `create_index` adds, from an empty index that is not
/// unique and is named after the column that it indexes, records a key for
/// a value exactly where the row under that key holds the value in that
/// column.
pub proof fn lemma_create_index_matches(t: TableV, key: Seq<char>, idx: IndexV)
    requires
        idx.rows.len() == 0,
        !idx.unique,
        key == idx.key,
        rows_keyed(t.rows, t.pk),
        forall|j: int| 0 <= j < t.rows.len() ==> assoc_get(#[trigger] t.rows[j].1, idx.key) is Some,
    ensures
        assoc_get(assoc_put(t.indexes, key, fill_index(idx, t.rows, t.pk)), key) == Some(
            fill_index(idx, t.rows, t.pk),
        ),
        index_matches_rows(key, fill_index(idx, t.rows, t.pk), t.rows),
{
    lemma_fill_index_matches(idx, t.rows, t.pk);
    lemma_assoc_get_put(t.indexes, key, fill_index(idx, t.rows, t.pk), key);
}

/// A table: rows by primary key, the indexes and the relations that it
/// names.
pub struct Table {
    indexes: Vec<(String, Index)>,
    relations: Vec<(String, Relation)>,
    rows: Vec<(u64, Row)>,
    name: String,
    pk: String,
}

/// The error text for a relation that a table lacks.
pub open spec fn relation_not_found() -> Seq<char> {
    "Failed to find relation"@
}

/// The named items that an optional list gives, each name once.
pub open spec fn named_from<V: View>(list: Option<Vec<(String, V)>>) -> Seq<(Seq<char>, V::V)> {
    match list {
        Some(v) => assoc_from(named_view(v@)),
        None => Seq::empty(),
    }
}

impl Table {
    pub closed spec fn view(&self) -> TableV {
        TableV {
            name: self.name@,
            pk: self.pk@,
            indexes: named_view(self.indexes@),
            relations: named_view(self.relations@),
            rows: self.rows@.map_values(|e: (u64, Row)| (e.0, e.1@)),
        }
    }

    /// The name of the table.
    pub fn name(&self) -> (r: &String)
        ensures
            r@ == self@.name,
    {
        &self.name
    }

    /// The position of the first row with primary key `pk`, if any.
    fn find_row(&self, pk: u64) -> (r: Option<usize>)
        ensures
            match r {
                Some(i) => i < self@.rows.len() && self@.rows[i as int].0 == pk && forall|j: int|
                    0 <= j < i ==> #[trigger] self@.rows[j].0 != pk,
                None => forall|j: int| 0 <= j < self@.rows.len() ==> #[trigger] self@.rows[j].0 != pk,
            },
    {
        let n = self.rows.len();
        let mut i: usize = 0;
        while i < n
            invariant
                n == self.rows@.len(),
                n == self@.rows.len(),
                i <= n,
                forall|j: int| 0 <= j < i ==> #[trigger] self@.rows[j].0 != pk,
            decreases n - i,
        {
            if self.rows[i].0 == pk {
                return Some(i);
            }
            i = i + 1;
        }
        None
    }

    /// An empty table named `name` whose rows hold their primary key in
    /// column `pk`, with the indexes and relations given, each name once
    /// (where a name comes twice, the later item counts).
    pub fn new(
        name: &str,
        pk: &str,
        indexes: Option<Vec<(String, Index)>>,
        relations: Option<Vec<(String, Relation)>>,
    ) -> (r: Table)
        ensures
            r@ == (TableV {
                name: name@,
                pk: pk@,
                indexes: named_from(indexes),
                relations: named_from(relations),
                rows: Seq::empty(),
            }),
    {
        let idx = match indexes {
            Some(v) => collect_named(v),
            None => Vec::new(),
        };
        let rel = match relations {
            Some(v) => collect_named(v),
            None => Vec::new(),
        };
        let t = Table {
            indexes: idx,
            relations: rel,
            rows: Vec::new(),
            name: name.to_owned(),
            pk: pk.to_owned(),
        };
        assert(t@.rows =~= Seq::<(u64, ObjV)>::empty());
        assert(t@.indexes =~= named_from(indexes));
        assert(t@.relations =~= named_from(relations));
        t
    }

    /// The indexes of the table, by name.
    pub fn indexes(&self) -> (r: &Vec<(String, Index)>)
        ensures
            named_view(r@) == self@.indexes,
    {
        &self.indexes
    }

    /// The relations of the table, by name.
    pub fn relations(&self) -> (r: &Vec<(String, Relation)>)
        ensures
            named_view(r@) == self@.relations,
    {
        &self.relations
    }

    /// The rows of the table, each with its primary key.
    pub fn rows(&self) -> (r: &Vec<(u64, Row)>)
        ensures
            r@.map_values(|e: (u64, Row)| (e.0, e.1@)) == self@.rows,
    {
        &self.rows
    }

    /// A table made of the given parts, as they are.
    pub fn from_parts(
        name: String,
        pk: String,
        indexes: Vec<(String, Index)>,
        relations: Vec<(String, Relation)>,
        rows: Vec<(u64, Row)>,
    ) -> (r: Table)
        ensures
            r@ == (TableV {
                name: name@,
                pk: pk@,
                indexes: named_view(indexes@),
                relations: named_view(relations@),
                rows: rows@.map_values(|e: (u64, Row)| (e.0, e.1@)),
            }),
    {
        Table { indexes, relations, rows, name, pk }
    }

    /// The name of the column that holds the primary key.
    pub fn pk(&self) -> (r: &String)
        ensures
            r@ == self@.pk,
    {
        &self.pk
    }

    /// The relation named `relation_name`.
    pub fn get_relation(&self, relation_name: &String) -> (r: Result<&Relation, String>)
        ensures
            match r {
                Ok(rel) => assoc_get(self@.relations, relation_name@) == Some(rel@),
                Err(e) => assoc_get(self@.relations, relation_name@) is None && e@
                    == relation_not_found(),
            },
    {
        match find_named(&self.relations, relation_name.as_str()) {
            Some(i) => Ok(&self.relations[i].1),
            None => Err("Failed to find relation".to_owned()),
        }
    }

    /// Puts the row `row` into the table under the primary key that it holds,
    /// in place of any row with that key, and records it in each index named
    /// after one of its columns. Where a unique index already holds the
    /// row's value, the table is left as it was and the error comes back.
    pub fn insert_row(&mut self, row: Row) -> (r: Result<(), &'static str>)
        requires
            pk_of(row@, old(self)@.pk) is Some,
            forall|i: int|
                0 <= i < old(self)@.indexes.len() && assoc_get(row@, #[trigger] old(self)@.indexes[i].0) is Some
                    ==> assoc_get(row@, old(self)@.indexes[i].1.key) is Some,
        ensures
            match table_insert(old(self)@, row@) {
                Some(t) => r is Ok && final(self)@ == t,
                None => r == Err::<(), &'static str>("Index is unique!") && final(self)@ == old(self)@,
            },
    {
        let ghost t0 = self@;
        let pk = match row.pk_value(self.pk.as_str()) {
            Some(p) => p,
            None => 0,
        };
        let n = self.indexes.len();
        let mut i: usize = 0;
        while i < n
            invariant
                n == self.indexes@.len(),
                n == t0.indexes.len(),
                self@ == t0,
                pk_of(row@, t0.pk) == Some(pk),
                i <= n,
                forall|i: int|
                    0 <= i < t0.indexes.len() && assoc_get(row@, #[trigger] t0.indexes[i].0) is Some
                        ==> assoc_get(row@, t0.indexes[i].1.key) is Some,
                forall|j: int| 0 <= j < i ==> (#[trigger] index_after_row(t0.indexes[j], row@, pk)) is Some,
            decreases n - i,
        {
            assert(t0.indexes[i as int] == (self.indexes@[i as int].0@, self.indexes@[i as int].1@));
            if row.get(self.indexes[i].0.as_str()).is_some() {
                match row.get(self.indexes[i].1.key().as_str()) {
                    Some(v) => {
                        if !self.indexes[i].1.accepts(v) {
                            assert(index_after_row(t0.indexes[i as int], row@, pk) is None);
                            return Err("Index is unique!");
                        }
                    },
                    None => {},
                }
            }
            i = i + 1;
        }
        let ghost new_rows = assoc_put(t0.rows, pk, row@);
        match self.find_row(pk) {
            Some(p) => {
                proof {
                    lemma_assoc_put_at(t0.rows, pk, row@, p as int);
                }
                self.rows.set(p, (pk, row.deep_copy()));
                assert(self@.rows =~= new_rows);
            },
            None => {
                proof {
                    lemma_assoc_put_end(t0.rows, pk, row@);
                }
                self.rows.push((pk, row.deep_copy()));
                assert(self@.rows =~= new_rows);
            },
        }
        let mut i: usize = 0;
        while i < n
            invariant
                n == self.indexes@.len(),
                n == t0.indexes.len(),
                pk_of(row@, t0.pk) == Some(pk),
                i <= n,
                self@.rows == new_rows,
                self@.name == t0.name,
                self@.pk == t0.pk,
                self@.relations == t0.relations,
                forall|i: int|
                    0 <= i < t0.indexes.len() && assoc_get(row@, #[trigger] t0.indexes[i].0) is Some
                        ==> assoc_get(row@, t0.indexes[i].1.key) is Some,
                forall|j: int| 0 <= j < n ==> (#[trigger] index_after_row(t0.indexes[j], row@, pk)) is Some,
                forall|j: int|
                    0 <= j < i ==> #[trigger] self@.indexes[j] == (
                        t0.indexes[j].0,
                        index_after_row(t0.indexes[j], row@, pk).unwrap(),
                    ),
                forall|j: int| i <= j < n ==> #[trigger] self@.indexes[j] == t0.indexes[j],
            decreases n - i,
        {
            assert(self@.indexes[i as int] == (self.indexes@[i as int].0@, self.indexes@[i as int].1@));
            let ghost before = self.indexes@;
            if row.get(self.indexes[i].0.as_str()).is_some() {
                let pk_name = self.pk.clone();
                let copy = row.deep_copy();
                let _ = self.indexes[i].1.insert_row(pk_name, copy);
                assert(self.indexes@.len() == before.len());
                assert(forall|j: int| 0 <= j < n && j != i ==> self.indexes@[j] == before[j]);
                assert(self.indexes@[i as int].0 == before[i as int].0);
            }
            assert(self@.indexes[i as int] == (self.indexes@[i as int].0@, self.indexes@[i as int].1@));
            assert forall|j: int| 0 <= j < n && j != i implies #[trigger] named_view(self.indexes@)[j]
                == named_view(before)[j] by {
                assert(named_view(self.indexes@)[j] == (self.indexes@[j].0@, self.indexes@[j].1@));
                assert(named_view(before)[j] == (before[j].0@, before[j].1@));
            }
            i = i + 1;
        }
        proof {
            let t = table_insert(t0, row@);
            assert(!(exists|i: int| 0 <= i < t0.indexes.len() && index_after_row(t0.indexes[i], row@, pk) is None));
            assert(self@.indexes =~= t.unwrap().indexes);
        }
        Ok(())
    }

    /// Adds the index `index` under the name `key`, in place of any index of
    /// that name, after it took in every row of the table in turn; a row
    /// that it refuses stays out of it.
    pub fn create_index(&mut self, key: String, index: Index)
        requires
            forall|j: int|
                0 <= j < old(self)@.rows.len() ==> assoc_get(#[trigger] old(self)@.rows[j].1, index@.key) is Some
                    && pk_of(old(self)@.rows[j].1, old(self)@.pk) is Some,
        ensures
            final(self)@ == (TableV {
                indexes: assoc_put(old(self)@.indexes, key@, fill_index(index@, old(self)@.rows, old(self)@.pk)),
                ..old(self)@
            }),
    {
        let ghost t0 = self@;
        let ghost i0 = index@;
        let mut index = index;
        let n = self.rows.len();
        let mut j: usize = 0;
        assert(t0.rows.take(0) =~= Seq::<(u64, ObjV)>::empty());
        while j < n
            invariant
                n == self.rows@.len(),
                n == t0.rows.len(),
                self@ == t0,
                j <= n,
                index@.key == i0.key,
                index@ == fill_index(i0, t0.rows.take(j as int), t0.pk),
                forall|j: int|
                    0 <= j < t0.rows.len() ==> assoc_get(#[trigger] t0.rows[j].1, i0.key) is Some
                        && pk_of(t0.rows[j].1, t0.pk) is Some,
            decreases n - j,
        {
            assert(t0.rows[j as int] == (self.rows@[j as int].0, self.rows@[j as int].1@));
            assert(assoc_get(t0.rows[j as int].1, i0.key) is Some);
            let pk_name = self.pk.clone();
            let copy = self.rows[j].1.deep_copy();
            let _ = index.insert_row(pk_name, copy);
            assert(t0.rows.take(j + 1).drop_last() =~= t0.rows.take(j as int));
            j = j + 1;
        }
        assert(t0.rows.take(n as int) =~= t0.rows);
        put_named(&mut self.indexes, key, index);
    }

    /// The primary keys that the index named `index_key` records for
    /// `value`.
    pub fn get_pks_by_index(&self, index_key: String, value: Json) -> (r: Result<Vec<u64>, String>)
        requires
            assoc_get(self@.indexes, index_key@) matches Some(idx) ==> assoc_get(idx.rows, value@) is Some,
        ensures
            match assoc_get(self@.indexes, index_key@) {
                Some(idx) => r matches Ok(pks) && Some(pks@) == assoc_get(idx.rows, value@),
                None => r matches Err(e) && e@ == index_not_found(index_key@),
            },
    {
        match find_named(&self.indexes, index_key.as_str()) {
            Some(i) => {
                match self.indexes[i].1.get_pks_by_value(value) {
                    Some(pks) => Ok(pks.clone()),
                    None => Ok(Vec::new()),
                }
            },
            None => Err(join_texts("Nothing found index not found: ", index_key.as_str())),
        }
    }

    /// For each primary key of `value`, in order, the row with that key.
    pub fn find_by_pks(&self, value: Vec<u64>) -> (r: Vec<Result<&Row, String>>)
        ensures
            r@.len() == value@.len(),
            forall|i: int|
                0 <= i < value@.len() ==> match #[trigger] r@[i] {
                    Ok(row) => assoc_get(self@.rows, value@[i]) == Some(row@),
                    Err(e) => assoc_get(self@.rows, value@[i]) is None && e@ == row_not_found(value@[i]),
                },
    {
        let mut out: Vec<Result<&Row, String>> = Vec::new();
        let n = value.len();
        let mut i: usize = 0;
        while i < n
            invariant
                n == value@.len(),
                i <= n,
                out@.len() == i,
                forall|k: int|
                    0 <= k < i ==> match #[trigger] out@[k] {
                        Ok(row) => assoc_get(self@.rows, value@[k]) == Some(row@),
                        Err(e) => assoc_get(self@.rows, value@[k]) is None && e@ == row_not_found(value@[k]),
                    },
            decreases n - i,
        {
            let found = self.find_by_pk(value[i]);
            out.push(found);
            i = i + 1;
        }
        out
    }

    /// The row with primary key `value`.
    pub fn find_by_pk(&self, value: u64) -> (r: Result<&Row, String>)
        ensures
            match r {
                Ok(row) => assoc_get(self@.rows, value) == Some(row@),
                Err(e) => assoc_get(self@.rows, value) is None && e@ == row_not_found(value),
            },
    {
        match self.find_row(value) {
            Some(i) => {
                proof {
                    lemma_assoc_get_at(self@.rows, value, i as int);
                }
                Ok(&self.rows[i].1)
            },
            None => {
                proof {
                    lemma_assoc_get_none(self@.rows, value);
                }
                let num = u64_to_decimal(value);
                let head = join_texts("Row with pk: ", num.as_str());
                Err(join_texts(head.as_str(), " not found!"))
            },
        }
    }
}

} // verus!
