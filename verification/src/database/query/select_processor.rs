use vstd::prelude::*;
use crate::assoc::assoc_get;
use crate::database::query::select_parser::{lemma_path_plain, parse_paths, texts, SelectParser};
use crate::database::relation::{
    decode_one_to_many, decode_one_to_one, foreign_row, OneToMany, OneToOne, RelationV,
};
use crate::database::row::Row;
use crate::database::table::TableV;
use crate::database::{db_table, Database};
use crate::json::{
    keys_sorted, lemma_key_lt_asymmetric, lemma_obj_get_insert, lemma_obj_insert_sorted, lemma_view_items, obj_insert,
    str_equal, view_items, Json, JsonMap, JsonV, ObjV,
};

verus! {

/// The JSON value of the rows that the link `value` points to through the
/// relation `rel`: the row itself for `one_to_one`, the array of the rows
/// for `one_to_many`; nothing where the link cannot be read, a row is
/// missing, or the relation is of another kind.
pub open spec fn linked_value(db: Seq<TableV>, rel: RelationV, value: JsonV) -> Option<JsonV> {
    if rel.variation == "one_to_one"@ {
        match decode_one_to_one(value) {
            Some(link) => match foreign_row(db, rel.table_name, link.foreign_id) {
                Some(r) => Some(JsonV::Object(r)),
                None => None,
            },
            None => None,
        }
    } else if rel.variation == "one_to_many"@ {
        match decode_one_to_many(value) {
            Some(link) => if forall|i: int|
                0 <= i < link.foreign_ids.len() ==> (#[trigger] foreign_row(
                    db,
                    rel.table_name,
                    link.foreign_ids[i],
                )) is Some {
                Some(
                    JsonV::Array(
                        Seq::new(
                            link.foreign_ids.len(),
                            |i: int|
                                JsonV::Object(
                                    foreign_row(db, rel.table_name, link.foreign_ids[i]).unwrap(),
                                ),
                        ),
                    ),
                )
            } else {
                None
            },
            None => None,
        }
    } else {
        None
    }
}

/// What the column `key` of the row `row` of the first table named
/// `table_name` links to: the name of the table that the link's relation
/// points into, and the JSON value of the linked rows. Nothing where the
/// table is missing, the column is missing or holds no object with a string
/// `relation_name`, the table has no relation of that name, or
/// `linked_value` gives nothing.
pub open spec fn resolved_relation(db: Seq<TableV>, table_name: Seq<char>, row: ObjV, key: Seq<char>) -> Option<
    (Seq<char>, JsonV),
> {
    match db_table(db, table_name) {
        None => None,
        Some(t) => match assoc_get(row, key) {
            Some(JsonV::Object(fields)) => match assoc_get(fields, "relation_name"@) {
                Some(JsonV::Str(rn)) => match assoc_get(t.relations, rn) {
                    Some(rel) => match linked_value(db, rel, JsonV::Object(fields)) {
                        Some(v) => Some((rel.table_name, v)),
                        None => None,
                    },
                    None => None,
                },
                _ => None,
            },
            _ => None,
        },
    }
}

/// The object that the selector `sel` takes from the row `row` of table
/// `table_name`, or nothing where `sel` is no object or one of its entries
/// fails.
pub open spec fn select_object(db: Seq<TableV>, table_name: Seq<char>, row: ObjV, sel: JsonV) -> Option<ObjV>
    decreases sel, 0int, 0int,
{
    match sel {
        JsonV::Object(entries) => select_entries(db, table_name, row, entries, entries.len() as int),
        _ => None,
    }
}

/// The object that the first `n` entries of a selector take from the row
/// `row`, in order: an entry `"*"` (any key whose value is the string `*`)
/// takes the whole row in place of what came before; an entry with another
/// string takes the column of its key; an entry with an object takes, under
/// its key, what that object selects from the rows that the column links
/// to. Nothing where the column is missing, the link cannot be followed, or
/// the value is neither a string nor an object.
pub open spec fn select_entries(db: Seq<TableV>, table_name: Seq<char>, row: ObjV, entries: ObjV, n: int) -> Option<
    ObjV,
>
    decreases entries, 0int, n,
{
    if n <= 0 {
        Some(Seq::empty())
    } else if n > entries.len() {
        None
    } else {
        match select_entries(db, table_name, row, entries, n - 1) {
            None => None,
            Some(out) => {
                let key = entries[n - 1].0;
                let value = entries[n - 1].1;
                match value {
                    JsonV::Object(_) => match select_linked(db, table_name, row, key, value) {
                        Some(v) => Some(obj_insert(out, key, v)),
                        None => None,
                    },
                    JsonV::Str(s) => if s == "*"@ {
                        Some(row)
                    } else {
                        match assoc_get(row, key) {
                            Some(v) => Some(obj_insert(out, key, v)),
                            None => None,
                        }
                    },
                    _ => None,
                }
            },
        }
    }
}

/// What the selector `sel` takes from the rows that the column `key` of the
/// row `row` links to: for an array of rows, the array of what it takes from
/// each (in the table that the relation points into); for one row, what it
/// takes from that row, the row taken as one of table `table_name`.
pub open spec fn select_linked(db: Seq<TableV>, table_name: Seq<char>, row: ObjV, key: Seq<char>, sel: JsonV) -> Option<
    JsonV,
>
    decreases sel, 2int, 0int,
{
    match resolved_relation(db, table_name, row, key) {
        None => None,
        Some((new_table, v)) => match v {
            JsonV::Array(items) => match select_rows(db, new_table, items, sel, items.len() as int) {
                Some(objs) => Some(JsonV::Array(objs)),
                None => None,
            },
            JsonV::Object(fr) => match select_object(db, table_name, fr, sel) {
                Some(o) => Some(JsonV::Object(o)),
                None => None,
            },
            _ => None,
        },
    }
}

/// What the selector `sel` takes from each of the first `m` of the rows
/// `items` of table `table_name`.
pub open spec fn select_rows(db: Seq<TableV>, table_name: Seq<char>, items: Seq<JsonV>, sel: JsonV, m: int) -> Option<
    Seq<JsonV>,
>
    decreases sel, 1int, m,
{
    if m <= 0 {
        Some(Seq::empty())
    } else if m > items.len() {
        None
    } else {
        match select_rows(db, table_name, items, sel, m - 1) {
            None => None,
            Some(done) => match items[m - 1] {
                JsonV::Object(r) => match select_object(db, table_name, r, sel) {
                    Some(o) => Some(done.push(JsonV::Object(o))),
                    None => None,
                },
                _ => None,
            },
        }
    }
}

/// What the paths `keys` select from the row `row` of table `table_name`.
pub open spec fn selection(db: Seq<TableV>, table_name: Seq<char>, row: ObjV, keys: Seq<Seq<char>>) -> Option<ObjV> {
    match parse_paths(keys) {
        Some(sel) => select_object(db, table_name, row, JsonV::Object(sel)),
        None => None,
    }
}

} // verus!

verus! {

proof fn lemma_select_entries_none(db: Seq<TableV>, table_name: Seq<char>, row: ObjV, entries: ObjV, i: int)
    requires
        0 <= i <= entries.len(),
        select_entries(db, table_name, row, entries, i) is None,
    ensures
        select_entries(db, table_name, row, entries, entries.len() as int) is None,
    decreases entries.len() - i,
{
    if i < entries.len() {
        lemma_select_entries_none(db, table_name, row, entries, i + 1);
    }
}

proof fn lemma_select_rows_none(db: Seq<TableV>, table_name: Seq<char>, items: Seq<JsonV>, sel: JsonV, i: int)
    requires
        0 <= i <= items.len(),
        select_rows(db, table_name, items, sel, i) is None,
    ensures
        select_rows(db, table_name, items, sel, items.len() as int) is None,
    decreases items.len() - i,
{
    if i < items.len() {
        lemma_select_rows_none(db, table_name, items, sel, i + 1);
    }
}

/// Whether the first table named `table_name` has a row with key `id`.
fn has_row(database: &Database, table_name: &String, id: u64) -> (r: bool)
    ensures
        r == foreign_row(database@, table_name@, id) is Some,
{
    match database.get_table(table_name.clone()) {
        Ok(t) => match t.find_by_pk(id) {
            Ok(_) => true,
            Err(_) => false,
        },
        Err(_) => false,
    }
}

/// The JSON values of the rows `rows`, in order.
fn rows_to_json(rows: Vec<Row>) -> (r: Vec<Json>)
    ensures
        r@.len() == rows@.len(),
        forall|i: int| 0 <= i < rows@.len() ==> (#[trigger] r@[i])@ == JsonV::Object(rows@[i]@),
{
    let ghost orig = rows@;
    let mut rows = rows;
    let mut out: Vec<Json> = Vec::new();
    let ghost mut k: int = 0;
    while rows.len() > 0
        invariant
            0 <= k <= orig.len(),
            rows@ == orig.skip(k),
            out@.len() == k,
            forall|i: int| 0 <= i < k ==> (#[trigger] out@[i])@ == JsonV::Object(orig[i]@),
        decreases rows@.len(),
    {
        let row = rows.remove(0);
        proof {
            assert(orig.skip(k)[0] == orig[k]);
        }
        out.push(Json::Object(row.columns));
        proof {
            assert(rows@ =~= orig.skip(k + 1));
            k = k + 1;
        }
    }
    out
}

/// What the column `key` of the row `row` links to, as `resolved_relation`
/// says.
pub(crate) fn resolve_link(database: &Database, table_name: &String, row: &JsonMap, key: &str) -> (r: Option<(String, Json)>)
    ensures
        match resolved_relation(database@, table_name@, row@, key@) {
            Some(p) => r matches Some(q) && q.0@ == p.0 && q.1@ == p.1,
            None => r is None,
        },
{
    let table = match database.get_table(table_name.clone()) {
        Ok(t) => t,
        Err(_) => return None,
    };
    let value = match row.get(key) {
        Some(v) => v,
        None => return None,
    };
    let fields = match value {
        Json::Object(f) => f,
        _ => return None,
    };
    let rn = match fields.get("relation_name") {
        Some(Json::Str(s)) => s.clone(),
        _ => return None,
    };
    let rel = match table.get_relation(&rn) {
        Ok(r) => r,
        Err(_) => return None,
    };
    if str_equal(rel.variation.as_str(), "one_to_one") {
        let link = match OneToOne::try_from_value(value) {
            Some(l) => l,
            None => return None,
        };
        if !has_row(database, &rel.table_name, link.get_id()) {
            return None;
        }
        match link.get(table_name.clone(), database) {
            Ok(r) => Some((rel.table_name.clone(), Json::Object(r.columns))),
            Err(_) => None,
        }
    } else if str_equal(rel.variation.as_str(), "one_to_many") {
        let link = match OneToMany::try_from_value(value) {
            Some(l) => l,
            None => return None,
        };
        let ids = link.get_ids();
        let n = ids.len();
        let mut i: usize = 0;
        #[verifier::loop_isolation(false)]
        while i < n
            invariant
                n == ids@.len(),
                ids@ == link@.foreign_ids,
                i <= n,
                forall|j: int| 0 <= j < i ==> (#[trigger] foreign_row(database@, rel@.table_name, ids@[j])) is Some,
            decreases n - i,
        {
            if !has_row(database, &rel.table_name, ids[i]) {
                return None;
            }
            i = i + 1;
        }
        match link.get(table_name.clone(), database) {
            Ok(rows) => {
                let ghost rv = rows@;
                let items = rows_to_json(rows);
                proof {
                    lemma_view_items(items@);
                    assert(view_items(items@) =~= Seq::new(
                        link@.foreign_ids.len(),
                        |i: int| JsonV::Object(foreign_row(database@, rel@.table_name, link@.foreign_ids[i]).unwrap()),
                    ));
                }
                Some((rel.table_name.clone(), Json::Array(items)))
            },
            Err(_) => None,
        }
    } else {
        None
    }
}

/// What the selector `sel` takes from the row `row` of table `table_name`,
/// as `select_entries` says.
fn recursive_traverse_resolver(database: &Database, table_name: &String, row: &JsonMap, sel: &JsonMap) -> (r: Option<JsonMap>)
    ensures
        match select_entries(database@, table_name@, row@, sel@, sel@.len() as int) {
            Some(o) => r matches Some(m) && m@ == o,
            None => r is None,
        },
    decreases sel, 0int,
{
    let n = sel.len();
    let mut out = JsonMap::new();
    let mut i: usize = 0;
    while i < n
        invariant
            n == sel@.len(),
            i <= n,
            select_entries(database@, table_name@, row@, sel@, i as int) == Some(out@),
        decreases n - i,
    {
        let key = sel.key_at(i);
        let value = sel.value_at(i);
        match value {
            Json::Object(sub) => {
                match resolve_foreign_relation(database, table_name, row, key.as_str(), sub) {
                    Some(v) => {
                        out.insert(key.clone(), v);
                    },
                    None => {
                        proof {
                            lemma_select_entries_none(database@, table_name@, row@, sel@, i + 1);
                        }
                        return None;
                    },
                }
            },
            Json::Str(s) => {
                if str_equal(s.as_str(), "*") {
                    out = row.deep_copy();
                } else {
                    match row.get(key.as_str()) {
                        Some(v) => {
                            out.insert(key.clone(), v.deep_copy());
                        },
                        None => {
                            proof {
                                lemma_select_entries_none(database@, table_name@, row@, sel@, i + 1);
                            }
                            return None;
                        },
                    }
                }
            },
            _ => {
                proof {
                    lemma_select_entries_none(database@, table_name@, row@, sel@, i + 1);
                }
                return None;
            },
        }
        i = i + 1;
    }
    Some(out)
}

/// What the selector `sub` takes from the rows that the column `key` of the
/// row `row` links to, as `select_linked` says.
fn resolve_foreign_relation(database: &Database, table_name: &String, row: &JsonMap, key: &str, sub: &JsonMap) -> (r: Option<Json>)
    ensures
        match select_linked(database@, table_name@, row@, key@, JsonV::Object(sub@)) {
            Some(v) => r matches Some(j) && j@ == v,
            None => r is None,
        },
    decreases sub, 1int,
{
    let (new_table, v) = match resolve_link(database, table_name, row, key) {
        Some(p) => p,
        None => return None,
    };
    match v {
        Json::Array(items) => {
            proof {
                lemma_view_items(items@);
            }
            let ghost iv = view_items(items@);
            let n = items.len();
            let mut out: Vec<Json> = Vec::new();
            let mut i: usize = 0;
            assert(select_rows(database@, new_table@, iv, JsonV::Object(sub@), 0) == Some(Seq::<JsonV>::empty()));
            proof {
                lemma_view_items(out@);
            }
            while i < n
                invariant
                    n == items@.len(),
                    n == iv.len(),
                    iv == view_items(items@),
                    forall|j: int| 0 <= j < n ==> #[trigger] iv[j] == items@[j]@,
                    i <= n,
                    out@.len() == i,
                    resolved_relation(database@, table_name@, row@, key@) == Some((new_table@, JsonV::Array(iv))),
                    select_rows(database@, new_table@, iv, JsonV::Object(sub@), i as int) == Some(view_items(out@)),
                decreases n - i,
            {
                match &items[i] {
                    Json::Object(m) => {
                        assert(iv[i as int] == JsonV::Object(m@));
                        assert(select_object(database@, new_table@, m@, JsonV::Object(sub@)) == select_entries(
                            database@,
                            new_table@,
                            m@,
                            sub@,
                            sub@.len() as int,
                        ));
                        match recursive_traverse_resolver(database, &new_table, m, sub) {
                            Some(o) => {
                                let ghost before = out@;
                                out.push(Json::Object(o));
                                proof {
                                    lemma_view_items(before);
                                    lemma_view_items(out@);
                                    assert(view_items(out@) =~= view_items(before).push(out@[i as int]@));
                                }
                            },
                            None => {
                                proof {
                                    lemma_select_rows_none(database@, new_table@, iv, JsonV::Object(sub@), i + 1);
                                }
                                return None;
                            },
                        }
                    },
                    _ => {
                        proof {
                            lemma_select_rows_none(database@, new_table@, iv, JsonV::Object(sub@), i + 1);
                        }
                        return None;
                    },
                }
                i = i + 1;
            }
            Some(Json::Array(out))
        },
        Json::Object(fr) => {
            match recursive_traverse_resolver(database, table_name, &fr, sub) {
                Some(o) => Some(Json::Object(o)),
                None => None,
            }
        },
        _ => None,
    }
}

} // verus!

verus! {

/// Takes columns from a row, and from the rows that its links lead to.
pub struct SelectProcessor {}

impl SelectProcessor {
    /// What the paths `select` take from the row `row` of table
    /// `table_name`, where every path can be followed.
    pub fn try_selector(database: &Database, table_name: &String, row: &Row, select: &Vec<&str>) -> (r:
        Option<JsonMap>)
        ensures
            match selection(database@, table_name@, row@, texts(select@)) {
                Some(o) => r matches Some(m) && m@ == o,
                None => r is None,
            },
    {
        match SelectParser::try_parse_selector(select) {
            Some(sel) => recursive_traverse_resolver(database, table_name, &row.columns, &sel),
            None => None,
        }
    }

    /// What the paths `select` take from the row `row` of table
    /// `table_name`: a path names a column, `a.b` names the column `b` of
    /// the rows that column `a` links to, and `*` names every column.
    pub fn selector(database: &Database, table_name: &String, row: &Row, select: Vec<&str>) -> (r: JsonMap)
        requires
            selection(database@, table_name@, row@, texts(select@)) is Some,
        ensures
            r@ == selection(database@, table_name@, row@, texts(select@)).unwrap(),
    {
        match SelectProcessor::try_selector(database, table_name, row, &select) {
            Some(m) => m,
            None => JsonMap::new(),
        }
    }

    /// What the column `key` of the row `row` of table `table_name` links
    /// to: the name of the table that the relation points into, and the
    /// linked row (or array of rows).
    pub fn resolve_relation(database: &Database, table_name: &String, row: &Row, key: &String) -> (r: (
        String,
        Json,
    ))
        requires
            resolved_relation(database@, table_name@, row@, key@) is Some,
        ensures
            (r.0@, r.1@) == resolved_relation(database@, table_name@, row@, key@).unwrap(),
    {
        match resolve_link(database, table_name, &row.columns, key.as_str()) {
            Some(p) => p,
            None => (String::new(), Json::Null),
        }
    }
}

} // verus!

verus! {

/// The path `*` alone selects the whole row.
pub proof fn lemma_select_star(db: Seq<TableV>, table_name: Seq<char>, row: ObjV)
    ensures
        selection(db, table_name, row, seq!["*"@]) == Some(row),
{
    reveal_strlit("*");
    lemma_path_plain("*"@);
    let sel = seq![("*"@, JsonV::Str("*"@))];
    assert(select_entries(db, table_name, row, sel, 0) == Some(Seq::<(Seq<char>, JsonV)>::empty()));
}

/// A path without a dot, other than `*`, selects the column of its name, and
/// fails where the row lacks that column.
pub proof fn lemma_select_column(db: Seq<TableV>, table_name: Seq<char>, row: ObjV, k: Seq<char>)
    requires
        forall|i: int| 0 <= i < k.len() ==> k[i] != '.',
        k != "*"@,
    ensures
        selection(db, table_name, row, seq![k]) == (match assoc_get(row, k) {
            Some(v) => Some(seq![(k, v)]),
            None => None,
        }),
{
    lemma_path_plain(k);
    let sel = seq![(k, JsonV::Str(k))];
    assert(select_entries(db, table_name, row, sel, 0) == Some(Seq::<(Seq<char>, JsonV)>::empty()));
    if let Some(v) = assoc_get(row, k) {
        assert(obj_insert(Seq::<(Seq<char>, JsonV)>::empty(), k, v) == seq![(k, v)]);
    }
}

} // verus!

verus! {

/// Where a column links through a `one_to_many` relation, what it resolves
/// to is the table that the relation points into and the array of the rows
/// whose keys the link lists, in the order that the link lists them.
pub proof fn lemma_resolved_one_to_many(db: Seq<TableV>, table_name: Seq<char>, row: ObjV, key: Seq<char>)
    requires
        resolved_relation(db, table_name, row, key) is Some,
        decode_one_to_many(assoc_get(row, key).unwrap()) is Some,
        assoc_get(
            db_table(db, table_name).unwrap().relations,
            decode_one_to_many(assoc_get(row, key).unwrap()).unwrap().relation_name,
        ) matches Some(rel) && rel.variation == "one_to_many"@,
    ensures
        ({
            let link = decode_one_to_many(assoc_get(row, key).unwrap()).unwrap();
            let rel = assoc_get(db_table(db, table_name).unwrap().relations, link.relation_name).unwrap();
            let (tn, v) = resolved_relation(db, table_name, row, key).unwrap();
            &&& tn == rel.table_name
            &&& v is Array
            &&& v->Array_0.len() == link.foreign_ids.len()
            &&& forall|i: int|
                0 <= i < link.foreign_ids.len() ==> Some(#[trigger] v->Array_0[i]) == (match foreign_row(
                    db,
                    rel.table_name,
                    link.foreign_ids[i],
                ) {
                    Some(r) => Some(JsonV::Object(r)),
                    None => None,
                })
        }),
{
    reveal_strlit("one_to_many");
    reveal_strlit("one_to_one");
    assert("one_to_many"@ != "one_to_one"@) by {
        assert("one_to_many"@[7] != "one_to_one"@[7]);
    }
}

/// Where a column links through a `one_to_one` relation, what it resolves
/// to is the table that the relation points into and the row whose key the
/// link holds.
pub proof fn lemma_resolved_one_to_one(db: Seq<TableV>, table_name: Seq<char>, row: ObjV, key: Seq<char>)
    requires
        resolved_relation(db, table_name, row, key) is Some,
        decode_one_to_one(assoc_get(row, key).unwrap()) is Some,
        assoc_get(
            db_table(db, table_name).unwrap().relations,
            decode_one_to_one(assoc_get(row, key).unwrap()).unwrap().relation_name,
        ) matches Some(rel) && rel.variation == "one_to_one"@,
    ensures
        ({
            let link = decode_one_to_one(assoc_get(row, key).unwrap()).unwrap();
            let rel = assoc_get(db_table(db, table_name).unwrap().relations, link.relation_name).unwrap();
            resolved_relation(db, table_name, row, key) == Some(
                (rel.table_name, JsonV::Object(foreign_row(db, rel.table_name, link.foreign_id).unwrap())),
            )
        }),
{
}

/// What a selector takes from a list of rows is, at each position, what it
/// takes from the row at that position, and it takes something exactly
/// where every row is an object from which it takes something.
pub proof fn lemma_select_rows_each(db: Seq<TableV>, table_name: Seq<char>, items: Seq<JsonV>, sel: JsonV, m: int)
    requires
        0 <= m <= items.len(),
    ensures
        (select_rows(db, table_name, items, sel, m) is Some) <==> (forall|i: int|
            0 <= i < m ==> (#[trigger] items[i] is Object && select_object(
                db,
                table_name,
                items[i]->Object_0,
                sel,
            ) is Some)),
        select_rows(db, table_name, items, sel, m) matches Some(res) ==> res.len() == m && forall|i: int|
            0 <= i < m ==> (#[trigger] res[i]) == JsonV::Object(
                select_object(db, table_name, items[i]->Object_0, sel).unwrap(),
            ),
    decreases m,
{
    if m > 0 {
        lemma_select_rows_each(db, table_name, items, sel, m - 1);
    }
}

/// For a column linked to many rows, the selection under it is the array of
/// what the sub-selector takes from each linked row, in the order of the
/// link, each taken as a row of the table that the relation points into.
pub proof fn lemma_select_linked_many(db: Seq<TableV>, table_name: Seq<char>, row: ObjV, key: Seq<char>, sel: JsonV)
    requires
        resolved_relation(db, table_name, row, key) matches Some((_, v)) && v is Array,
    ensures
        ({
            let (tn, v) = resolved_relation(db, table_name, row, key).unwrap();
            let items = v->Array_0;
            match select_linked(db, table_name, row, key, sel) {
                Some(r) => r is Array && r->Array_0.len() == items.len() && forall|i: int|
                    0 <= i < items.len() ==> #[trigger] r->Array_0[i] == JsonV::Object(
                        select_object(db, tn, items[i]->Object_0, sel).unwrap(),
                    ) && items[i] is Object,
                None => exists|i: int|
                    0 <= i < items.len() && !(#[trigger] items[i] is Object && select_object(
                        db,
                        tn,
                        items[i]->Object_0,
                        sel,
                    ) is Some),
            }
        }),
{
    let (tn, v) = resolved_relation(db, table_name, row, key).unwrap();
    let items = v->Array_0;
    lemma_select_rows_each(db, tn, items, sel, items.len() as int);
}

/// For a column linked to one row, the selection under it is what the
/// sub-selector takes from that row.
pub proof fn lemma_select_linked_one(db: Seq<TableV>, table_name: Seq<char>, row: ObjV, key: Seq<char>, sel: JsonV)
    requires
        resolved_relation(db, table_name, row, key) matches Some((_, v)) && v is Object,
    ensures
        select_linked(db, table_name, row, key, sel) == (match select_object(
            db,
            table_name,
            resolved_relation(db, table_name, row, key).unwrap().1->Object_0,
            sel,
        ) {
            Some(o) => Some(JsonV::Object(o)),
            None => None,
        }),
{
}

proof fn lemma_select_entries_columns(db: Seq<TableV>, table_name: Seq<char>, row: ObjV, entries: ObjV, n: int)
    requires
        0 <= n <= entries.len(),
        keys_sorted(entries),
        forall|j: int| 0 <= j < entries.len() ==> (#[trigger] entries[j]).1 != JsonV::Str("*"@),
    ensures
        select_entries(db, table_name, row, entries, n) matches Some(o) ==> {
            &&& keys_sorted(o)
            &&& forall|j: int|
                0 <= j < n ==> assoc_get(o, #[trigger] entries[j].0) is Some && (entries[j].1 is Str
                    ==> assoc_get(o, entries[j].0) == assoc_get(row, entries[j].0))
        },
    decreases n,
{
    if n > 0 {
        lemma_select_entries_columns(db, table_name, row, entries, n - 1);
        if let Some(o) = select_entries(db, table_name, row, entries, n) {
            let out = select_entries(db, table_name, row, entries, n - 1).unwrap();
            let k = entries[n - 1].0;
            let v = match entries[n - 1].1 {
                JsonV::Object(_) => select_linked(db, table_name, row, k, entries[n - 1].1).unwrap(),
                _ => assoc_get(row, k).unwrap(),
            };
            assert(o == obj_insert(out, k, v));
            lemma_obj_insert_sorted(out, k, v);
            assert forall|j: int|
                0 <= j < n implies assoc_get(o, #[trigger] entries[j].0) is Some && (entries[j].1 is Str
                    ==> assoc_get(o, entries[j].0) == assoc_get(row, entries[j].0)) by {
                lemma_obj_get_insert(out, k, v, entries[j].0);
                if j < n - 1 {
                    lemma_key_lt_asymmetric(entries[j].0, k);
                }
            }
        }
    } else {
        assert(keys_sorted(Seq::<(Seq<char>, JsonV)>::empty()));
    }
}

/// A selector that names no `*` takes, from a row, an object that holds each
/// of its keys; under a key with a string value it holds the row's column of
/// that name.
pub proof fn lemma_select_object_columns(db: Seq<TableV>, table_name: Seq<char>, row: ObjV, entries: ObjV)
    requires
        keys_sorted(entries),
        forall|j: int| 0 <= j < entries.len() ==> (#[trigger] entries[j]).1 != JsonV::Str("*"@),
        select_object(db, table_name, row, JsonV::Object(entries)) is Some,
    ensures
        forall|j: int|
            0 <= j < entries.len() ==> assoc_get(
                select_object(db, table_name, row, JsonV::Object(entries)).unwrap(),
                #[trigger] entries[j].0,
            ) is Some && (entries[j].1 is Str ==> assoc_get(
                select_object(db, table_name, row, JsonV::Object(entries)).unwrap(),
                entries[j].0,
            ) == assoc_get(row, entries[j].0)),
{
    lemma_select_entries_columns(db, table_name, row, entries, entries.len() as int);
}

} // verus!

verus! {

/// For a column linked through a `one_to_many` relation, the selection under
/// it is the array whose `i`-th element is what the sub-selector takes from
/// the row whose key is the link's `i`-th foreign id, and it exists exactly
/// where the sub-selector takes something from each of those rows.
pub proof fn lemma_select_linked_foreign_ids(
    db: Seq<TableV>,
    table_name: Seq<char>,
    row: ObjV,
    key: Seq<char>,
    sel: JsonV,
)
    requires
        resolved_relation(db, table_name, row, key) is Some,
        decode_one_to_many(assoc_get(row, key).unwrap()) is Some,
        assoc_get(
            db_table(db, table_name).unwrap().relations,
            decode_one_to_many(assoc_get(row, key).unwrap()).unwrap().relation_name,
        ) matches Some(rel) && rel.variation == "one_to_many"@,
    ensures
        ({
            let link = decode_one_to_many(assoc_get(row, key).unwrap()).unwrap();
            let rel = assoc_get(db_table(db, table_name).unwrap().relations, link.relation_name).unwrap();
            let ids = link.foreign_ids;
            &&& (select_linked(db, table_name, row, key, sel) is Some <==> forall|i: int|
                0 <= i < ids.len() ==> select_object(
                    db,
                    rel.table_name,
                    #[trigger] foreign_row(db, rel.table_name, ids[i]).unwrap(),
                    sel,
                ) is Some)
            &&& select_linked(db, table_name, row, key, sel) matches Some(r) ==> r is Array
                && r->Array_0.len() == ids.len() && forall|i: int|
                0 <= i < ids.len() ==> #[trigger] r->Array_0[i] == JsonV::Object(
                    select_object(db, rel.table_name, foreign_row(db, rel.table_name, ids[i]).unwrap(), sel).unwrap(),
                )
        }),
{
    lemma_resolved_one_to_many(db, table_name, row, key);
    let link = decode_one_to_many(assoc_get(row, key).unwrap()).unwrap();
    let rel = assoc_get(db_table(db, table_name).unwrap().relations, link.relation_name).unwrap();
    let (tn, v) = resolved_relation(db, table_name, row, key).unwrap();
    let items = v->Array_0;
    lemma_select_rows_each(db, tn, items, sel, items.len() as int);
    assert forall|i: int| 0 <= i < items.len() implies #[trigger] items[i] == JsonV::Object(
        foreign_row(db, rel.table_name, link.foreign_ids[i]).unwrap(),
    ) by {
        assert(Some(items[i]) == (match foreign_row(db, rel.table_name, link.foreign_ids[i]) {
            Some(r) => Some(JsonV::Object(r)),
            None => None,
        }));
    }
    assert(tn == rel.table_name);
    let ids = link.foreign_ids;
    assert forall|i: int| 0 <= i < ids.len() implies (#[trigger] items[i])->Object_0 == foreign_row(
        db,
        rel.table_name,
        ids[i],
    ).unwrap() && items[i] is Object by {
        assert(items[i] == JsonV::Object(foreign_row(db, rel.table_name, ids[i]).unwrap()));
    }
    if select_linked(db, table_name, row, key, sel) is Some {
        assert forall|i: int| 0 <= i < ids.len() implies select_object(
            db,
            rel.table_name,
            #[trigger] foreign_row(db, rel.table_name, ids[i]).unwrap(),
            sel,
        ) is Some by {
            assert(items[i]->Object_0 == foreign_row(db, rel.table_name, ids[i]).unwrap());
        }
    }
    if forall|i: int|
        0 <= i < ids.len() ==> select_object(
            db,
            rel.table_name,
            #[trigger] foreign_row(db, rel.table_name, ids[i]).unwrap(),
            sel,
        ) is Some {
        assert forall|i: int| 0 <= i < items.len() implies (#[trigger] items[i] is Object && select_object(
            db,
            tn,
            items[i]->Object_0,
            sel,
        ) is Some) by {
            assert(select_object(db, rel.table_name, foreign_row(db, rel.table_name, ids[i]).unwrap(), sel) is Some);
        }
    }
}

/// For a column linked to one row, a selector that names no `*` takes from
/// the link an object that holds each of its keys; under a key with a string
/// value it holds the linked row's column of that name.
pub proof fn lemma_select_linked_one_columns(
    db: Seq<TableV>,
    table_name: Seq<char>,
    row: ObjV,
    key: Seq<char>,
    entries: ObjV,
)
    requires
        resolved_relation(db, table_name, row, key) matches Some((_, v)) && v is Object,
        keys_sorted(entries),
        forall|j: int| 0 <= j < entries.len() ==> (#[trigger] entries[j]).1 != JsonV::Str("*"@),
        select_linked(db, table_name, row, key, JsonV::Object(entries)) is Some,
    ensures
        ({
            let linked = resolved_relation(db, table_name, row, key).unwrap().1->Object_0;
            let r = select_linked(db, table_name, row, key, JsonV::Object(entries)).unwrap();
            &&& r is Object
            &&& forall|j: int|
                0 <= j < entries.len() ==> assoc_get(r->Object_0, #[trigger] entries[j].0) is Some && (
                entries[j].1 is Str ==> assoc_get(r->Object_0, entries[j].0) == assoc_get(linked, entries[j].0))
        }),
{
    lemma_select_linked_one(db, table_name, row, key, JsonV::Object(entries));
    let linked = resolved_relation(db, table_name, row, key).unwrap().1->Object_0;
    lemma_select_object_columns(db, table_name, linked, entries);
}

} // verus!
