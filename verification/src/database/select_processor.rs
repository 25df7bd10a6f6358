use vstd::prelude::*;
use vstd::string::*;
use crate::assoc::assoc_get;
use crate::database::query::select_parser::{parse_paths, texts, SelectParser};
use crate::database::query::select_processor::{lemma_resolved_one_to_many, resolve_link, resolved_relation};
use crate::database::relation::{decode_one_to_many, foreign_row};
use crate::database::row::Row;
use crate::database::table::TableV;
use crate::database::{db_table, Database};
use crate::json::{lemma_view_items, obj_insert, str_equal, view_items, Json, JsonMap, JsonV, ObjV};

verus! {

/// A key made only of lower-case ASCII letters and underscores.
pub open spec fn valid_key(key: Seq<char>) -> bool {
    forall|i: int| 0 <= i < key.len() ==> ('a' <= #[trigger] key[i] <= 'z' || key[i] == '_')
}

/// The object that the selector `sel` takes from the row `row`, where links
/// are followed without leaving table `table_name`: for an array of linked
/// rows, what `sel` takes from each of them; for one linked row, what `sel`
/// takes from `row` itself.
pub open spec fn local_select_object(db: Seq<TableV>, table_name: Seq<char>, row: ObjV, sel: JsonV) -> Option<
    ObjV,
>
    decreases sel, 0int, 0int,
{
    match sel {
        JsonV::Object(entries) => local_select_entries(db, table_name, row, entries, entries.len() as int),
        _ => None,
    }
}

/// The object that the first `n` entries of a selector take from the row
/// `row`, in order, as `local_select_object` says: `"*"` takes the whole
/// row, another string the column of its key, an object what it selects
/// from the linked rows.
pub open spec fn local_select_entries(db: Seq<TableV>, table_name: Seq<char>, row: ObjV, entries: ObjV, n: int) -> Option<
    ObjV,
>
    decreases entries, 0int, n,
{
    if n <= 0 {
        Some(Seq::empty())
    } else if n > entries.len() {
        None
    } else {
        match local_select_entries(db, table_name, row, entries, n - 1) {
            None => None,
            Some(out) => {
                let key = entries[n - 1].0;
                let value = entries[n - 1].1;
                match value {
                    JsonV::Object(_) => match local_select_linked(db, table_name, row, key, value) {
                        Some(v) => Some(obj_insert(out, key, v)),
                        None => None,
                    },
                    JsonV::Str(s) => if s == "*"@ {
                        Some(row)
                    } else {
                        match assoc_get(row, key) {
                            Some(v) => Some(obj_insert(out, key, v)),
                            None => None,
                        }
                    },
                    _ => None,
                }
            },
        }
    }
}

/// What the selector `sel` takes where the column `key` of the row `row`
/// links: an array of what it takes from each linked row, or, for one
/// linked row, what it takes from `row`.
pub open spec fn local_select_linked(db: Seq<TableV>, table_name: Seq<char>, row: ObjV, key: Seq<char>, sel: JsonV) -> Option<
    JsonV,
>
    decreases sel, 2int, 0int,
{
    match resolved_relation(db, table_name, row, key) {
        None => None,
        Some((_, v)) => match v {
            JsonV::Array(items) => match local_select_rows(db, table_name, items, sel, items.len() as int) {
                Some(objs) => Some(JsonV::Array(objs)),
                None => None,
            },
            _ => match local_select_object(db, table_name, row, sel) {
                Some(o) => Some(JsonV::Object(o)),
                None => None,
            },
        },
    }
}

/// What the selector `sel` takes from each of the first `m` of the rows
/// `items`.
pub open spec fn local_select_rows(db: Seq<TableV>, table_name: Seq<char>, items: Seq<JsonV>, sel: JsonV, m: int) -> Option<
    Seq<JsonV>,
>
    decreases sel, 1int, m,
{
    if m <= 0 {
        Some(Seq::empty())
    } else if m > items.len() {
        None
    } else {
        match local_select_rows(db, table_name, items, sel, m - 1) {
            None => None,
            Some(done) => match items[m - 1] {
                JsonV::Object(r) => match local_select_object(db, table_name, r, sel) {
                    Some(o) => Some(done.push(JsonV::Object(o))),
                    None => None,
                },
                _ => None,
            },
        }
    }
}

/// What the paths `keys` select from the row `row`, as
/// `local_select_object` says.
pub open spec fn local_selection(db: Seq<TableV>, table_name: Seq<char>, row: ObjV, keys: Seq<Seq<char>>) -> Option<
    ObjV,
> {
    match parse_paths(keys) {
        Some(sel) => local_select_object(db, table_name, row, JsonV::Object(sel)),
        None => None,
    }
}

proof fn lemma_local_entries_none(db: Seq<TableV>, table_name: Seq<char>, row: ObjV, entries: ObjV, i: int)
    requires
        0 <= i <= entries.len(),
        local_select_entries(db, table_name, row, entries, i) is None,
    ensures
        local_select_entries(db, table_name, row, entries, entries.len() as int) is None,
    decreases entries.len() - i,
{
    if i < entries.len() {
        lemma_local_entries_none(db, table_name, row, entries, i + 1);
    }
}

proof fn lemma_local_rows_none(db: Seq<TableV>, table_name: Seq<char>, items: Seq<JsonV>, sel: JsonV, i: int)
    requires
        0 <= i <= items.len(),
        local_select_rows(db, table_name, items, sel, i) is None,
    ensures
        local_select_rows(db, table_name, items, sel, items.len() as int) is None,
    decreases items.len() - i,
{
    if i < items.len() {
        lemma_local_rows_none(db, table_name, items, sel, i + 1);
    }
}

/// What the selector `sel` takes from the row `row`, as
/// `local_select_entries` says.
fn recursive_traverse_resolver(database: &Database, table_name: &String, row: &JsonMap, sel: &JsonMap) -> (r:
    Option<JsonMap>)
    ensures
        match local_select_entries(database@, table_name@, row@, sel@, sel@.len() as int) {
            Some(o) => r matches Some(m) && m@ == o,
            None => r is None,
        },
    decreases sel, 0int,
{
    let n = sel.len();
    let mut out = JsonMap::new();
    let mut i: usize = 0;
    while i < n
        invariant
            n == sel@.len(),
            i <= n,
            local_select_entries(database@, table_name@, row@, sel@, i as int) == Some(out@),
        decreases n - i,
    {
        let key = sel.key_at(i);
        let value = sel.value_at(i);
        match value {
            Json::Object(sub) => {
                match select_linked_rows(database, table_name, row, key.as_str(), sub) {
                    Some(v) => {
                        out.insert(key.clone(), v);
                    },
                    None => {
                        proof {
                            lemma_local_entries_none(database@, table_name@, row@, sel@, i + 1);
                        }
                        return None;
                    },
                }
            },
            Json::Str(s) => {
                if str_equal(s.as_str(), "*") {
                    out = row.deep_copy();
                } else {
                    match row.get(key.as_str()) {
                        Some(v) => {
                            out.insert(key.clone(), v.deep_copy());
                        },
                        None => {
                            proof {
                                lemma_local_entries_none(database@, table_name@, row@, sel@, i + 1);
                            }
                            return None;
                        },
                    }
                }
            },
            _ => {
                proof {
                    lemma_local_entries_none(database@, table_name@, row@, sel@, i + 1);
                }
                return None;
            },
        }
        i = i + 1;
    }
    Some(out)
}

/// What the selector `sub` takes where the column `key` of the row `row`
/// links, as `local_select_linked` says.
fn select_linked_rows(database: &Database, table_name: &String, row: &JsonMap, key: &str, sub: &JsonMap) -> (r:
    Option<Json>)
    ensures
        match local_select_linked(database@, table_name@, row@, key@, JsonV::Object(sub@)) {
            Some(v) => r matches Some(j) && j@ == v,
            None => r is None,
        },
    decreases sub, 1int,
{
    let (_, v) = match resolve_link(database, table_name, row, key) {
        Some(p) => p,
        None => return None,
    };
    match v {
        Json::Array(items) => {
            proof {
                lemma_view_items(items@);
            }
            let ghost iv = view_items(items@);
            let n = items.len();
            let mut out: Vec<Json> = Vec::new();
            let mut i: usize = 0;
            proof {
                lemma_view_items(out@);
            }
            while i < n
                invariant
                    n == items@.len(),
                    n == iv.len(),
                    iv == view_items(items@),
                    forall|j: int| 0 <= j < n ==> #[trigger] iv[j] == items@[j]@,
                    i <= n,
                    out@.len() == i,
                    resolved_relation(database@, table_name@, row@, key@) matches Some(p) && p.1 == JsonV::Array(iv),
                    local_select_rows(database@, table_name@, iv, JsonV::Object(sub@), i as int) == Some(
                        view_items(out@),
                    ),
                decreases n - i,
            {
                match &items[i] {
                    Json::Object(m) => {
                        assert(iv[i as int] == JsonV::Object(m@));
                        assert(local_select_object(database@, table_name@, m@, JsonV::Object(sub@))
                            == local_select_entries(database@, table_name@, m@, sub@, sub@.len() as int));
                        match recursive_traverse_resolver(database, table_name, m, sub) {
                            Some(o) => {
                                let ghost before = out@;
                                out.push(Json::Object(o));
                                proof {
                                    lemma_view_items(before);
                                    lemma_view_items(out@);
                                    assert(view_items(out@) =~= view_items(before).push(out@[i as int]@));
                                }
                            },
                            None => {
                                proof {
                                    lemma_local_rows_none(database@, table_name@, iv, JsonV::Object(sub@), i + 1);
                                }
                                return None;
                            },
                        }
                    },
                    _ => {
                        proof {
                            lemma_local_rows_none(database@, table_name@, iv, JsonV::Object(sub@), i + 1);
                        }
                        return None;
                    },
                }
                i = i + 1;
            }
            Some(Json::Array(out))
        },
        _ => {
            match recursive_traverse_resolver(database, table_name, row, sub) {
                Some(o) => Some(Json::Object(o)),
                None => None,
            }
        },
    }
}

/// Parses selector paths and takes columns from rows, following links
/// within the row's own table.
pub struct SelectProcessor {}

impl SelectProcessor {
    /// What the paths `select` take from the row `row` of table
    /// `table_name`, as `local_selection` says, where every path can be
    /// followed.
    pub fn try_selector(database: &Database, table_name: &String, row: &Row, select: &Vec<&str>) -> (r:
        Option<JsonMap>)
        ensures
            match local_selection(database@, table_name@, row@, texts(select@)) {
                Some(o) => r matches Some(m) && m@ == o,
                None => r is None,
            },
    {
        match SelectParser::try_parse_selector(select) {
            Some(sel) => recursive_traverse_resolver(database, table_name, &row.columns, &sel),
            None => None,
        }
    }

    /// What the paths `select` take from the row `row` of table
    /// `table_name`, as `local_selection` says.
    pub fn selector(database: &Database, table_name: &String, row: &Row, select: Vec<&str>) -> (r: JsonMap)
        requires
            local_selection(database@, table_name@, row@, texts(select@)) is Some,
        ensures
            r@ == local_selection(database@, table_name@, row@, texts(select@)).unwrap(),
    {
        match SelectProcessor::try_selector(database, table_name, row, &select) {
            Some(m) => m,
            None => JsonMap::new(),
        }
    }

    /// The linked row, or array of rows, that the column `key` of the row
    /// `row` of table `table_name` links to.
    pub fn resolve_relation(database: &Database, table_name: &String, row: &Row, key: &String) -> (r: Json)
        requires
            resolved_relation(database@, table_name@, row@, key@) is Some,
        ensures
            r@ == resolved_relation(database@, table_name@, row@, key@).unwrap().1,
    {
        match resolve_link(database, table_name, &row.columns, key.as_str()) {
            Some(p) => p.1,
            None => Json::Null,
        }
    }

    /// Whether `key` is made only of lower-case ASCII letters and
    /// underscores.
    pub fn is_valid_key(key: &str) -> (r: bool)
        ensures
            r == valid_key(key@),
    {
        let n = key.unicode_len();
        let mut i: usize = 0;
        while i < n
            invariant
                n == key@.len(),
                i <= n,
                forall|j: int| 0 <= j < i ==> ('a' <= #[trigger] key@[j] <= 'z' || key@[j] == '_'),
            decreases n - i,
        {
            let c = key.get_char(i);
            if !(('a' <= c && c <= 'z') || c == '_') {
                return false;
            }
            i = i + 1;
        }
        true
    }

    /// The selector that the paths `node` make, as
    /// `SelectParser::parse_selector_recursive` makes it.
    pub fn parse_node(node: Vec<&str>) -> (r: Json)
        requires
            parse_paths(texts(node@)) is Some,
        ensures
            r@ == JsonV::Object(parse_paths(texts(node@)).unwrap()),
    {
        SelectParser::parse_selector_recursive(node)
    }
}

} // verus!

verus! {

/// What the selector takes from a list of rows is, at each position, what it
/// takes from the row at that position, and it takes something exactly
/// where every row is an object from which it takes something.
pub proof fn lemma_local_select_rows_each(db: Seq<TableV>, table_name: Seq<char>, items: Seq<JsonV>, sel: JsonV, m: int)
    requires
        0 <= m <= items.len(),
    ensures
        (local_select_rows(db, table_name, items, sel, m) is Some) <==> (forall|i: int|
            0 <= i < m ==> (#[trigger] items[i] is Object && local_select_object(
                db,
                table_name,
                items[i]->Object_0,
                sel,
            ) is Some)),
        local_select_rows(db, table_name, items, sel, m) matches Some(res) ==> res.len() == m && forall|i: int|
            0 <= i < m ==> (#[trigger] res[i]) == JsonV::Object(
                local_select_object(db, table_name, items[i]->Object_0, sel).unwrap(),
            ),
    decreases m,
{
    if m > 0 {
        lemma_local_select_rows_each(db, table_name, items, sel, m - 1);
    }
}

/// For a column linked through a `one_to_many` relation, the selection under
/// it is the array whose `i`-th element is what the sub-selector takes from
/// the row whose key is the link's `i`-th foreign id, and it exists exactly
/// where the sub-selector takes something from each of those rows.
pub proof fn lemma_local_select_linked_foreign_ids(
    db: Seq<TableV>,
    table_name: Seq<char>,
    row: ObjV,
    key: Seq<char>,
    sel: JsonV,
)
    requires
        resolved_relation(db, table_name, row, key) is Some,
        decode_one_to_many(assoc_get(row, key).unwrap()) is Some,
        assoc_get(
            db_table(db, table_name).unwrap().relations,
            decode_one_to_many(assoc_get(row, key).unwrap()).unwrap().relation_name,
        ) matches Some(rel) && rel.variation == "one_to_many"@,
    ensures
        ({
            let link = decode_one_to_many(assoc_get(row, key).unwrap()).unwrap();
            let rel = assoc_get(db_table(db, table_name).unwrap().relations, link.relation_name).unwrap();
            let ids = link.foreign_ids;
            &&& (local_select_linked(db, table_name, row, key, sel) is Some <==> forall|i: int|
                0 <= i < ids.len() ==> local_select_object(
                    db,
                    table_name,
                    #[trigger] foreign_row(db, rel.table_name, ids[i]).unwrap(),
                    sel,
                ) is Some)
            &&& local_select_linked(db, table_name, row, key, sel) matches Some(r) ==> r is Array
                && r->Array_0.len() == ids.len() && forall|i: int|
                0 <= i < ids.len() ==> #[trigger] r->Array_0[i] == JsonV::Object(
                    local_select_object(db, table_name, foreign_row(db, rel.table_name, ids[i]).unwrap(), sel).unwrap(),
                )
        }),
{
    lemma_resolved_one_to_many(db, table_name, row, key);
    let link = decode_one_to_many(assoc_get(row, key).unwrap()).unwrap();
    let rel = assoc_get(db_table(db, table_name).unwrap().relations, link.relation_name).unwrap();
    let (tn, v) = resolved_relation(db, table_name, row, key).unwrap();
    let items = v->Array_0;
    let ids = link.foreign_ids;
    lemma_local_select_rows_each(db, table_name, items, sel, items.len() as int);
    assert forall|i: int| 0 <= i < ids.len() implies (#[trigger] items[i])->Object_0 == foreign_row(
        db,
        rel.table_name,
        ids[i],
    ).unwrap() && items[i] is Object by {
        assert(Some(items[i]) == (match foreign_row(db, rel.table_name, ids[i]) {
            Some(r) => Some(JsonV::Object(r)),
            None => None,
        }));
    }
    if local_select_linked(db, table_name, row, key, sel) is Some {
        assert forall|i: int| 0 <= i < ids.len() implies local_select_object(
            db,
            table_name,
            #[trigger] foreign_row(db, rel.table_name, ids[i]).unwrap(),
            sel,
        ) is Some by {
            assert(items[i]->Object_0 == foreign_row(db, rel.table_name, ids[i]).unwrap());
        }
    }
    if forall|i: int|
        0 <= i < ids.len() ==> local_select_object(
            db,
            table_name,
            #[trigger] foreign_row(db, rel.table_name, ids[i]).unwrap(),
            sel,
        ) is Some {
        assert forall|i: int| 0 <= i < items.len() implies (#[trigger] items[i] is Object && local_select_object(
            db,
            table_name,
            items[i]->Object_0,
            sel,
        ) is Some) by {
            assert(local_select_object(db, table_name, foreign_row(db, rel.table_name, ids[i]).unwrap(), sel) is Some);
        }
    }
}

} // verus!
