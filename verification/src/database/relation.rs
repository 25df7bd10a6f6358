use vstd::prelude::*;
use crate::assoc::assoc_get;
use crate::database::row::Row;
use crate::database::table::{relation_not_found, TableV};
use crate::database::{db_table, table_not_found, Database};
use crate::json::{key_lt, obj_insert, Json, JsonMap, JsonNum, JsonV, ObjV};

verus! {

/// The mathematical value of a relation.
pub struct RelationV {
    pub table_name: Seq<char>,
    pub variation: Seq<char>,
}

/// A relation from one table to another: the table that it points into and
/// its kind (`one_to_one` or `one_to_many`).
#[derive(Clone, Debug)]
pub struct Relation {
    pub table_name: String,
    pub variation: String,
}

/// The row with primary key `id` of the first table named `table_name`.
pub open spec fn foreign_row(db: Seq<TableV>, table_name: Seq<char>, id: u64) -> Option<ObjV> {
    match db_table(db, table_name) {
        Some(t) => assoc_get(t.rows, id),
        None => None,
    }
}

/// The relation named `relation_name` of the first table named
/// `table_name`, or the error text where there is none.
pub open spec fn relation_of(db: Seq<TableV>, table_name: Seq<char>, relation_name: Seq<char>) -> Result<
    RelationV,
    Seq<char>,
> {
    match db_table(db, table_name) {
        None => Err(table_not_found()),
        Some(t) => match assoc_get(t.relations, relation_name) {
            None => Err(relation_not_found()),
            Some(rel) => Ok(rel),
        },
    }
}

/// The number that a JSON value holds, where it is a non-negative integer.
pub open spec fn as_u64(v: JsonV) -> Option<u64> {
    match v {
        JsonV::Number(JsonNum::PosInt(n)) => Some(n),
        _ => None,
    }
}

/// The text that a JSON value holds, where it is a string.
pub open spec fn as_text(v: JsonV) -> Option<Seq<char>> {
    match v {
        JsonV::Str(s) => Some(s),
        _ => None,
    }
}

impl View for Relation {
    type V = RelationV;

    open spec fn view(&self) -> RelationV {
        RelationV { table_name: self.table_name@, variation: self.variation@ }
    }
}

impl Relation {
    pub fn new(table_name: String, variation: String) -> (r: Relation)
        ensures
            r@ == (RelationV { table_name: table_name@, variation: variation@ }),
    {
        Relation { table_name, variation }
    }

    /// The row with primary key `foreign_id` of the table that the relation
    /// points into.
    pub fn get_foreign_row(&self, database: &Database, foreign_id: u64) -> (r: Result<Row, String>)
        requires
            foreign_row(database@, self.table_name@, foreign_id) is Some,
        ensures
            r matches Ok(row) && Some(row@) == foreign_row(database@, self.table_name@, foreign_id),
    {
        match database.get_table(self.table_name.clone()) {
            Ok(table) => match table.find_by_pk(foreign_id) {
                Ok(row) => Ok(row.deep_copy()),
                Err(e) => Err(e),
            },
            Err(e) => Err(e),
        }
    }
}

/// The mathematical value of a one-to-one link.
pub struct OneToOneV {
    pub foreign_id: u64,
    pub relation_name: Seq<char>,
}

/// What a JSON value says as a one-to-one link: an object with the
/// fields `foreign_id` (a non-negative integer) and `relation_name` (a
/// string), other fields aside, or an array of exactly those two values.
pub open spec fn decode_one_to_one(v: JsonV) -> Option<OneToOneV> {
    match v {
        JsonV::Object(s) => match (assoc_get(s, "foreign_id"@), assoc_get(s, "relation_name"@)) {
            (Some(a), Some(b)) => match (as_u64(a), as_text(b)) {
                (Some(id), Some(name)) => Some(OneToOneV { foreign_id: id, relation_name: name }),
                _ => None,
            },
            _ => None,
        },
        JsonV::Array(a) => if a.len() == 2 {
            match (as_u64(a[0]), as_text(a[1])) {
                (Some(id), Some(name)) => Some(OneToOneV { foreign_id: id, relation_name: name }),
                _ => None,
            }
        } else {
            None
        },
        _ => None,
    }
}

/// A link from a row to one row of another table, through a named
/// relation.
pub struct OneToOne {
    foreign_id: u64,
    relation_name: String,
}

impl View for OneToOne {
    type V = OneToOneV;

    closed spec fn view(&self) -> OneToOneV {
        OneToOneV { foreign_id: self.foreign_id, relation_name: self.relation_name@ }
    }
}

/// The number that `v` holds, where it is a non-negative integer.
fn json_u64(v: Option<&Json>) -> (r: Option<u64>)
    ensures
        r == (match v {
            Some(x) => as_u64(x@),
            None => None,
        }),
{
    match v {
        Some(Json::Number(JsonNum::PosInt(n))) => Some(*n),
        _ => None,
    }
}

/// The text that `v` holds, where it is a string.
fn json_text(v: Option<&Json>) -> (r: Option<String>)
    ensures
        r matches Some(s) ==> (v matches Some(x) && as_text(x@) == Some(s@)),
        r is None ==> (v is None || (v matches Some(x) && as_text(x@) is None)),
{
    match v {
        Some(Json::Str(s)) => Some(s.clone()),
        _ => None,
    }
}

impl OneToOne {
    pub fn new(foreign_id: u64, relation_name: String) -> (r: OneToOne)
        ensures
            r@ == (OneToOneV { foreign_id, relation_name: relation_name@ }),
    {
        OneToOne { foreign_id, relation_name }
    }

    pub fn get_id(&self) -> (r: u64)
        ensures
            r == self@.foreign_id,
    {
        self.foreign_id
    }

    /// The name of the relation that the link goes through.
    pub fn relation_name(&self) -> (r: &String)
        ensures
            r@ == self@.relation_name,
    {
        &self.relation_name
    }

    /// The row that the link points to, through the relation of its name in
    /// the first table named `table_name`.
    pub fn get(&self, table_name: String, database: &Database) -> (r: Result<Row, String>)
        requires
            relation_of(database@, table_name@, self@.relation_name) matches Ok(rel) ==> foreign_row(
                database@,
                rel.table_name,
                self@.foreign_id,
            ) is Some,
        ensures
            match relation_of(database@, table_name@, self@.relation_name) {
                Ok(rel) => r matches Ok(row) && Some(row@) == foreign_row(
                    database@,
                    rel.table_name,
                    self@.foreign_id,
                ),
                Err(e) => r matches Err(m) && m@ == e,
            },
    {
        let table = match database.get_table(table_name) {
            Ok(t) => t,
            Err(e) => return Err(e),
        };
        let relation = match table.get_relation(&self.relation_name) {
            Ok(rel) => rel,
            Err(e) => return Err(e),
        };
        relation.get_foreign_row(database, self.foreign_id)
    }

    /// The JSON form of the link: an object with the fields `foreign_id` and
    /// `relation_name`.
    pub fn to_value(&self) -> (r: Json)
        ensures
            r@ == JsonV::Object(
                seq![
                    ("foreign_id"@, JsonV::Number(JsonNum::PosInt(self@.foreign_id))),
                    ("relation_name"@, JsonV::Str(self@.relation_name)),
                ],
            ),
    {
        let mut m = JsonMap::new();
        let ghost e = m@;
        m.insert("foreign_id".to_owned(), Json::Number(JsonNum::PosInt(self.foreign_id)));
        let ghost m1 = m@;
        m.insert("relation_name".to_owned(), Json::Str(self.relation_name.clone()));
        proof {
            reveal_strlit("foreign_id");
            reveal_strlit("relation_name");
            let f = ("foreign_id"@, JsonV::Number(JsonNum::PosInt(self@.foreign_id)));
            let g = ("relation_name"@, JsonV::Str(self@.relation_name));
            assert(m1 == seq![f]);
            assert(!key_lt("relation_name"@, "foreign_id"@));
            assert("relation_name"@ != "foreign_id"@) by {
                assert("relation_name"@[0] != "foreign_id"@[0]);
            }
            assert(seq![f].drop_first() =~= Seq::<(Seq<char>, JsonV)>::empty());
            assert(m@ == obj_insert(seq![f], g.0, g.1));
            assert(obj_insert(Seq::<(Seq<char>, JsonV)>::empty(), g.0, g.1) == seq![g]);
            assert(obj_insert(seq![f], g.0, g.1) == seq![f] + obj_insert(seq![f].drop_first(), g.0, g.1));
            assert(m@ =~= seq![
                ("foreign_id"@, JsonV::Number(JsonNum::PosInt(self@.foreign_id))),
                ("relation_name"@, JsonV::Str(self@.relation_name)),
            ]);
        }
        Json::Object(m)
    }

    /// The link that `value` says, if it says one.
    pub fn try_from_value(value: &Json) -> (r: Option<OneToOne>)
        ensures
            match decode_one_to_one(value@) {
                Some(v) => r matches Some(link) && link@ == v,
                None => r is None,
            },
    {
        match value {
            Json::Object(m) => {
                let id = json_u64(m.get("foreign_id"));
                let name = json_text(m.get("relation_name"));
                match (id, name) {
                    (Some(id), Some(name)) => Some(OneToOne { foreign_id: id, relation_name: name }),
                    _ => None,
                }
            },
            Json::Array(a) => {
                if a.len() == 2 {
                    proof {
                        crate::json::lemma_view_items(a@);
                    }
                    let id = json_u64(Some(&a[0]));
                    let name = json_text(Some(&a[1]));
                    match (id, name) {
                        (Some(id), Some(name)) => Some(OneToOne { foreign_id: id, relation_name: name }),
                        _ => None,
                    }
                } else {
                    proof {
                        crate::json::lemma_view_items(a@);
                    }
                    None
                }
            },
            _ => None,
        }
    }

    /// The link that `value` says.
    pub fn from_value(value: Json) -> (r: OneToOne)
        requires
            decode_one_to_one(value@) is Some,
        ensures
            r@ == decode_one_to_one(value@).unwrap(),
    {
        match OneToOne::try_from_value(&value) {
            Some(link) => link,
            None => OneToOne { foreign_id: 0, relation_name: String::new() },
        }
    }
}

} // verus!

verus! {

/// The mathematical value of a one-to-many link.
pub struct OneToManyV {
    pub foreign_ids: Seq<u64>,
    pub relation_name: Seq<char>,
}

/// The numbers that a JSON array holds, where every element is a
/// non-negative integer.
pub open spec fn decode_ids(v: JsonV) -> Option<Seq<u64>> {
    match v {
        JsonV::Array(a) => if forall|i: int| 0 <= i < a.len() ==> (#[trigger] as_u64(a[i])) is Some {
            Some(Seq::new(a.len(), |i: int| as_u64(a[i]).unwrap()))
        } else {
            None
        },
        _ => None,
    }
}

/// The JSON array of the numbers `ids`.
pub open spec fn ids_json(ids: Seq<u64>) -> JsonV {
    JsonV::Array(Seq::new(ids.len(), |i: int| JsonV::Number(JsonNum::PosInt(ids[i]))))
}

/// What a JSON value says as a one-to-many link: an object with the fields
/// `foreign_ids` (an array of non-negative integers) and `relation_name` (a
/// string), other fields aside, or an array of exactly those two values.
pub open spec fn decode_one_to_many(v: JsonV) -> Option<OneToManyV> {
    match v {
        JsonV::Object(s) => match (assoc_get(s, "foreign_ids"@), assoc_get(s, "relation_name"@)) {
            (Some(a), Some(b)) => match (decode_ids(a), as_text(b)) {
                (Some(ids), Some(name)) => Some(OneToManyV { foreign_ids: ids, relation_name: name }),
                _ => None,
            },
            _ => None,
        },
        JsonV::Array(a) => if a.len() == 2 {
            match (decode_ids(a[0]), as_text(a[1])) {
                (Some(ids), Some(name)) => Some(OneToManyV { foreign_ids: ids, relation_name: name }),
                _ => None,
            }
        } else {
            None
        },
        _ => None,
    }
}

/// The numbers that `v` holds, where it is an array of non-negative
/// integers.
fn json_ids(v: Option<&Json>) -> (r: Option<Vec<u64>>)
    ensures
        match v {
            Some(x) => match decode_ids(x@) {
                Some(ids) => r matches Some(out) && out@ == ids,
                None => r is None,
            },
            None => r is None,
        },
{
    match v {
        Some(Json::Array(a)) => {
            proof {
                crate::json::lemma_view_items(a@);
            }
            let ghost items = crate::json::view_items(a@);
            let n = a.len();
            let mut out: Vec<u64> = Vec::new();
            let mut i: usize = 0;
            while i < n
                invariant
                    n == a@.len(),
                    n == items.len(),
                    items == crate::json::view_items(a@),
                    v is Some,
                    v.unwrap()@ == JsonV::Array(items),
                    forall|j: int| 0 <= j < n ==> #[trigger] items[j] == a@[j]@,
                    i <= n,
                    out@.len() == i,
                    forall|j: int| 0 <= j < i ==> (#[trigger] as_u64(items[j])) == Some(out@[j]),
                decreases n - i,
            {
                match json_u64(Some(&a[i])) {
                    Some(x) => out.push(x),
                    None => {
                        assert(as_u64(items[i as int]) is None);
                        assert(v.unwrap()@ == JsonV::Array(items));
                        assert(!(forall|j: int| 0 <= j < items.len() ==> (#[trigger] as_u64(items[j])) is Some));
                        return None;
                    },
                }
                i = i + 1;
            }
            assert(out@ =~= Seq::new(items.len(), |i: int| as_u64(items[i]).unwrap()));
            Some(out)
        },
        _ => None,
    }
}

/// A link from a row to rows of another table, through a named relation.
pub struct OneToMany {
    foreign_ids: Vec<u64>,
    relation_name: String,
}

impl View for OneToMany {
    type V = OneToManyV;

    closed spec fn view(&self) -> OneToManyV {
        OneToManyV { foreign_ids: self.foreign_ids@, relation_name: self.relation_name@ }
    }
}

impl OneToMany {
    pub fn new(foreign_ids: Vec<u64>, relation_name: String) -> (r: OneToMany)
        ensures
            r@ == (OneToManyV { foreign_ids: foreign_ids@, relation_name: relation_name@ }),
    {
        OneToMany { foreign_ids, relation_name }
    }

    pub fn get_ids(&self) -> (r: Vec<u64>)
        ensures
            r@ == self@.foreign_ids,
    {
        self.foreign_ids.clone()
    }

    /// The name of the relation that the link goes through.
    pub fn relation_name(&self) -> (r: &String)
        ensures
            r@ == self@.relation_name,
    {
        &self.relation_name
    }

    /// The rows that the link points to, in the order of their keys, through
    /// the relation of its name in the first table named `table_name`.
    pub fn get(&self, table_name: String, database: &Database) -> (r: Result<Vec<Row>, String>)
        requires
            relation_of(database@, table_name@, self@.relation_name) matches Ok(rel) ==> forall|i: int|
                0 <= i < self@.foreign_ids.len() ==> #[trigger] foreign_row(
                    database@,
                    rel.table_name,
                    self@.foreign_ids[i],
                ) is Some,
        ensures
            match relation_of(database@, table_name@, self@.relation_name) {
                Ok(rel) => r matches Ok(rows) && rows@.len() == self@.foreign_ids.len() && forall|i: int|
                    0 <= i < rows@.len() ==> Some((#[trigger] rows@[i])@) == foreign_row(
                        database@,
                        rel.table_name,
                        self@.foreign_ids[i],
                    ),
                Err(e) => r matches Err(m) && m@ == e,
            },
    {
        let table = match database.get_table(table_name) {
            Ok(t) => t,
            Err(e) => return Err(e),
        };
        let relation = match table.get_relation(&self.relation_name) {
            Ok(rel) => rel,
            Err(e) => return Err(e),
        };
        let ghost rel = relation@;
        let n = self.foreign_ids.len();
        let mut rows: Vec<Row> = Vec::new();
        let mut i: usize = 0;
        while i < n
            invariant
                n == self@.foreign_ids.len(),
                rel == relation@,
                relation_of(database@, table_name@, self@.relation_name) == Ok::<RelationV, Seq<char>>(rel),
                forall|i: int|
                    0 <= i < self@.foreign_ids.len() ==> #[trigger] foreign_row(
                        database@,
                        rel.table_name,
                        self@.foreign_ids[i],
                    ) is Some,
                i <= n,
                rows@.len() == i,
                forall|j: int|
                    0 <= j < i ==> Some((#[trigger] rows@[j])@) == foreign_row(
                        database@,
                        rel.table_name,
                        self@.foreign_ids[j],
                    ),
            decreases n - i,
        {
            let id = self.foreign_ids[i];
            assert(foreign_row(database@, rel.table_name, self@.foreign_ids[i as int]) is Some);
            match relation.get_foreign_row(database, id) {
                Ok(row) => rows.push(row),
                Err(_) => {},
            }
            i = i + 1;
        }
        Ok(rows)
    }

    /// The JSON form of the link: an object with the fields `foreign_ids`
    /// and `relation_name`.
    pub fn to_value(&self) -> (r: Json)
        ensures
            r@ == JsonV::Object(
                seq![
                    ("foreign_ids"@, ids_json(self@.foreign_ids)),
                    ("relation_name"@, JsonV::Str(self@.relation_name)),
                ],
            ),
    {
        let mut items: Vec<Json> = Vec::new();
        let n = self.foreign_ids.len();
        let mut i: usize = 0;
        while i < n
            invariant
                n == self@.foreign_ids.len(),
                i <= n,
                items@.len() == i,
                forall|j: int|
                    0 <= j < i ==> (#[trigger] items@[j])@ == JsonV::Number(
                        JsonNum::PosInt(self@.foreign_ids[j]),
                    ),
            decreases n - i,
        {
            items.push(Json::Number(JsonNum::PosInt(self.foreign_ids[i])));
            i = i + 1;
        }
        proof {
            crate::json::lemma_view_items(items@);
            assert(crate::json::view_items(items@) =~= Seq::new(
                self@.foreign_ids.len(),
                |i: int| JsonV::Number(JsonNum::PosInt(self@.foreign_ids[i])),
            ));
        }
        let mut m = JsonMap::new();
        m.insert("foreign_ids".to_owned(), Json::Array(items));
        let ghost m1 = m@;
        m.insert("relation_name".to_owned(), Json::Str(self.relation_name.clone()));
        proof {
            reveal_strlit("foreign_ids");
            reveal_strlit("relation_name");
            let f = ("foreign_ids"@, ids_json(self@.foreign_ids));
            let g = ("relation_name"@, JsonV::Str(self@.relation_name));
            assert(m1 == seq![f]);
            assert(!key_lt("relation_name"@, "foreign_ids"@));
            assert("relation_name"@ != "foreign_ids"@) by {
                assert("relation_name"@[0] != "foreign_ids"@[0]);
            }
            assert(seq![f].drop_first() =~= Seq::<(Seq<char>, JsonV)>::empty());
            assert(m@ == obj_insert(seq![f], g.0, g.1));
            assert(obj_insert(Seq::<(Seq<char>, JsonV)>::empty(), g.0, g.1) == seq![g]);
            assert(obj_insert(seq![f], g.0, g.1) == seq![f] + obj_insert(seq![f].drop_first(), g.0, g.1));
            assert(m@ =~= seq![f, g]);
        }
        Json::Object(m)
    }

    /// The link that `value` says, if it says one.
    pub fn try_from_value(value: &Json) -> (r: Option<OneToMany>)
        ensures
            match decode_one_to_many(value@) {
                Some(v) => r matches Some(link) && link@ == v,
                None => r is None,
            },
    {
        match value {
            Json::Object(m) => {
                let ids = json_ids(m.get("foreign_ids"));
                let name = json_text(m.get("relation_name"));
                match (ids, name) {
                    (Some(ids), Some(name)) => Some(OneToMany { foreign_ids: ids, relation_name: name }),
                    _ => None,
                }
            },
            Json::Array(a) => {
                proof {
                    crate::json::lemma_view_items(a@);
                }
                if a.len() == 2 {
                    let ids = json_ids(Some(&a[0]));
                    let name = json_text(Some(&a[1]));
                    match (ids, name) {
                        (Some(ids), Some(name)) => Some(OneToMany { foreign_ids: ids, relation_name: name }),
                        _ => None,
                    }
                } else {
                    None
                }
            },
            _ => None,
        }
    }

    /// The link that `value` says.
    pub fn from_value(value: Json) -> (r: OneToMany)
        requires
            decode_one_to_many(value@) is Some,
        ensures
            r@ == decode_one_to_many(value@).unwrap(),
    {
        match OneToMany::try_from_value(&value) {
            Some(link) => link,
            None => OneToMany { foreign_ids: Vec::new(), relation_name: String::new() },
        }
    }
}

} // verus!

verus! {

/// A one-to-one link read back from its JSON form is the link itself.
pub proof fn lemma_one_to_one_round_trip(link: OneToOneV)
    ensures
        decode_one_to_one(
            JsonV::Object(
                seq![
                    ("foreign_id"@, JsonV::Number(JsonNum::PosInt(link.foreign_id))),
                    ("relation_name"@, JsonV::Str(link.relation_name)),
                ],
            ),
        ) == Some(link),
{
    reveal_strlit("foreign_id");
    reveal_strlit("relation_name");
    let s = seq![
        ("foreign_id"@, JsonV::Number(JsonNum::PosInt(link.foreign_id))),
        ("relation_name"@, JsonV::Str(link.relation_name)),
    ];
    assert("relation_name"@ != "foreign_id"@) by {
        assert("relation_name"@[0] != "foreign_id"@[0]);
    }
    assert(s.drop_first()[0] == s[1]);
    assert(assoc_get(s, "relation_name"@) == assoc_get(s.drop_first(), "relation_name"@));
}

/// A one-to-many link read back from its JSON form is the link itself.
pub proof fn lemma_one_to_many_round_trip(link: OneToManyV)
    ensures
        decode_one_to_many(
            JsonV::Object(
                seq![
                    ("foreign_ids"@, ids_json(link.foreign_ids)),
                    ("relation_name"@, JsonV::Str(link.relation_name)),
                ],
            ),
        ) == Some(link),
{
    reveal_strlit("foreign_ids");
    reveal_strlit("relation_name");
    let s = seq![
        ("foreign_ids"@, ids_json(link.foreign_ids)),
        ("relation_name"@, JsonV::Str(link.relation_name)),
    ];
    assert("relation_name"@ != "foreign_ids"@) by {
        assert("relation_name"@[0] != "foreign_ids"@[0]);
    }
    assert(s.drop_first()[0] == s[1]);
    assert(assoc_get(s, "relation_name"@) == assoc_get(s.drop_first(), "relation_name"@));
    let a = Seq::new(link.foreign_ids.len(), |i: int| JsonV::Number(JsonNum::PosInt(link.foreign_ids[i])));
    assert(forall|i: int| 0 <= i < a.len() ==> (#[trigger] as_u64(a[i])) is Some);
    assert(Seq::new(a.len(), |i: int| as_u64(a[i]).unwrap()) =~= link.foreign_ids);
}

} // verus!
