pub mod index;
pub mod query;
pub mod relation;
pub mod row;
pub mod select_processor;
pub mod table;

use vstd::prelude::*;
use crate::assoc::assoc_get;
use crate::database::relation::Relation;
use crate::database::table::{Table, TableV};
use crate::json::str_equal;

verus! {

/// The position of the first table named `name` in `db`, or the number of
/// tables where none is.
pub open spec fn table_pos(db: Seq<TableV>, name: Seq<char>) -> int
    decreases db.len(),
{
    if db.len() == 0 {
        0
    } else if db[0].name == name {
        0
    } else {
        1 + table_pos(db.drop_first(), name)
    }
}

/// The first table named `name` in `db`, if any.
pub open spec fn db_table(db: Seq<TableV>, name: Seq<char>) -> Option<TableV> {
    assoc_get(db.map_values(|t: TableV| (t.name, t)), name)
}

/// The error text for a table that the database lacks.
pub open spec fn table_not_found() -> Seq<char> {
    "Failed to find table"@
}

proof fn lemma_table_pos(db: Seq<TableV>, name: Seq<char>, i: int)
    requires
        0 <= i <= db.len(),
        forall|j: int| 0 <= j < i ==> #[trigger] db[j].name != name,
        i < db.len() ==> db[i].name == name,
    ensures
        table_pos(db, name) == i,
        i < db.len() ==> db_table(db, name) == Some(db[i]),
        i == db.len() ==> db_table(db, name) is None,
    decreases i,
{
    let pairs = db.map_values(|t: TableV| (t.name, t));
    if i == 0 {
        if db.len() > 0 {
            assert(pairs[0] == (db[0].name, db[0]));
        }
    } else {
        let t = db.drop_first();
        assert forall|j: int| 0 <= j < i - 1 implies #[trigger] t[j].name != name by {
            assert(t[j] == db[j + 1]);
        }
        lemma_table_pos(t, name, i - 1);
        assert(pairs[0] == (db[0].name, db[0]));
        assert(pairs.drop_first() =~= t.map_values(|t: TableV| (t.name, t)));
    }
}

/// A database: its tables.
pub struct Database {
    pub tables: Vec<Table>,
}

impl Database {
    pub open spec fn view(&self) -> Seq<TableV> {
        self.tables@.map_values(|t: Table| t@)
    }

    pub fn new(tables: Vec<Table>) -> (r: Database)
        ensures
            r.tables@ == tables@,
    {
        Database { tables: tables }
    }

    /// The position of the first table named `name`, or the number of tables.
    fn position(&self, name: &str) -> (r: usize)
        ensures
            r == table_pos(self@, name@),
            r <= self@.len(),
            r < self@.len() ==> db_table(self@, name@) == Some(self@[r as int]),
            r == self@.len() ==> db_table(self@, name@) is None,
    {
        let n = self.tables.len();
        let mut i: usize = 0;
        while i < n
            invariant
                n == self.tables@.len(),
                n == self@.len(),
                i <= n,
                forall|j: int| 0 <= j < i ==> #[trigger] self@[j].name != name@,
            decreases n - i,
        {
            if str_equal(self.tables[i].name().as_str(), name) {
                proof {
                    lemma_table_pos(self@, name@, i as int);
                }
                return i;
            }
            i = i + 1;
        }
        proof {
            lemma_table_pos(self@, name@, n as int);
        }
        n
    }

    /// The first table named `name`.
    pub fn get_table(&self, name: String) -> (r: Result<&Table, String>)
        ensures
            match r {
                Ok(t) => db_table(self@, name@) == Some(t@),
                Err(e) => db_table(self@, name@) is None && e@ == table_not_found(),
            },
    {
        let i = self.position(name.as_str());
        if i < self.tables.len() {
            Ok(&self.tables[i])
        } else {
            Err("Failed to find table".to_owned())
        }
    }

    /// The first table named `name`, to change.
    pub fn get_table_mut(&mut self, name: String) -> (r: Result<&mut Table, String>)
        ensures
            match r {
                Ok(t) => {
                    &&& table_pos(old(self)@, name@) < old(self)@.len()
                    &&& t@ == old(self)@[table_pos(old(self)@, name@)]
                    &&& final(self)@ == old(self)@.update(table_pos(old(self)@, name@), final(t)@)
                },
                Err(e) => db_table(old(self)@, name@) is None && e@ == table_not_found() && final(self)@
                    == old(self)@,
            },
    {
        let i = self.position(name.as_str());
        if i < self.tables.len() {
            Ok(&mut self.tables[i])
        } else {
            Err("Failed to find table".to_owned())
        }
    }

    /// The relation named `relation_name` of the first table named
    /// `table_name`.
    pub fn get_table_relation(&self, table_name: String, relation_name: &String) -> (r: Result<
        &Relation,
        String,
    >)
        requires
            db_table(self@, table_name@) matches Some(t) ==> assoc_get(t.relations, relation_name@) is Some,
        ensures
            match db_table(self@, table_name@) {
                Some(t) => r matches Ok(rel) && assoc_get(t.relations, relation_name@) == Some(rel@),
                None => r matches Err(e) && e@ == table_not_found(),
            },
    {
        let i = self.position(table_name.as_str());
        if i < self.tables.len() {
            match self.tables[i].get_relation(relation_name) {
                Ok(rel) => Ok(rel),
                Err(e) => Err(e),
            }
        } else {
            Err("Failed to find table".to_owned())
        }
    }
}

} // verus!
