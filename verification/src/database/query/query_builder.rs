use vstd::prelude::*;
use crate::database::Database;

verus! {

/// Builds a query against a database.
pub struct QueryBuilder<'a> {
    database: &'a Database,
}

impl<'a> QueryBuilder<'a> {
    /// A builder for queries against `database`.
    pub fn new(database: &'a Database) -> (r: QueryBuilder<'a>)
        ensures
            r.database() == database,
    {
        QueryBuilder { database }
    }

    /// The database that the queries go against.
    pub closed spec fn database(&self) -> &'a Database {
        self.database
    }
}

} // verus!
