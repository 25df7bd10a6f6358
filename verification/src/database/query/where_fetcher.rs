use vstd::prelude::*;
use crate::database::Database;

verus! {

/// Finds the rows of a table that a condition admits.
pub struct WhereFetcher {}

impl WhereFetcher {
    /// Takes no condition into account yet: it finds nothing and changes
    /// nothing.
    pub fn find_rows(database: &Database, table_name: String, where_query: String) {
    }
}

} // verus!
