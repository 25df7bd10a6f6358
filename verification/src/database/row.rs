use vstd::prelude::*;
use crate::assoc::assoc_get;
use crate::json::{Json, JsonMap, JsonNum, JsonV, ObjV};

verus! {

/// A row of a table: its columns, by name.
#[derive(Debug, PartialEq, Eq)]
pub struct Row {
    pub columns: JsonMap,
}

/// The primary key that a row holds in column `pk_name`: present when that
/// column holds a non-negative integer.
pub open spec fn pk_of(row: ObjV, pk_name: Seq<char>) -> Option<u64> {
    match assoc_get(row, pk_name) {
        Some(JsonV::Number(JsonNum::PosInt(n))) => Some(n),
        _ => None,
    }
}

impl Row {
    pub open spec fn view(&self) -> ObjV {
        self.columns@
    }

    pub fn new(cols: JsonMap) -> (r: Row)
        ensures
            r@ == cols@,
    {
        Row { columns: cols }
    }

    /// The value of column `key`, if the row has one.
    pub fn get(&self, key: &str) -> (r: Option<&Json>)
        ensures
            match r {
                Some(v) => assoc_get(self@, key@) == Some(v@),
                None => assoc_get(self@, key@) is None,
            },
    {
        self.columns.get(key)
    }

    /// The primary key that the row holds in column `pk_name`, if it holds one.
    pub fn pk_value(&self, pk_name: &str) -> (r: Option<u64>)
        ensures
            r == pk_of(self@, pk_name@),
    {
        match self.columns.get(pk_name) {
            Some(Json::Number(JsonNum::PosInt(n))) => Some(*n),
            _ => None,
        }
    }

    /// A copy of this row.
    pub fn deep_copy(&self) -> (r: Row)
        ensures
            r@ == self@,
    {
        Row { columns: self.columns.deep_copy() }
    }
}

} // verus!
