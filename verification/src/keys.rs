//! Identifying tuples of the on-disk units. A row group belongs to a table;
//! a delete vector overlays one row group of one table.

use vstd::prelude::*;

verus! {

/// Identity of a row group: the owning table and the row-group number.
#[derive(Clone, Copy, PartialEq, Eq, Structural, Debug, Hash)]
pub struct RowSetKey {
    pub table_id: u32,
    pub rowset_id: u32,
}

/// Identity of a delete vector: the owning table, the row group it overlays,
/// and its own number.
#[derive(Clone, Copy, PartialEq, Eq, Structural, Debug, Hash)]
pub struct DvKey {
    pub table_id: u32,
    pub rowset_id: u32,
    pub dv_id: u64,
}

} // verus!
