use vstd::prelude::*;
use crate::catalog::schema::Schema;
use crate::storage::PageId;

verus! {

/// An index on one column of a table.
#[derive(Debug, Clone)]
pub struct IndexMetadata {
    pub index_name: String,
    pub table_name: String,
    /// The indexed column's position in the schema.
    pub column_index: usize,
    pub root_page_id: PageId,
    pub is_unique: bool,
}

/// What the catalog knows of a table.
#[derive(Debug)]
pub struct TableMetadata {
    pub table_name: String,
    pub schema: Schema,
    pub root_page_id: PageId,
    pub indexes: Vec<IndexMetadata>,
}

} // verus!
