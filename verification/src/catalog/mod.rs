//! The catalog of tables, their schemas, and the table heap with its free
//! space map.

pub mod catalog;
pub mod heap;
pub mod schema;
pub mod table;

use vstd::prelude::*;
use crate::text::{debug_quoted, str_debug, call_text, call_string};

verus! {

/// Errors of the catalog.
#[derive(Debug)]
pub enum CatalogError {
    /// A table of that name exists already.
    TableExists(String),
    /// No table has that name.
    TableNotFound(String),
}

/// The text of a catalog error as its `Debug` form gives it.
pub open spec fn catalog_error_text(e: CatalogError) -> Seq<char> {
    match e {
        CatalogError::TableExists(n) => call_text("TableExists"@, debug_quoted(n@)),
        CatalogError::TableNotFound(n) => call_text("TableNotFound"@, debug_quoted(n@)),
    }
}

impl CatalogError {
    /// The error's text, as `catalog_error_text` gives it.
    pub fn text(&self) -> (r: String)
        ensures
            r@ == catalog_error_text(*self),
    {
        match self {
            CatalogError::TableExists(n) => {
                let q = str_debug(n.as_str());
                call_string("TableExists", q.as_str())
            },
            CatalogError::TableNotFound(n) => {
                let q = str_debug(n.as_str());
                call_string("TableNotFound", q.as_str())
            },
        }
    }
}

} // verus!
