use vstd::prelude::*;
use vstd::string::StringExecFns;
use crate::catalog::schema::Schema;
use crate::catalog::table::{IndexMetadata, TableMetadata};
use crate::catalog::CatalogError;
use crate::storage::PageId;

verus! {

/// The indexes a new table gets: one unique index named after the table
/// with `_pk` appended for each primary-key column, rooted at page 0 of
/// file 0, in column order.
pub open spec fn pk_indexes(table_name: Seq<char>, schema: Schema) -> Seq<(Seq<char>, usize)>
    decreases schema.columns@.len(),
{
    pk_indexes_upto(table_name, schema.columns@, schema.columns@.len() as int)
}

/// The primary-key indexes of the first `n` columns: each is the index name
/// and the column position.
pub open spec fn pk_indexes_upto(table_name: Seq<char>, cols: Seq<crate::catalog::schema::Column>, n: int) -> Seq<(Seq<char>, usize)>
    decreases n,
{
    if n <= 0 {
        Seq::empty()
    } else if cols[n - 1].is_primary_key {
        pk_indexes_upto(table_name, cols, n - 1).push((table_name + "_pk"@, (n - 1) as usize))
    } else {
        pk_indexes_upto(table_name, cols, n - 1)
    }
}

/// Whether `idx` is the primary-key index described by `d` on `table_name`.
pub open spec fn index_matches(idx: IndexMetadata, d: (Seq<char>, usize), table_name: Seq<char>) -> bool {
    &&& idx.index_name@ == d.0
    &&& idx.table_name@ == table_name
    &&& idx.column_index == d.1
    &&& idx.root_page_id == PageId { file_id: 0, page_num: 0 }
    &&& idx.is_unique
}

/// The catalog of tables, by name.
pub struct Catalog {
    tables: Vec<TableMetadata>,
}

impl Catalog {
    /// The tables, in creation order.
    pub closed spec fn tables_view(&self) -> Seq<TableMetadata> {
        self.tables@
    }

    /// No two tables share a name.
    pub closed spec fn wf(&self) -> bool {
        forall|i: int, j: int|
            0 <= i < j < self.tables@.len() ==> #[trigger] self.tables@[i].table_name@
                != #[trigger] self.tables@[j].table_name@
    }

    /// Whether a table is named `name`.
    pub open spec fn has_table(&self, name: Seq<char>) -> bool {
        exists|i: int| 0 <= i < self.tables_view().len() && #[trigger] self.tables_view()[i].table_name@ == name
    }

    /// The table named `name`, when there is one.
    pub open spec fn table(&self, name: Seq<char>) -> TableMetadata {
        self.tables_view()[choose|i: int|
            0 <= i < self.tables_view().len() && #[trigger] self.tables_view()[i].table_name@ == name]
    }

    /// The last table created is the one that `get_table` finds by its name:
    /// reading a table back after `create_table` gives its metadata.
    pub proof fn lemma_created_table_is_found(&self, name: Seq<char>)
        requires
            self.wf(),
            self.tables_view().len() > 0,
            self.tables_view().last().table_name@ == name,
        ensures
            self.has_table(name),
            self.table(name) == self.tables_view().last(),
    {
        let n = self.tables_view().len() - 1;
        assert(self.tables_view()[n].table_name@ == name);
        let i = choose|i: int|
            0 <= i < self.tables_view().len() && #[trigger] self.tables_view()[i].table_name@ == name;
        if i != n {
            assert(self.tables@[i].table_name@ != self.tables@[n].table_name@);
        }
    }

    /// An empty catalog.
    pub fn new() -> (r: Self)
        ensures
            r.wf(),
            r.tables_view() == Seq::<TableMetadata>::empty(),
    {
        Catalog { tables: Vec::new() }
    }

    /// The position of the table named `name`.
    fn find(&self, name: &String) -> (r: Option<usize>)
        requires
            self.wf(),
        ensures
            match r {
                Some(i) => i < self.tables@.len() && self.tables@[i as int].table_name@ == name@,
                None => !self.has_table(name@),
            },
    {
        let mut i: usize = 0;
        while i < self.tables.len()
            invariant
                i <= self.tables@.len(),
                forall|j: int| 0 <= j < i ==> #[trigger] self.tables@[j].table_name@ != name@,
            decreases self.tables@.len() - i,
        {
            if self.tables[i].table_name == *name {
                return Some(i);
            }
            i = i + 1;
        }
        None
    }

    /// Adds a table; each primary-key column gets a unique index. Fails with
    /// `TableExists` (catalog unchanged) when the name is taken.
    pub fn create_table(&mut self, table_name: String, schema: Schema, root_page_id: PageId) -> (r: Result<(), CatalogError>)
        requires
            old(self).wf(),
        ensures
            final(self).wf(),
            old(self).has_table(table_name@) ==> {
                &&& r matches Err(CatalogError::TableExists(n)) && n@ == table_name@
                &&& final(self).tables_view() == old(self).tables_view()
            },
            !old(self).has_table(table_name@) ==> {
                &&& r is Ok
                &&& final(self).tables_view().len() == old(self).tables_view().len() + 1
                &&& final(self).tables_view().drop_last() == old(self).tables_view()
                &&& ({
                    let t = final(self).tables_view().last();
                    let pks = pk_indexes(table_name@, schema);
                    &&& t.table_name@ == table_name@
                    &&& t.schema.columns@ == schema.columns@
                    &&& t.schema.tuple_length == schema.tuple_length
                    &&& t.root_page_id == root_page_id
                    &&& t.indexes@.len() == pks.len()
                    &&& forall|k: int| 0 <= k < pks.len() ==> index_matches(#[trigger] t.indexes@[k], pks[k], table_name@)
                })
            },
    {
        if self.find(&table_name).is_some() {
            return Err(CatalogError::TableExists(table_name));
        }
        let mut indexes: Vec<IndexMetadata> = Vec::new();
        let mut i: usize = 0;
        while i < schema.columns.len()
            invariant
                i <= schema.columns@.len(),
                indexes@.len() == pk_indexes_upto(table_name@, schema.columns@, i as int).len(),
                forall|k: int|
                    0 <= k < indexes@.len() ==> index_matches(
                        #[trigger] indexes@[k],
                        pk_indexes_upto(table_name@, schema.columns@, i as int)[k],
                        table_name@,
                    ),
            decreases schema.columns@.len() - i,
        {
            if schema.columns[i].is_primary_key {
                let index_name = table_name.clone().concat("_pk");
                indexes.push(IndexMetadata {
                    index_name,
                    table_name: table_name.clone(),
                    column_index: i,
                    root_page_id: PageId { file_id: 0, page_num: 0 },
                    is_unique: true,
                });
            }
            i = i + 1;
        }
        let ghost old_tables = self.tables@;
        let meta = TableMetadata {
            table_name: table_name,
            schema,
            root_page_id,
            indexes,
        };
        self.tables.push(meta);
        proof {
            assert(self.tables@.drop_last() =~= old_tables);
            assert forall|a: int, b: int|
                0 <= a < b < self.tables@.len() implies #[trigger] self.tables@[a].table_name@
                    != #[trigger] self.tables@[b].table_name@ by {
                if b == old_tables.len() {
                    assert(old_tables[a].table_name@ == self.tables@[a].table_name@);
                    assert(old(self).tables_view()[a].table_name@ != table_name@);
                } else {
                    assert(old_tables[a] == self.tables@[a]);
                    assert(old_tables[b] == self.tables@[b]);
                }
            }
        }
        Ok(())
    }

    /// The table named `table_name`; fails with `TableNotFound` when there is none.
    pub fn get_table(&self, table_name: &str) -> (r: Result<&TableMetadata, CatalogError>)
        requires
            self.wf(),
        ensures
            match r {
                Ok(t) => self.has_table(table_name@) && *t == self.table(table_name@)
                    && t.table_name@ == table_name@,
                Err(CatalogError::TableNotFound(n)) => n@ == table_name@ && !self.has_table(
                    table_name@,
                ),
                Err(_) => false,
            },
    {
        let key = table_name.to_owned();
        match self.find(&key) {
            Some(i) => {
                proof {
                    assert(self.tables_view()[i as int] == self.tables@[i as int]);
                    let j = choose|j: int|
                        0 <= j < self.tables_view().len() && #[trigger] self.tables_view()[j].table_name@
                            == table_name@;
                    if j != i as int {
                        if j < i {
                            assert(self.tables@[j].table_name@ != self.tables@[i as int].table_name@);
                        } else {
                            assert(self.tables@[i as int].table_name@ != self.tables@[j].table_name@);
                        }
                    }
                }
                Ok(&self.tables[i])
            },
            None => Err(CatalogError::TableNotFound(key)),
        }
    }
}

impl Default for Catalog {
    fn default() -> (r: Self)
        ensures
            r.wf(),
            r.tables_view() == Seq::<TableMetadata>::empty(),
    {
        Self::new()
    }
}

} // verus!
