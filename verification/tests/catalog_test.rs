use wasdb::catalog::catalog::Catalog;
use wasdb::catalog::schema::{Column, Schema, TypeId};
use wasdb::catalog::CatalogError;
use wasdb::storage::PageId;

#[test]
fn create_table_should_store_metadata() {
    let mut catalog = Catalog::new();
    let schema = Schema::new(vec![
        Column::new("id".to_string(), TypeId::Integer, 4),
        Column::new("name".to_string(), TypeId::Varchar, 32),
    ]);
    let root_page_id = PageId {
        file_id: 0,
        page_num: 1,
    };

    catalog
        .create_table("users".to_string(), schema, root_page_id)
        .unwrap();
    let table = catalog.get_table("users").unwrap();

    assert_eq!(table.table_name, "users");
    assert_eq!(table.schema.columns.len(), 2);
    assert_eq!(table.schema.columns[1].offset, 4);
    assert_eq!(table.schema.tuple_length, 36);
    assert_eq!(table.root_page_id.page_num, 1);
}

#[test]
fn create_table_twice_fails_with_table_exists() {
    let mut catalog = Catalog::new();
    let pid = PageId { file_id: 0, page_num: 0 };
    catalog.create_table("t".to_string(), Schema::new(vec![]), pid).unwrap();
    match catalog.create_table("t".to_string(), Schema::new(vec![]), pid) {
        Err(CatalogError::TableExists(name)) => assert_eq!(name, "t"),
        _ => panic!("expected TableExists"),
    }
}

#[test]
fn get_table_of_unknown_name_fails_with_table_not_found() {
    let catalog = Catalog::new();
    match catalog.get_table("missing") {
        Err(CatalogError::TableNotFound(name)) => assert_eq!(name, "missing"),
        _ => panic!("expected TableNotFound"),
    }
}

#[test]
fn primary_key_columns_get_unique_indexes() {
    let mut catalog = Catalog::new();
    let mut id = Column::new("id".to_string(), TypeId::Integer, 4);
    id.is_primary_key = true;
    let name = Column::new("name".to_string(), TypeId::Varchar, 16);
    let schema = Schema::new(vec![name, id]);
    catalog
        .create_table("people".to_string(), schema, PageId { file_id: 0, page_num: 3 })
        .unwrap();
    let table = catalog.get_table("people").unwrap();
    assert_eq!(table.indexes.len(), 1);
    assert_eq!(table.indexes[0].index_name, "people_pk");
    assert_eq!(table.indexes[0].table_name, "people");
    assert_eq!(table.indexes[0].column_index, 1);
    assert!(table.indexes[0].is_unique);
}

#[test]
fn schema_places_columns_one_after_the_other() {
    let schema = Schema::new(vec![
        Column::new("a".to_string(), TypeId::Integer, 4),
        Column::new("b".to_string(), TypeId::Boolean, 1),
        Column::new("c".to_string(), TypeId::Varchar, 10),
    ]);
    assert_eq!(schema.columns[0].offset, 0);
    assert_eq!(schema.columns[1].offset, 4);
    assert_eq!(schema.columns[2].offset, 5);
    assert_eq!(schema.tuple_length, 15);
}
