use mike_db::dbms::DBMS;
use mike_db::dbms::DBMSError;
use mike_db::fields::FieldType;
use mike_db::store::FileSystem;
use mike_db::store::MemStore;
use mike_db::tables::Table;
use mike_db::tables::TableError;

#[test]
fn it_can_write_dbms_to_disk() {
    let dbms = DBMS::new(String::from("data"));
    let mut store = MemStore::new();
    assert!(dbms.save_to_disk(&mut store).is_ok());
}

fn sample_table() -> Table {
    Table::new(
        vec![FieldType::String, FieldType::Integer],
        vec![String::from("name"), String::from("age")],
        0,
    )
}

fn dbms_with_people() -> DBMS {
    let mut dbms = DBMS::new(String::from("data"));
    dbms.create_dataspace(String::from("hr")).unwrap();
    dbms.dataspaces[0]
        .dataspace
        .create_table(String::from("people"), sample_table())
        .unwrap();
    dbms
}

#[test]
fn duplicate_dataspace_name_is_rejected_and_kept() {
    let mut dbms = dbms_with_people();
    let res = dbms.create_dataspace(String::from("hr"));
    assert!(matches!(res, Err(DBMSError::AlreadyExists)));
    assert_eq!(dbms.dataspaces.len(), 1);
    assert_eq!(dbms.dataspaces[0].dataspace.tables.len(), 1);
}

#[test]
fn duplicate_table_name_is_rejected_and_kept() {
    let mut dbms = dbms_with_people();
    let _ = dbms
        .insert_into_table(
            String::from("people"),
            String::from("hr"),
            vec![b"Ada".to_vec(), b"37".to_vec()],
        )
        .unwrap();
    let res = dbms.dataspaces[0]
        .dataspace
        .create_table(String::from("people"), sample_table());
    assert!(matches!(res, Err(DBMSError::AlreadyExists)));
    assert_eq!(dbms.dataspaces[0].dataspace.tables.len(), 1);
    assert_eq!(dbms.dataspaces[0].dataspace.tables[0].table.rows.len(), 1);
}

#[test]
fn insertion_fails_fast_along_the_lookup_chain() {
    let mut dbms = dbms_with_people();
    let missing_space = dbms.insert_into_table(
        String::from("people"),
        String::from("sales"),
        vec![b"Ada".to_vec(), b"37".to_vec()],
    );
    assert!(matches!(missing_space, Err(DBMSError::DataSpaceDoesNotExist)));
    let missing_table = dbms.insert_into_table(
        String::from("robots"),
        String::from("hr"),
        vec![b"Ada".to_vec(), b"37".to_vec()],
    );
    assert!(matches!(missing_table, Err(DBMSError::TableDoesNotExist)));
    let mismatch = dbms.insert_into_table(
        String::from("people"),
        String::from("hr"),
        vec![b"Ada".to_vec()],
    );
    assert!(matches!(
        mismatch,
        Err(DBMSError::TableError(TableError::SchemaMismatch))
    ));
    assert_eq!(dbms.dataspaces[0].dataspace.tables[0].table.rows.len(), 0);
}

#[test]
fn select_by_row_id_walks_the_catalog() {
    let mut dbms = dbms_with_people();
    let inserted = dbms
        .insert_into_table(
            String::from("people"),
            String::from("hr"),
            vec![b"Ada".to_vec(), b"37".to_vec()],
        )
        .unwrap();
    let id = inserted.id;
    let row = dbms
        .select_by_row_id(&String::from("people"), &String::from("hr"), id.clone())
        .expect("row is present");
    assert_eq!(row.id, id);
    assert_eq!(row.fields[0].data, b"Ada".to_vec());
    assert!(dbms
        .select_by_row_id(&String::from("people"), &String::from("hr"), String::from("nope"))
        .is_none());
    assert!(dbms
        .select_by_row_id(&String::from("robots"), &String::from("hr"), id.clone())
        .is_none());
    assert!(dbms
        .select_by_row_id(&String::from("people"), &String::from("sales"), id)
        .is_none());
}

#[test]
fn paths_follow_the_on_disk_layout() {
    let dbms = DBMS::new(String::from("data"));
    assert_eq!(dbms.info_file_path(), "data/info.mike_db");
    assert_eq!(
        dbms.dataspace_tables_path(&String::from("hr")),
        "data/hr.tables"
    );
    assert_eq!(
        dbms.table_file_path(&String::from("hr"), &String::from("people"), 0),
        "data/hr.people.0.table"
    );
    assert_eq!(
        dbms.table_file_path(&String::from("hr"), &String::from("people"), 12),
        "data/hr.people.12.table"
    );
    assert_eq!(
        dbms.table_indexes_path(&String::from("hr"), &String::from("people")),
        "data/hr.people.indexes"
    );
}

fn people_store() -> MemStore {
    let mut store = MemStore::new();
    store.put(
        String::from("data/info.mike_db"),
        vec![String::from("hr")],
    );
    store.put(String::from("data/hr.tables"), vec![String::from("people")]);
    store.put(
        String::from("data/hr.people.0.table"),
        vec![
            String::from("2"),
            String::from("String,Integer"),
            String::from("name,age"),
        ],
    );
    store.put(
        String::from("data/hr.people.1.table"),
        vec![String::from("416461,3337")],
    );
    store.put(
        String::from("data/hr.people.2.table"),
        vec![String::from("zz,qq"), String::from("426f62,3432")],
    );
    store
}

fn row_data_of(dbms: &DBMS) -> Vec<Vec<Vec<u8>>> {
    dbms.dataspaces[0].dataspace.tables[0]
        .table
        .rows
        .iter()
        .map(|r| r.fields.iter().map(|f| f.data.clone()).collect())
        .collect()
}

#[test]
fn loading_replays_every_page_and_skips_bad_lines() {
    let mut store = people_store();
    let mut dbms = DBMS::new(String::from("data"));
    dbms.load_from_disk(&mut store).unwrap();
    assert_eq!(dbms.dataspaces.len(), 1);
    assert_eq!(dbms.dataspaces[0].name, "hr");
    let table = &dbms.dataspaces[0].dataspace.tables[0].table;
    assert_eq!(dbms.dataspaces[0].dataspace.tables[0].name, "people");
    assert_eq!(table.page_count, 2);
    assert_eq!(
        row_data_of(&dbms),
        vec![
            vec![b"Ada".to_vec(), b"37".to_vec()],
            vec![b"Bob".to_vec(), b"42".to_vec()],
        ]
    );
}

#[test]
fn loading_twice_yields_the_same_rows_under_fresh_ids() {
    let mut store = people_store();
    let mut first = DBMS::new(String::from("data"));
    first.load_from_disk(&mut store).unwrap();
    let mut second = DBMS::new(String::from("data"));
    second.load_from_disk(&mut store).unwrap();
    assert_eq!(row_data_of(&first), row_data_of(&second));
    let id_a = &first.dataspaces[0].dataspace.tables[0].table.rows[0].id;
    let id_b = &second.dataspaces[0].dataspace.tables[0].table.rows[0].id;
    assert_ne!(id_a, id_b);
}

#[test]
fn missing_info_file_is_a_read_error() {
    let mut store = MemStore::new();
    let mut dbms = DBMS::new(String::from("data"));
    let res = dbms.load_from_disk(&mut store);
    assert!(matches!(res, Err(DBMSError::FileReadError(_))));
}

#[test]
fn missing_table_list_is_a_read_error() {
    let mut store = MemStore::new();
    let dbms = DBMS::new(String::from("data"));
    let res = dbms.load_dataspace(&mut store, &String::from("hr"));
    assert!(matches!(res, Err(DBMSError::FileReadError(_))));
}

#[test]
fn index_definitions_load_from_the_index_file() {
    let mut store = people_store();
    store.put(
        String::from("data/hr.people.indexes"),
        vec![String::from("name:"), String::from("salary:")],
    );
    let mut dbms = DBMS::new(String::from("data"));
    dbms.load_from_disk(&mut store).unwrap();
    let table = &dbms.dataspaces[0].dataspace.tables[0].table;
    assert_eq!(table.indexes.len(), 1);
    assert_eq!(table.indexes[0].columns, vec![String::from("name")]);
    let hits = table
        .lookup_index(&vec![String::from("name")], &vec![b"Ada".to_vec()])
        .expect("index loaded");
    assert_eq!(hits.len(), 1);
    assert_eq!(hits[0].fields[1].data, b"37".to_vec());
}

#[test]
fn corrupt_index_definition_is_reported() {
    let mut table = sample_table();
    let dbms = DBMS::new(String::from("data"));
    let res = dbms.load_table_index(String::from("salary:"), &mut table);
    assert!(matches!(res, Err(DBMSError::CorruptedIndex)));
    assert_eq!(table.indexes.len(), 0);
    assert!(dbms
        .load_table_index(String::from("name,age:"), &mut table)
        .is_ok());
    assert_eq!(table.indexes.len(), 1);
}

#[test]
fn save_then_load_restores_the_row_data() {
    let mut dbms = dbms_with_people();
    dbms.insert_into_table(
        String::from("people"),
        String::from("hr"),
        vec![b"Ada".to_vec(), b"37".to_vec()],
    )
    .unwrap();
    dbms.insert_into_table(
        String::from("people"),
        String::from("hr"),
        vec![b"Bob".to_vec(), b"42".to_vec()],
    )
    .unwrap();
    let mut store = MemStore::new();
    dbms.save_to_disk(&mut store).unwrap();

    let mut reloaded = DBMS::new(String::from("data"));
    reloaded.load_from_disk(&mut store).unwrap();
    assert_eq!(row_data_of(&dbms), row_data_of(&reloaded));
    assert_eq!(reloaded.dataspaces[0].dataspace.tables[0].table.page_count, 1);
}

#[test]
fn persisted_insert_appends_the_encoded_line() {
    let mut dbms = dbms_with_people();
    let mut store = MemStore::new();
    dbms.insert_into_table_on_disk(
        &mut store,
        &String::from("people"),
        &String::from("hr"),
        vec![b"Ada".to_vec(), b"37".to_vec()],
    )
    .unwrap();
    let table = &dbms.dataspaces[0].dataspace.tables[0].table;
    assert_eq!(table.rows.len(), 1);
    assert_eq!(table.page_count, 1);
    assert_eq!(table.current_page_size_bytes, 12);
    let mut found = false;
    for (name, lines) in &store.files {
        if name == "data/hr.people.1.table" {
            assert_eq!(lines, &vec![String::from("416461,3337")]);
            found = true;
        }
    }
    assert!(found);
}
