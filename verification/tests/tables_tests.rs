use mike_db::dbms::DBMSError;
use mike_db::fields::FieldType;
use mike_db::tables::Table;
use mike_db::tables::TableError;

fn sample_table() -> Table {
    Table::new(
        vec![FieldType::String, FieldType::Integer],
        vec![String::from("name"), String::from("age")],
        0,
    )
}

fn field_data(table: &Table, row: usize) -> Vec<Vec<u8>> {
    table.rows[row].fields.iter().map(|f| f.data.clone()).collect()
}

#[test]
fn insert_then_select_finds_the_row() {
    let mut table = sample_table();
    let row = table.insert(vec![b"Ada".to_vec(), b"37".to_vec()]).expect("conforming row");
    let found = table.select_by_rowid(row.id.clone()).expect("row just inserted");
    assert_eq!(found.id, row.id);
    assert_eq!(found.fields.len(), 2);
    assert_eq!(found.fields[0].data, b"Ada".to_vec());
    assert_eq!(found.fields[1].data, b"37".to_vec());
}

#[test]
fn select_on_unknown_id_returns_none() {
    let mut table = sample_table();
    let _ = table.insert(vec![b"Ada".to_vec(), b"37".to_vec()]).unwrap();
    assert!(table.select_by_rowid(String::from("no-such-id")).is_none());
}

#[test]
fn mismatched_row_is_rejected_without_change() {
    let mut table = sample_table();
    let _ = table.insert(vec![b"Ada".to_vec(), b"37".to_vec()]).unwrap();
    let before = table.rows.len();
    let res = table.insert(vec![b"Bob".to_vec()]);
    assert!(matches!(res, Err(TableError::SchemaMismatch)));
    assert_eq!(table.rows.len(), before);
    let res3 = table.insert(vec![b"a".to_vec(), b"b".to_vec(), b"c".to_vec()]);
    assert!(matches!(res3, Err(TableError::SchemaMismatch)));
    assert_eq!(table.rows.len(), before);
}

#[test]
fn inserted_string_field_displays_as_text() {
    let mut table = sample_table();
    let row = table.insert(vec![b"Ada".to_vec(), b"37".to_vec()]).expect("conforming row");
    assert_eq!(row.fields[0].display_string(), "Ada");
}

#[test]
fn one_field_against_two_columns_is_a_schema_mismatch() {
    let mut table = sample_table();
    let res = table.insert(vec![b"Ada".to_vec()]);
    assert!(matches!(res, Err(TableError::SchemaMismatch)));
    assert_eq!(table.rows.len(), 0);
}

#[test]
fn parse_field_types_reads_the_type_list() {
    let types = Table::parse_field_types(String::from("String,Integer")).unwrap();
    assert_eq!(types, vec![FieldType::String, FieldType::Integer]);
    match Table::parse_field_types(String::from("String,Bogus")) {
        Err(TableError::UnknownFieldType(tok)) => assert_eq!(tok, "Bogus"),
        other => panic!("expected an unknown field type, got {:?}", other),
    }
    assert!(matches!(
        Table::parse_field_types(String::from("")),
        Err(TableError::UnknownFieldType(_))
    ));
}

#[test]
fn type_tokens_are_trimmed_before_parsing() {
    let types = Table::parse_field_types(String::from("String, Integer")).unwrap();
    assert_eq!(types, vec![FieldType::String, FieldType::Integer]);
    let spaced = Table::parse_field_types(String::from("  String\t,  Integer  ")).unwrap();
    assert_eq!(spaced, vec![FieldType::String, FieldType::Integer]);
    match Table::parse_field_types(String::from("String,  Bogus ")) {
        Err(TableError::UnknownFieldType(tok)) => assert_eq!(tok, "Bogus"),
        other => panic!("expected an unknown field type, got {:?}", other),
    }
}

#[test]
fn metadata_type_list_may_carry_spaces() {
    let lines = vec![
        String::from("2"),
        String::from("String, Integer"),
        String::from("name,age"),
    ];
    let table = Table::from_metadata_lines(&lines).expect("spaced type names still parse");
    assert_eq!(table.column_types, vec![FieldType::String, FieldType::Integer]);
}

#[test]
fn metadata_page_yields_schema() {
    let lines = vec![
        String::from("2"),
        String::from("String,Integer"),
        String::from("name,age"),
    ];
    let table = Table::from_metadata_lines(&lines).expect("well-formed metadata");
    assert_eq!(table.page_count, 2);
    assert_eq!(table.column_types, vec![FieldType::String, FieldType::Integer]);
    assert_eq!(table.column_names, vec![String::from("name"), String::from("age")]);
    assert_eq!(table.rows.len(), 0);
}

fn load_error(lines: Vec<&str>) -> String {
    let lines: Vec<String> = lines.into_iter().map(String::from).collect();
    match Table::from_metadata_lines(&lines) {
        Err(DBMSError::TableLoadError(msg)) => msg,
        other => panic!("expected a table load error, got {:?}", other),
    }
}

#[test]
fn malformed_metadata_is_rejected_with_the_reason() {
    assert_eq!(load_error(vec![]), "Missing page count.");
    assert_eq!(load_error(vec!["two"]), "Invalid page count.");
    assert_eq!(load_error(vec!["2"]), "Missing field type data");
    assert_eq!(load_error(vec!["2", "String,Bogus"]), "Invalid field type: Bogus");
    assert_eq!(load_error(vec!["2", "String,Integer"]), "Missing field name data");
    assert_eq!(
        load_error(vec!["2", "String,Integer", "name"]),
        "Column name count mismatch"
    );
    assert_eq!(
        load_error(vec!["2", "String,String", "name,name"]),
        "Duplicate column name"
    );
}

#[test]
fn metadata_lines_render_the_schema() {
    let table = Table::new(
        vec![FieldType::String, FieldType::Integer],
        vec![String::from("name"), String::from("age")],
        2,
    );
    assert_eq!(
        table.metadata_lines(),
        vec![
            String::from("2"),
            String::from("String,Integer"),
            String::from("name,age"),
        ]
    );
}

#[test]
fn bad_page_line_is_skipped_and_loading_continues() {
    let mut table = sample_table();
    let lines = vec![
        String::from("416461,3337"),
        String::from("zz,qq"),
        String::from("426f62,3432"),
    ];
    table.load_page_lines(&lines);
    assert_eq!(table.rows.len(), 2);
    assert_eq!(field_data(&table, 0), vec![b"Ada".to_vec(), b"37".to_vec()]);
    assert_eq!(field_data(&table, 1), vec![b"Bob".to_vec(), b"42".to_vec()]);
}

#[test]
fn spaced_page_tokens_still_load() {
    let mut table = sample_table();
    let lines = vec![String::from(" 416461 , 3337")];
    table.load_page_lines(&lines);
    assert_eq!(table.rows.len(), 1);
    assert_eq!(field_data(&table, 0), vec![b"Ada".to_vec(), b"37".to_vec()]);
}

#[test]
fn mismatched_page_line_is_skipped_too() {
    let mut table = sample_table();
    let lines = vec![String::from("416461"), String::from("426f62,3432")];
    table.load_page_lines(&lines);
    assert_eq!(table.rows.len(), 1);
    assert_eq!(field_data(&table, 0), vec![b"Bob".to_vec(), b"42".to_vec()]);
}

#[test]
fn index_lookup_returns_exactly_the_matching_rows() {
    let mut table = sample_table();
    let _ = table.insert(vec![b"Ada".to_vec(), b"37".to_vec()]).unwrap();
    let _ = table.insert(vec![b"Bob".to_vec(), b"42".to_vec()]).unwrap();
    table.add_index(vec![String::from("name")]).expect("name is a column");
    let _ = table.insert(vec![b"Ada".to_vec(), b"99".to_vec()]).unwrap();

    let hits = table
        .lookup_index(&vec![String::from("name")], &vec![b"Ada".to_vec()])
        .expect("index exists");
    assert_eq!(hits.len(), 2);
    assert_eq!(hits[0].fields[1].data, b"37".to_vec());
    assert_eq!(hits[1].fields[1].data, b"99".to_vec());

    let none = table
        .lookup_index(&vec![String::from("name")], &vec![b"Eve".to_vec()])
        .expect("index exists");
    assert_eq!(none.len(), 0);

    assert!(table
        .lookup_index(&vec![String::from("age")], &vec![b"37".to_vec()])
        .is_none());
}

#[test]
fn index_on_unknown_column_is_rejected() {
    let mut table = sample_table();
    assert!(table.add_index(vec![String::from("salary")]).is_err());
    assert_eq!(table.indexes.len(), 0);
}

#[test]
fn pages_roll_when_the_size_threshold_is_passed() {
    let mut table = sample_table();
    assert_eq!(table.page_count, 0);
    let first = table.record_page_write(100);
    assert_eq!(first, 1);
    assert_eq!(table.page_count, 1);
    assert_eq!(table.current_page_size_bytes, 100);
    let second = table.record_page_write(3000);
    assert_eq!(second, 1);
    assert_eq!(table.current_page_size_bytes, 3100);
    let third = table.record_page_write(1000);
    assert_eq!(third, 2);
    assert_eq!(table.page_count, 2);
    assert_eq!(table.current_page_size_bytes, 1000);
}
