use mike_db::fields::Field;
use mike_db::fields::FieldType;
use mike_db::rows::Row;

#[test]
fn it_creates_row_with_string() {
    let data = "A String!".as_bytes().to_vec();
    let field1 = Field::new(FieldType::String, data);
    let fields = vec![field1];
    let row = Row::new(fields);
    assert_eq!(
        row.fields.first().unwrap().data,
        vec![65, 32, 83, 116, 114, 105, 110, 103, 33]
    );
}

#[test]
fn row_identifiers_are_hyphenated_and_fresh() {
    let a = Row::new(vec![]);
    let b = Row::new(vec![]);
    assert_eq!(a.id.len(), 36);
    assert_eq!(b.id.len(), 36);
    assert!(a.id.contains('-'));
    assert_ne!(a.id, b.id);
}

#[test]
fn string_field_displays_as_text() {
    let field = Field::new(FieldType::String, b"Ada".to_vec());
    assert_eq!(field.display_string(), "Ada");
    let accented = Field::new(FieldType::String, "h\u{e9}llo".as_bytes().to_vec());
    assert_eq!(accented.display_string(), "h\u{e9}llo");
}

#[test]
fn non_text_fields_display_as_byte_listing() {
    let field = Field::new(FieldType::Integer, vec![65, 32]);
    assert_eq!(field.display_string(), "[65, 32]");
    let broken = Field::new(FieldType::String, vec![0xff]);
    assert_eq!(broken.display_string(), "[255]");
    let empty = Field::new(FieldType::Integer, vec![]);
    assert_eq!(empty.display_string(), "[]");
}

#[test]
fn field_type_names_parse_back() {
    assert_eq!(FieldType::from_str("String"), Ok(FieldType::String));
    assert_eq!(FieldType::from_str("Integer"), Ok(FieldType::Integer));
    assert_eq!(FieldType::from_str("Int"), Err(()));
    assert_eq!(FieldType::from_str(""), Err(()));
    assert_eq!(FieldType::String.name(), "String");
    assert_eq!(FieldType::Integer.name(), "Integer");
}
