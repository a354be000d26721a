use hrest_core::types::{ContractData, DataType, FieldMap};
use hrest_core::types::{
    TYPE_BOOL, TYPE_BYTES, TYPE_FLOAT, TYPE_FLOAT32, TYPE_INT, TYPE_NESTED, TYPE_NULL, TYPE_STRING,
};
use hrest_core::HrestError;

fn make_field_map() -> FieldMap {
    let m = vec![
        ("event".to_string(), 1u8),
        ("task_id".to_string(), 2u8),
        ("headless".to_string(), 5u8),
    ];
    FieldMap::new(m)
}

#[test]
fn field_id_lookup() {
    let map = make_field_map();
    assert_eq!(map.field_id("event"), Some(1));
    assert_eq!(map.field_id("task_id"), Some(2));
    assert_eq!(map.field_id("nonexistent"), None);
}

#[test]
fn field_name_lookup() {
    let map = make_field_map();
    assert_eq!(map.field_name(1), Some("event"));
    assert_eq!(map.field_name(2), Some("task_id"));
    assert_eq!(map.field_name(99), None);
}

#[test]
fn contract_data_verify_hash() {
    let contract = ContractData::new("1.0.0".into(), "abc123".into(), Vec::new());
    assert!(contract.verify_hash("abc123"));
    assert!(!contract.verify_hash("wrong"));
}

#[test]
fn contract_data_unknown_route() {
    let contract = ContractData::new("1.0.0".into(), "hash".into(), Vec::new());
    let result = contract.field_map("POST /unknown");
    assert!(matches!(result, Err(HrestError::UnknownRoute(_))));
}

#[test]
fn round_trip_all_types() {
    let types = [
        (TYPE_NULL, DataType::Null),
        (TYPE_STRING, DataType::Str),
        (TYPE_INT, DataType::Int),
        (TYPE_BOOL, DataType::Bool),
        (TYPE_BYTES, DataType::Bytes),
        (TYPE_NESTED, DataType::Nested),
        (TYPE_FLOAT, DataType::Float),
    ];

    for (byte, expected) in types {
        let parsed = DataType::try_from(byte).expect("Should parse known byte");
        assert_eq!(parsed, expected);
        assert_eq!(u8::from(parsed), byte);
    }
}

#[test]
fn unknown_type_byte_returns_error() {
    let result = DataType::try_from(0xFF);
    assert!(matches!(result, Err(HrestError::InvalidDataType(0xFF))));
}

#[test]
fn float32_type_byte_round_trips() {
    let parsed = DataType::try_from(TYPE_FLOAT32).expect("0x07 is Float32");
    assert_eq!(parsed, DataType::Float32);
    assert_eq!(u8::from(parsed), 0x07);
    assert!(matches!(DataType::try_from(0x08), Err(HrestError::InvalidDataType(0x08))));
}

#[test]
fn data_type_names() {
    assert_eq!(DataType::Null.name(), "Null");
    assert_eq!(DataType::Str.name(), "String");
    assert_eq!(DataType::Float32.name(), "Float32");
}

#[test]
fn field_map_len_and_empty() {
    let map = make_field_map();
    assert_eq!(map.len(), 3);
    assert!(!map.is_empty());
    let empty = FieldMap::new(Vec::new());
    assert_eq!(empty.len(), 0);
    assert!(empty.is_empty());
}

#[test]
fn field_map_is_bidirectional() {
    let map = make_field_map();
    for name in ["event", "task_id", "headless"] {
        let id = map.field_id(name).unwrap();
        assert_eq!(map.field_name(id), Some(name));
    }
}

#[test]
fn contract_data_routes_and_lookup() {
    let routes = vec![
        ("POST /a".to_string(), make_field_map()),
        ("GET /b".to_string(), FieldMap::new(vec![("x".to_string(), 9u8)])),
    ];
    let contract = ContractData::new("2.0".into(), "h".into(), routes);
    assert_eq!(contract.routes(), vec!["POST /a", "GET /b"]);
    let fm = contract.field_map("GET /b").unwrap();
    assert_eq!(fm.field_id("x"), Some(9));
    assert_eq!(contract.version, "2.0");
    assert_eq!(contract.contract_hash, "h");
    match contract.field_map("GET /c") {
        Err(HrestError::UnknownRoute(r)) => assert_eq!(r, "GET /c"),
        _ => panic!("expected UnknownRoute"),
    }
}
