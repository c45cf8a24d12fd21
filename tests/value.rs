use toy_db::catalog::ColumnType;
use toy_db::value::Value;

#[test]
fn serialize_int_zero() {
    assert_eq!(Value::Int(0).serialize(), vec![0, 0, 0, 0]);
}

#[test]
fn serialize_int_min() {
    assert_eq!(Value::Int(i32::MIN).serialize(), vec![128, 0, 0, 0]);
}

#[test]
fn serialize_int_max() {
    assert_eq!(Value::Int(i32::MAX).serialize(), vec![127, 255, 255, 255]);
}

#[test]
fn value_serialize_varchar_jp() {
    assert_eq!(
        Value::Varchar("あいうえお".to_string()).serialize(),
        vec![
            0, 0, 0, 15, 227, 129, 130, 227, 129, 132, 227, 129, 134, 227, 129, 136, 227, 129,
            138
        ]
    )
}

#[test]
fn deseriallize_int_zero() {
    let value = Value::deserialize(&[0, 0, 0, 0], &ColumnType::Int).unwrap();
    assert_eq!(value, (Value::Int(0), 4))
}

#[test]
fn deseriallize_int_min() {
    let value = Value::deserialize(&[128, 0, 0, 0], &ColumnType::Int).unwrap();
    assert_eq!(value, (Value::Int(i32::MIN), 4))
}

#[test]
fn deseriallize_int_max() {
    let value = Value::deserialize(&[127, 255, 255, 255], &ColumnType::Int).unwrap();
    assert_eq!(value, (Value::Int(i32::MAX), 4))
}

#[test]
fn value_deserialize_varchar_jp() {
    let value = Value::deserialize(
        &[
            0, 0, 0, 15, 227, 129, 130, 227, 129, 132, 227, 129, 134, 227, 129, 136, 227, 129,
            138,
        ],
        &ColumnType::Varchar,
    )
    .unwrap();
    assert_eq!(value, (Value::Varchar("あいうえお".to_string()), 19))
}

#[test]
fn serialize_integer_zero() {
    assert_eq!(Value::Int(0).serialize(), vec![0, 0, 0, 0]);
}

#[test]
fn serialize_integer_min() {
    assert_eq!(Value::Int(i32::MIN).serialize(), vec![128, 0, 0, 0]);
}

#[test]
fn serialize_integer_max() {
    assert_eq!(Value::Int(i32::MAX).serialize(), vec![127, 255, 255, 255]);
}

#[test]
fn mod_serialize_varchar_jp() {
    assert_eq!(
        Value::Varchar("あいうえお".to_string()).serialize(),
        vec![0, 0, 0, 15, 227, 129, 130, 227, 129, 132, 227, 129, 134, 227, 129, 136, 227, 129, 138]
    )
}

#[test]
fn deseriallize_integer_zero() {
    let value = Value::deserialize(&[0, 0, 0, 0], &ColumnType::Int).unwrap();
    assert_eq!(value, (Value::Int(0), 4))
}

#[test]
fn deseriallize_integer_min() {
    let value = Value::deserialize(&[128, 0, 0, 0], &ColumnType::Int).unwrap();
    assert_eq!(value, (Value::Int(i32::MIN), 4))
}

#[test]
fn deseriallize_integer_max() {
    let value = Value::deserialize(&[127, 255, 255, 255], &ColumnType::Int).unwrap();
    assert_eq!(value, (Value::Int(i32::MAX), 4))
}

#[test]
fn mod_deserialize_varchar_jp() {
    let value = Value::deserialize(
        &[0, 0, 0, 15, 227, 129, 130, 227, 129, 132, 227, 129, 134, 227, 129, 136, 227, 129, 138],
        &ColumnType::Varchar,
    )
    .unwrap();
    assert_eq!(value, (Value::Varchar("あいうえお".to_string()), 19))
}

#[test]
fn deserialize_rejects_invalid_utf8() {
    let r = Value::deserialize(&[0, 0, 0, 2, 0xc3, 0x28], &ColumnType::Varchar);
    assert_eq!(r, Err(toy_db::error::DbError::Corruption));
}

#[test]
fn deserialize_rejects_short_input() {
    assert_eq!(
        Value::deserialize(&[0, 0, 0], &ColumnType::Int),
        Err(toy_db::error::DbError::Corruption)
    );
    assert_eq!(
        Value::deserialize(&[0, 0, 0, 5, 97, 98], &ColumnType::Varchar),
        Err(toy_db::error::DbError::Corruption)
    );
}

#[test]
fn negative_int_round_trip() {
    let bytes = Value::Int(-2).serialize();
    assert_eq!(bytes, vec![255, 255, 255, 254]);
    assert_eq!(Value::deserialize(&bytes, &ColumnType::Int).unwrap(), (Value::Int(-2), 4));
}

#[test]
fn value_as_text() {
    assert_eq!(Value::Int(-5).to_text(), "-5");
    assert_eq!(Value::Int(i32::MAX).to_text(), "2147483647");
    assert_eq!(Value::Varchar("あい".to_string()).to_text(), "あい");
}
