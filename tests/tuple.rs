use toy_db::catalog::{Column, ColumnType, Schema};
use toy_db::error::DbError;
use toy_db::storage::page::TablePage;
use toy_db::storage::tuple::Tuple;
use toy_db::value::Value;

fn int_varchar_schema() -> Schema {
    Schema {
        columns: vec![
            Column {
                name: "_1".to_string(),
                column_type: ColumnType::Int,
            },
            Column {
                name: "_2".to_string(),
                column_type: ColumnType::Varchar,
            },
        ],
    }
}

#[test]
fn serialize() {
    let tuple = Tuple {
        values: vec![Value::Int(i32::MIN), Value::Varchar("foo".to_string())],
    };
    let b = tuple.serialize().unwrap();
    assert_eq!(b, vec![128, 0, 0, 0, 0, 0, 0, 3, 102, 111, 111]);
}

#[test]
fn deserialize() {
    let tuple = Tuple::deserialize(&[128, 0, 0, 0, 0, 0, 0, 3, 102, 111, 111], &int_varchar_schema())
        .unwrap();
    assert_eq!(
        tuple,
        Tuple {
            values: vec![Value::Int(i32::MIN), Value::Varchar("foo".to_string())]
        }
    );
}

#[test]
fn tuple_round_trip_with_trailing_bytes() {
    let tuple = Tuple {
        values: vec![Value::Int(7), Value::Varchar("héllo".to_string())],
    };
    let mut bytes = tuple.serialize().unwrap();
    bytes.extend_from_slice(&[9, 9, 9]);
    assert_eq!(Tuple::deserialize(&bytes, &int_varchar_schema()).unwrap(), tuple);
}

#[test]
fn tuple_deserialize_fails_on_wrong_schema() {
    let bytes = Tuple {
        values: vec![Value::Int(1)],
    }
    .serialize()
    .unwrap();
    assert_eq!(
        Tuple::deserialize(&bytes, &int_varchar_schema()),
        Err(DbError::Corruption)
    );
}

#[test]
fn empty_page_layout() {
    let bytes = TablePage::new().serialize().unwrap();
    assert_eq!(bytes.len(), 4096);
    assert_eq!(&bytes[0..8], &[255, 255, 255, 255, 0, 0, 0, 0]);
    assert!(bytes[8..].iter().all(|b| *b == 0));
}

#[test]
fn page_round_trip_and_layout() {
    let mut page = TablePage::new();
    let t = Tuple {
        values: vec![Value::Int(1), Value::Varchar("a".to_string())],
    };
    assert!(page.insert_tuple(&t));
    page.header.next_block_number = 3;
    let bytes = page.serialize().unwrap();
    assert_eq!(&bytes[0..17], &[0, 0, 0, 3, 0, 0, 0, 1, 0, 0, 0, 1, 0, 0, 0, 1, 97]);
    let back = TablePage::deserialize(&bytes, &int_varchar_schema()).unwrap();
    assert_eq!(back, page);
}

#[test]
fn page_refuses_tuple_beyond_its_room() {
    let mut page = TablePage::new();
    let big = Tuple {
        values: vec![Value::Int(0), Value::Varchar("x".repeat(4080))],
    };
    assert!(page.insert_tuple(&big));
    let small = Tuple {
        values: vec![Value::Int(0), Value::Varchar("y".to_string())],
    };
    assert!(!page.insert_tuple(&small));
    assert_eq!(page.tuples.len(), 1);
}

#[test]
fn page_deserialize_rejects_wrong_size() {
    assert_eq!(
        TablePage::deserialize(&[0u8; 100], &int_varchar_schema()),
        Err(DbError::Corruption)
    );
}
