use rust_database_project::domain::{DataType, Record, Value};
use rust_database_project::error::DbError;

#[test]
fn test_record_validation_fail() {
    let schema = vec![("col_a".to_string(), DataType::Int)];

    let fields = vec![("col_a".to_string(), Value::String("tekst".to_string()))];
    let record = Record { fields };

    let result = record.validate(&schema);

    match result {
        Err(DbError::TypeMismatch(_)) => assert!(true),
        Ok(_) => assert!(false, "Check_type should reject String in Int column"),
        Err(e) => assert!(false, "Expected TypeMismatch, got: {:?}", e),
    }
}

#[test]
fn validate_accepts_exact_match() {
    let schema = vec![
        ("id".to_string(), DataType::Int),
        ("name".to_string(), DataType::String),
        ("active".to_string(), DataType::Bool),
    ];
    let record = Record {
        fields: vec![
            ("id".to_string(), Value::Int(1)),
            ("name".to_string(), Value::String("ada".to_string())),
            ("active".to_string(), Value::Bool(true)),
        ],
    };
    assert!(record.validate(&schema).is_ok());
}

#[test]
fn validate_rejects_missing_column() {
    let schema = vec![
        ("id".to_string(), DataType::Int),
        ("name".to_string(), DataType::String),
    ];
    let record = Record { fields: vec![("id".to_string(), Value::Int(1))] };
    match record.validate(&schema) {
        Err(DbError::ColumnNotFound(c)) => assert_eq!(c, "name"),
        other => assert!(false, "expected ColumnNotFound, got: {:?}", other),
    }
}

#[test]
fn validate_ignores_extra_fields() {
    let schema = vec![("id".to_string(), DataType::Int)];
    let record = Record {
        fields: vec![
            ("id".to_string(), Value::Int(1)),
            ("extra".to_string(), Value::Bool(false)),
        ],
    };
    assert!(record.validate(&schema).is_ok());
}

#[test]
fn validate_rejects_int_where_float_declared() {
    let schema = vec![("height".to_string(), DataType::Float)];
    let record = Record { fields: vec![("height".to_string(), Value::Int(180))] };
    match record.validate(&schema) {
        Err(DbError::TypeMismatch(_)) => {}
        other => assert!(false, "expected TypeMismatch, got: {:?}", other),
    }
}
