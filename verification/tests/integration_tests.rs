//! End-to-end runs through parse and AnyDatabase::execute, and the named
//! behaviours of the store: validation, uniqueness, scan cardinality and
//! order, filtering, deletion, and error reporting.

use rust_database_project::database::{AnyDatabase, Database, Table};
use rust_database_project::domain::{DataType, Record, Value};
use rust_database_project::error::DbError;
use rust_database_project::queries::parse;

fn run(db: &mut AnyDatabase, line: &str) -> Result<Option<String>, DbError> {
    let q = parse(line)?;
    db.execute(q)
}

#[test]
fn select_filters_exactly() {
    let mut db = AnyDatabase::IntDatabase(Database::new());
    run(&mut db, "CREATE people KEY id FIELDS id:Int, sex:String, job:String").unwrap();
    run(&mut db, "INSERT id=1, sex=\"male\", job=\"actor\" INTO people").unwrap();
    run(&mut db, "INSERT id=2, sex=\"female\", job=\"actress\" INTO people").unwrap();
    let out = run(&mut db, "SELECT job FROM people WHERE sex = \"male\"").unwrap();
    assert_eq!(out, Some("actor".to_string()));
}

#[test]
fn delete_missing_key_fails_then_succeeds() {
    let mut db = AnyDatabase::IntDatabase(Database::new());
    run(&mut db, "CREATE users KEY id FIELDS id:Int").unwrap();
    match run(&mut db, "DELETE 100 FROM users") {
        Err(DbError::KeyMismatch) => {}
        other => assert!(false, "expected KeyMismatch, got: {:?}", other),
    }
    run(&mut db, "INSERT id=100 INTO users").unwrap();
    assert!(run(&mut db, "DELETE 100 FROM users").is_ok());
    let out = run(&mut db, "SELECT id FROM users").unwrap();
    assert_eq!(out, Some("".to_string()));
}

#[test]
fn malformed_create_makes_no_table() {
    let mut db = AnyDatabase::IntDatabase(Database::new());
    match run(&mut db, "CREATE TABLE without KEY keyword") {
        Err(DbError::SyntaxError(_)) => {}
        other => assert!(false, "expected SyntaxError, got: {:?}", other),
    }
    // Nothing was created: selecting from any of the words fails.
    match run(&mut db, "SELECT a FROM TABLE") {
        Err(DbError::TableNotFound(_)) => {}
        other => assert!(false, "expected TableNotFound, got: {:?}", other),
    }
}

#[test]
fn scan_counts_inserts_minus_deletes_in_key_order() {
    let mut db: Database<i64> = Database::new();
    db.create_table(Table::new(
        "t".into(),
        vec![("id".to_string(), DataType::Int)],
        "id".into(),
    ))
    .unwrap();
    let t = db.get_table_mut("t").unwrap();
    for id in [5i64, 1, 9, 3] {
        t.insert(Record { fields: vec![("id".to_string(), Value::Int(id))] })
            .unwrap();
    }
    t.delete(&3).unwrap();
    let rows = t.scan();
    assert_eq!(rows.len(), 3);
    let ids: Vec<Value> = rows
        .iter()
        .map(|r| r.get(&"id".to_string()).unwrap().clone())
        .collect();
    assert_eq!(ids, vec![Value::Int(1), Value::Int(5), Value::Int(9)]);
}

#[test]
fn insert_duplicate_leaves_store_unchanged() {
    let mut db: Database<i64> = Database::new();
    db.create_table(Table::new(
        "t".into(),
        vec![("id".to_string(), DataType::Int)],
        "id".into(),
    ))
    .unwrap();
    let t = db.get_table_mut("t").unwrap();
    t.insert(Record { fields: vec![("id".to_string(), Value::Int(7))] })
        .unwrap();
    match t.insert(Record { fields: vec![("id".to_string(), Value::Int(7))] }) {
        Err(DbError::DuplicateKey) => {}
        other => assert!(false, "expected DuplicateKey, got: {:?}", other),
    }
    assert_eq!(t.scan().len(), 1);
}

#[test]
fn select_joins_rows_and_cells() {
    let mut db = AnyDatabase::IntDatabase(Database::new());
    run(&mut db, "CREATE t KEY id FIELDS id:Int, name:String").unwrap();
    run(&mut db, "INSERT id=2, name=\"b\" INTO t").unwrap();
    run(&mut db, "INSERT id=1, name=\"a\" INTO t").unwrap();
    let out = run(&mut db, "SELECT id, name FROM t").unwrap();
    assert_eq!(out, Some("1, a\n2, b".to_string()));
}

#[test]
fn float_rendering_and_comparison() {
    let mut db = AnyDatabase::IntDatabase(Database::new());
    run(&mut db, "CREATE t KEY id FIELDS id:Int, h:Float").unwrap();
    run(&mut db, "INSERT id=1, h=170.5 INTO t").unwrap();
    run(&mut db, "INSERT id=2, h=180.25 INTO t").unwrap();
    let tall = run(&mut db, "SELECT id FROM t WHERE h > 175.0").unwrap();
    assert_eq!(tall, Some("2".to_string()));
    let shown = run(&mut db, "SELECT h FROM t WHERE id = 1").unwrap();
    assert_eq!(shown, Some("170.5".to_string()));
}

#[test]
fn float_equality_ignores_trailing_zeros() {
    let mut db = AnyDatabase::IntDatabase(Database::new());
    run(&mut db, "CREATE t KEY id FIELDS id:Int, h:Float").unwrap();
    run(&mut db, "INSERT id=1, h=1.5 INTO t").unwrap();
    let out = run(&mut db, "SELECT id FROM t WHERE h = 1.50").unwrap();
    assert_eq!(out, Some("1".to_string()));
    let neg = run(&mut db, "SELECT id FROM t WHERE h != -1.5").unwrap();
    assert_eq!(neg, Some("1".to_string()));
}

#[test]
fn negative_int_rendering() {
    let mut db = AnyDatabase::IntDatabase(Database::new());
    run(&mut db, "CREATE t KEY id FIELDS id:Int, v:Int").unwrap();
    run(&mut db, "INSERT id=1, v=-42 INTO t").unwrap();
    let out = run(&mut db, "SELECT v FROM t").unwrap();
    assert_eq!(out, Some("-42".to_string()));
}

#[test]
fn string_keyed_database_roundtrip() {
    let mut db = AnyDatabase::StringDatabase(Database::new());
    run(&mut db, "CREATE users KEY name FIELDS name:String, age:Int").unwrap();
    run(&mut db, "INSERT name=\"bob\", age=20 INTO users").unwrap();
    run(&mut db, "INSERT name=\"alice\", age=30 INTO users").unwrap();
    // Scan order is ascending by the string key.
    let out = run(&mut db, "SELECT name FROM users").unwrap();
    assert_eq!(out, Some("alice\nbob".to_string()));
    assert!(run(&mut db, "DELETE \"bob\" FROM users").is_ok());
    let out = run(&mut db, "SELECT name FROM users").unwrap();
    assert_eq!(out, Some("alice".to_string()));
}

#[test]
fn create_twice_fails() {
    let mut db = AnyDatabase::IntDatabase(Database::new());
    run(&mut db, "CREATE t KEY id FIELDS id:Int").unwrap();
    match run(&mut db, "CREATE t KEY id FIELDS id:Int") {
        Err(DbError::TableAlreadyExists(_)) => {}
        other => assert!(false, "expected TableAlreadyExists, got: {:?}", other),
    }
}

#[test]
fn insert_into_missing_table_fails() {
    let mut db = AnyDatabase::IntDatabase(Database::new());
    match run(&mut db, "INSERT id=1 INTO ghost") {
        Err(DbError::TableNotFound(_)) => {}
        other => assert!(false, "expected TableNotFound, got: {:?}", other),
    }
}

#[test]
fn insert_wrong_key_variant_fails() {
    let mut db = AnyDatabase::IntDatabase(Database::new());
    run(&mut db, "CREATE t KEY id FIELDS id:String").unwrap();
    // The column validates as String, but an Int-keyed store cannot narrow it.
    match run(&mut db, "INSERT id=\"x\" INTO t") {
        Err(DbError::KeyMismatch) => {}
        other => assert!(false, "expected KeyMismatch, got: {:?}", other),
    }
}

#[test]
fn select_unknown_column_fails() {
    let mut db = AnyDatabase::IntDatabase(Database::new());
    run(&mut db, "CREATE t KEY id FIELDS id:Int").unwrap();
    run(&mut db, "INSERT id=1 INTO t").unwrap();
    match run(&mut db, "SELECT nope FROM t") {
        Err(DbError::ColumnNotFound(c)) => assert_eq!(c, "nope"),
        other => assert!(false, "expected ColumnNotFound, got: {:?}", other),
    }
}

#[test]
fn insert_missing_column_fails() {
    let mut db = AnyDatabase::IntDatabase(Database::new());
    run(&mut db, "CREATE t KEY id FIELDS id:Int, name:String").unwrap();
    match run(&mut db, "INSERT id=1 INTO t") {
        Err(DbError::ColumnNotFound(c)) => assert_eq!(c, "name"),
        other => assert!(false, "expected ColumnNotFound, got: {:?}", other),
    }
}

#[test]
fn insert_without_primary_key_column_fails() {
    let mut db = AnyDatabase::IntDatabase(Database::new());
    // The key column is not part of the schema, so every record lacks it.
    run(&mut db, "CREATE t KEY nope FIELDS id:Int").unwrap();
    match run(&mut db, "INSERT id=1 INTO t") {
        Err(DbError::ColumnNotFound(c)) => {
            assert_eq!(c, "Primary key nope not found");
        }
        other => assert!(false, "expected ColumnNotFound, got: {:?}", other),
    }
}

#[test]
fn error_messages_are_not_empty() {
    let errors = vec![
        DbError::TableNotFound("t".into()),
        DbError::TableAlreadyExists("t".into()),
        DbError::ColumnNotFound("c".into()),
        DbError::TypeMismatch("m".into()),
        DbError::InvalidCommand("m".into()),
        DbError::KeyMismatch,
        DbError::DuplicateKey,
        DbError::SyntaxError("m".into()),
        DbError::IoError("m".into()),
        DbError::CommandError("m".into()),
        DbError::InvalidPath("p".into()),
    ];
    for e in errors {
        assert!(!e.message().is_empty());
    }
}

#[test]
fn save_and_read_are_no_ops_for_the_core() {
    let mut db = AnyDatabase::IntDatabase(Database::new());
    assert_eq!(run(&mut db, "SAVE_AS backup.db").unwrap(), None);
    assert_eq!(run(&mut db, "READ_FROM init.sql").unwrap(), None);
}

#[test]
fn cross_variant_comparisons_never_match_orderings() {
    let mut db = AnyDatabase::IntDatabase(Database::new());
    run(&mut db, "CREATE t KEY id FIELDS id:Int, name:String").unwrap();
    run(&mut db, "INSERT id=1, name=\"a\" INTO t").unwrap();
    // A String column compared to an Int value: never below, above or equal.
    assert_eq!(run(&mut db, "SELECT id FROM t WHERE name < 5").unwrap(), Some("".into()));
    assert_eq!(run(&mut db, "SELECT id FROM t WHERE name > 5").unwrap(), Some("".into()));
    assert_eq!(run(&mut db, "SELECT id FROM t WHERE name = 5").unwrap(), Some("".into()));
    // ... while != reports them unequal.
    assert_eq!(run(&mut db, "SELECT id FROM t WHERE name != 5").unwrap(), Some("1".into()));
}
