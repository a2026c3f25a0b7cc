use rust_database_project::commands::Operator;
use rust_database_project::domain::{DataType, Value};
use rust_database_project::error::DbError;
use rust_database_project::queries::{parse, render, Query};

#[test]
fn render_round_trips_canonical_lines() {
    let lines = vec![
        "SELECT job, height, age FROM people WHERE sex = \"male\"",
        "SELECT id FROM people",
        "SELECT a FROM t WHERE x != -7",
        "SELECT a FROM t WHERE h <= 170.25",
        "CREATE people KEY id FIELDS id:Int, job:String, height:Float, ok:Bool",
        "INSERT id=1, job=\"fire fighter\", height=180.5, ok=true INTO people",
        "DELETE 100 FROM people",
        "DELETE \"bob\" FROM users",
        "SAVE_AS backup.db",
        "READ_FROM init.sql",
    ];
    for line in lines {
        let q = parse(line).expect("canonical line should parse");
        assert_eq!(render(&q), line);
    }
}

#[test]
fn test_parse_select_command() {
    let input = "SELECT job, height, age FROM people WHERE sex = \"male\"";
    match parse(input) {
        Ok(Query::Select { table, fields, condition }) => {
            assert_eq!(table, "people");
            assert_eq!(fields, vec!["job", "height", "age"]);
            if let Some(c) = condition {
                assert_eq!(c.column, "sex");
                assert_eq!(c.operator, Operator::Equal);
                assert_eq!(c.value, Value::String("male".into()));
            } else {
                assert!(false, "No where clause");
            }
        }
        _ => assert!(false, "SELECT parsing error"),
    }
}

#[test]
fn test_parse_create() {
    let input = "CREATE people KEY id FIELDS id:Int, job:String, height:Float";
    match parse(input) {
        Ok(Query::Create { table, pk, columns }) => {
            assert_eq!(table, "people");
            assert_eq!(pk, "id");
            assert_eq!(columns.len(), 3);
        }
        _ => assert!(false, "CREATE parsing error"),
    }
}

#[test]
fn test_parse_delete() {
    let input = "DELETE 100 FROM people";
    match parse(input) {
        Ok(Query::Delete { table, key_value }) => {
            assert_eq!(table, "people");
            assert_eq!(key_value, Value::Int(100));
        }
        _ => assert!(false, "DELETE parsing error"),
    }
}

#[test]
fn test_parse_insert() {
    let input = "INSERT id=1, job=\"fire fighter\", height=180.5 INTO people";
    match parse(input) {
        Ok(Query::Insert { table, values }) => {
            assert_eq!(table, "people");
            assert_eq!(values.len(), 3);
            match &values[2].1 {
                Value::Float(d) => {
                    assert!(!d.neg);
                    assert_eq!(d.int_digits, vec!['1', '8', '0']);
                    assert_eq!(d.frac_digits, vec!['5']);
                }
                _ => assert!(false, "Float was expected"),
            }
        }
        _ => assert!(false, "INSERT parsing error"),
    }
}

#[test]
fn test_parse_save() {
    let input = "SAVE_AS backup.db";
    match parse(input) {
        Ok(Query::SaveAs(path)) => assert_eq!(path, "backup.db"),
        _ => assert!(false, "SAVE_AS parsing error"),
    }
}

#[test]
fn test_parse_read() {
    let input = "READ_FROM init.sql";
    match parse(input) {
        Ok(Query::ReadFrom(path)) => assert_eq!(path, "init.sql"),
        _ => assert!(false, "READ_FROM parsing error"),
    }
}

#[test]
fn test_parse_invalid_syntax() {
    let input = "CREATE TABLE without KEY keyword";

    let result = parse(input);

    match result {
        Err(DbError::SyntaxError(_)) => assert!(true),
        Ok(_) => assert!(false, "Parser should have failed"),
        Err(e) => assert!(false, "SyntaxError expected, got: {:?}", e),
    }
}

#[test]
fn parse_create_exact_columns() {
    let input = "CREATE people KEY id FIELDS id:Int, job:String";
    match parse(input) {
        Ok(Query::Create { table, pk, columns }) => {
            assert_eq!(table, "people");
            assert_eq!(pk, "id");
            assert_eq!(
                columns,
                vec![
                    ("id".to_string(), DataType::Int),
                    ("job".to_string(), DataType::String)
                ]
            );
        }
        _ => assert!(false, "CREATE parsing error"),
    }
}

#[test]
fn parse_negative_int_value() {
    match parse("DELETE -5 FROM t") {
        Ok(Query::Delete { key_value, .. }) => assert_eq!(key_value, Value::Int(-5)),
        _ => assert!(false, "DELETE with negative key failed"),
    }
}

#[test]
fn parse_bool_value() {
    match parse("INSERT id=1, active=true INTO t") {
        Ok(Query::Insert { values, .. }) => {
            assert_eq!(values[1].1, Value::Bool(true));
        }
        _ => assert!(false, "INSERT with bool failed"),
    }
}

#[test]
fn parse_rejects_unknown_type() {
    match parse("CREATE t KEY k FIELDS k:Datetime") {
        Err(DbError::SyntaxError(_)) => {}
        other => assert!(false, "expected SyntaxError, got: {:?}", other.is_ok()),
    }
}

#[test]
fn parse_rejects_unknown_operator() {
    match parse("SELECT a FROM t WHERE a ~ 1") {
        Err(DbError::SyntaxError(_)) => {}
        other => assert!(false, "expected SyntaxError, got: {:?}", other.is_ok()),
    }
}

#[test]
fn parse_rejects_out_of_range_int() {
    match parse("DELETE 100000000000000000000 FROM t") {
        Err(DbError::SyntaxError(_)) => {}
        other => assert!(false, "expected SyntaxError, got: {:?}", other.is_ok()),
    }
}

#[test]
fn parse_rejects_trailing_garbage() {
    match parse("DELETE 1 FROM t extra") {
        Err(DbError::SyntaxError(_)) => {}
        other => assert!(false, "expected SyntaxError, got: {:?}", other.is_ok()),
    }
}

#[test]
fn parse_int_min_and_max() {
    match parse("DELETE -9223372036854775808 FROM t") {
        Ok(Query::Delete { key_value, .. }) => assert_eq!(key_value, Value::Int(i64::MIN)),
        _ => assert!(false, "i64::MIN should parse"),
    }
    match parse("DELETE 9223372036854775807 FROM t") {
        Ok(Query::Delete { key_value, .. }) => assert_eq!(key_value, Value::Int(i64::MAX)),
        _ => assert!(false, "i64::MAX should parse"),
    }
}
