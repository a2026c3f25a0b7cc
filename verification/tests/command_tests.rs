use rust_database_project::commands::{
    Command, Condition, CreateTableCommand, DeleteCommand, InsertCommand, Operator, SelectCommand,
};
use rust_database_project::database::{Database, Table};
use rust_database_project::domain::{DataType, Record, Value};
use rust_database_project::error::DbError;

fn setup_db() -> Database<i64> {
    Database::new()
}

fn get_people_schema() -> Vec<(String, DataType)> {
    vec![
        ("id".into(), DataType::Int),
        ("job".into(), DataType::String),
        ("height".into(), DataType::Float),
        ("age".into(), DataType::Int),
        ("sex".into(), DataType::String),
    ]
}

fn float(neg: bool, int_digits: &str, frac_digits: &str) -> Value {
    Value::Float(rust_database_project::domain::Decimal {
        neg,
        int_digits: int_digits.chars().collect(),
        frac_digits: frac_digits.chars().collect(),
    })
}

fn person(id: i64, sex: &str, job: &str, height: &str, age: i64) -> Record {
    Record {
        fields: vec![
            ("id".into(), Value::Int(id)),
            ("sex".into(), Value::String(sex.into())),
            ("job".into(), Value::String(job.into())),
            ("height".into(), float(false, height, "0")),
            ("age".into(), Value::Int(age)),
        ],
    }
}

#[test]
fn test_exec_select() {
    let mut db = setup_db();
    db.create_table(Table::new("people".into(), get_people_schema(), "id".into()))
        .expect("create failed");
    let t = db.get_table_mut("people").expect("table missing");
    t.insert(person(1, "male", "actor", "180", 30)).expect("insert failed");
    t.insert(person(2, "female", "actress", "170", 25)).expect("insert failed");

    let cond = Condition {
        column: "sex".into(),
        operator: Operator::Equal,
        value: Value::String("male".into()),
    };

    let cmd = SelectCommand {
        table: "people".into(),
        fields: vec!["job".into()],
        condition: Some(cond),
    };

    match cmd.execute(&mut db) {
        Ok(Some(output)) => {
            assert!(output.contains("actor"));
            assert!(!output.contains("actress"));
        }
        _ => assert!(false, "SELECT execute error"),
    }
}

#[test]
fn test_exec_select_no_where() {
    let mut db = setup_db();
    db.create_table(Table::new("people".into(), get_people_schema(), "id".into()))
        .expect("create failed");
    db.get_table_mut("people")
        .expect("table missing")
        .insert(person(1, "male", "clerk", "175", 40))
        .expect("insert failed");

    let cmd = SelectCommand {
        table: "people".into(),
        fields: vec!["id".into()],
        condition: None,
    };

    match cmd.execute(&mut db) {
        Ok(Some(output)) => assert!(output.contains("1")),
        _ => assert!(false, "SELECT without WHERE error"),
    }
}

#[test]
fn test_exec_create() {
    let mut db = setup_db();
    let cmd = CreateTableCommand {
        name: "people".into(),
        pk_name: "id".into(),
        schema: get_people_schema(),
    };

    let res = cmd.execute(&mut db);
    assert!(res.is_ok());
    assert!(db.get_table("people").is_ok());
}

#[test]
fn test_exec_insert() {
    let mut db = setup_db();
    let t = Table::new("people".into(), get_people_schema(), "id".into());

    if let Err(e) = db.create_table(t) {
        assert!(false, "Not able to create a table: {:?}", e);
        return;
    }

    let cmd = InsertCommand {
        table: "people".into(),
        record: person(1, "male", "fire fighter", "180", 30),
    };

    if let Err(e) = cmd.execute(&mut db) {
        assert!(false, "INSERT execute error: {:?}", e);
    }

    match db.get_table("people") {
        Ok(t_ref) => {
            if let Some(rec) = t_ref.get(&1) {
                assert_eq!(
                    rec.get(&"job".to_string()),
                    Some(&Value::String("fire fighter".into())),
                    "The record fields do not match the inserted ones"
                );
            } else {
                assert!(false, "Record not found after INSERT");
            }
        }
        Err(e) => {
            assert!(false, "Not able to get 'people' table: {:?}", e);
        }
    }
}

#[test]
fn test_exec_delete() {
    let mut db = setup_db();
    db.create_table(Table::new("people".into(), get_people_schema(), "id".into()))
        .expect("create failed");
    db.get_table_mut("people")
        .expect("table missing")
        .insert(person(5, "male", "pilot", "182", 35))
        .expect("insert failed");

    let cmd = DeleteCommand { table: "people".into(), key: 5 };

    assert!(cmd.execute(&mut db).is_ok());
    assert!(db.get_table("people").unwrap().get(&5).is_none());
}

#[test]
fn test_insert_duplicate_key() {
    let mut db = setup_db();
    db.create_table(Table::new(
        "users".into(),
        vec![("id".to_string(), DataType::Int)],
        "id".into(),
    ))
    .expect("create failed");

    let rec1 = Record { fields: vec![("id".to_string(), Value::Int(100))] };

    db.get_table_mut("users")
        .expect("table missing")
        .insert(rec1.clone())
        .expect("first insert failed");

    let cmd = InsertCommand { table: "users".into(), record: rec1 };

    let result = cmd.execute(&mut db);

    match result {
        Err(DbError::DuplicateKey) => assert!(true),
        Ok(_) => assert!(false, "There should be duplicate key error"),
        Err(e) => assert!(false, "DuplicateKey error expected, got: {:?}", e),
    }
}
