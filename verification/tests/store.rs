use tablestore::commands::{DbCommand, DbError, DbResult};
use tablestore::db::Database;
use tablestore::db_types::{ColumnType, Value};
use tablestore::dispatch::handle_frame;
use tablestore::protocol::{decode_response, encode_command};

fn users_db() -> Database {
    let mut db = Database::new();
    let r = db.create_table(
        "users".to_string(),
        vec![("name".to_string(), ColumnType::Text), ("age".to_string(), ColumnType::Int)],
    );
    assert_eq!(r, Ok(DbResult::Done));
    db
}

#[test]
fn create_table_then_duplicate_fails() {
    let mut db = users_db();
    let r = db.create_table(
        "users".to_string(),
        vec![("name".to_string(), ColumnType::Text), ("age".to_string(), ColumnType::Int)],
    );
    assert_eq!(r, Err(DbError::AlreadyExists));
}

#[test]
fn insert_assigns_sequential_ids() {
    let mut db = users_db();
    let r = db.insert_row(
        "users".to_string(),
        vec![Value::Text("Ann".to_string()), Value::Int(30)],
    );
    assert_eq!(r, Ok(DbResult::Done));
    let r = db.insert_row(
        "users".to_string(),
        vec![Value::Text("Bo".to_string()), Value::Int(25)],
    );
    assert_eq!(r, Ok(DbResult::Done));
    match db.select_all("users".to_string()) {
        Ok(DbResult::Rows { rows, .. }) => {
            assert_eq!(rows[0].0, 1);
            assert_eq!(rows[1].0, 2);
        },
        other => panic!("unexpected result: {:?}", other),
    }
}

#[test]
fn select_all_returns_rows_ascending_by_id() {
    let mut db = users_db();
    db.insert_row("users".to_string(), vec![Value::Text("Ann".to_string()), Value::Int(30)])
        .unwrap();
    db.insert_row("users".to_string(), vec![Value::Text("Bo".to_string()), Value::Int(25)])
        .unwrap();
    let r = db.select_all("users".to_string()).unwrap();
    assert_eq!(
        r,
        DbResult::Rows {
            columns: vec!["name".to_string(), "age".to_string()],
            rows: vec![
                (1, vec![Value::Text("Ann".to_string()), Value::Int(30)]),
                (2, vec![Value::Text("Bo".to_string()), Value::Int(25)]),
            ],
        }
    );
}

#[test]
fn update_row_changes_one_column_in_place() {
    let mut db = users_db();
    db.insert_row("users".to_string(), vec![Value::Text("Ann".to_string()), Value::Int(30)])
        .unwrap();
    let r = db.update_row("users".to_string(), 1, vec![("age".to_string(), Value::Int(31))]);
    assert_eq!(r, Ok(DbResult::Done));
    match db.select_all("users".to_string()).unwrap() {
        DbResult::Rows { rows, .. } => {
            assert_eq!(rows[0], (1, vec![Value::Text("Ann".to_string()), Value::Int(31)]));
        },
        other => panic!("unexpected result: {:?}", other),
    }
}

#[test]
fn insert_type_mismatch_names_first_bad_column() {
    let mut db = users_db();
    let r = db.insert_row("users".to_string(), vec![Value::Int(5), Value::Int(30)]);
    assert_eq!(r, Err(DbError::TypeMismatch("name".to_string())));
    // No partial row was committed.
    match db.select_all("users".to_string()).unwrap() {
        DbResult::Rows { rows, .. } => assert_eq!(rows.len(), 0),
        other => panic!("unexpected result: {:?}", other),
    }
}

#[test]
fn get_tables_lists_one_row_per_column() {
    let mut db = users_db();
    let r = db.get_tables().unwrap();
    assert_eq!(
        r,
        DbResult::Rows {
            columns: vec![
                "table_name".to_string(),
                "column_name".to_string(),
                "column_type".to_string(),
            ],
            rows: vec![
                (
                    1,
                    vec![
                        Value::Text("users".to_string()),
                        Value::Text("name".to_string()),
                        Value::Text("text".to_string()),
                    ],
                ),
                (
                    2,
                    vec![
                        Value::Text("users".to_string()),
                        Value::Text("age".to_string()),
                        Value::Text("int".to_string()),
                    ],
                ),
            ],
        }
    );
}

#[test]
fn missing_table_fails_not_found() {
    let mut db = Database::new();
    assert_eq!(
        db.insert_row("nope".to_string(), vec![Value::Int(1)]),
        Err(DbError::NotFound)
    );
    assert_eq!(db.select_all("nope".to_string()), Err(DbError::NotFound));
    assert_eq!(db.update_row("nope".to_string(), 1, vec![]), Err(DbError::NotFound));
}

#[test]
fn update_missing_row_fails_and_keeps_row_count() {
    let mut db = users_db();
    db.insert_row("users".to_string(), vec![Value::Text("Ann".to_string()), Value::Int(30)])
        .unwrap();
    let r = db.update_row("users".to_string(), 99, vec![("age".to_string(), Value::Int(1))]);
    assert_eq!(r, Err(DbError::RowNotFound));
    match db.select_all("users".to_string()).unwrap() {
        DbResult::Rows { rows, .. } => assert_eq!(rows.len(), 1),
        other => panic!("unexpected result: {:?}", other),
    }
}

#[test]
fn update_unknown_column_fails() {
    let mut db = users_db();
    db.insert_row("users".to_string(), vec![Value::Text("Ann".to_string()), Value::Int(30)])
        .unwrap();
    let r = db.update_row(
        "users".to_string(),
        1,
        vec![("height".to_string(), Value::Int(170))],
    );
    assert_eq!(r, Err(DbError::ColumnNotFound("height".to_string())));
}

#[test]
fn update_type_mismatch_leaves_earlier_updates_applied() {
    let mut db = users_db();
    db.insert_row("users".to_string(), vec![Value::Text("Ann".to_string()), Value::Int(30)])
        .unwrap();
    let r = db.update_row(
        "users".to_string(),
        1,
        vec![
            ("age".to_string(), Value::Int(40)),
            ("name".to_string(), Value::Int(5)),
        ],
    );
    assert_eq!(r, Err(DbError::TypeMismatch("name".to_string())));
    // The first update was already applied when the second failed.
    match db.select_all("users".to_string()).unwrap() {
        DbResult::Rows { rows, .. } => {
            assert_eq!(rows[0], (1, vec![Value::Text("Ann".to_string()), Value::Int(40)]));
        },
        other => panic!("unexpected result: {:?}", other),
    }
}

#[test]
fn insert_wrong_value_count_fails() {
    let mut db = users_db();
    let r = db.insert_row("users".to_string(), vec![Value::Text("Ann".to_string())]);
    assert_eq!(r, Err(DbError::ColumnCountMismatch));
}

#[test]
fn execute_dispatches_each_command() {
    let mut db = Database::new();
    let r = db.execute(DbCommand::CreateTable {
        table: "t".to_string(),
        columns: vec![("v".to_string(), ColumnType::Bool)],
    });
    assert_eq!(r, Ok(DbResult::Done));
    let r = db.execute(DbCommand::InsertRow {
        table: "t".to_string(),
        values: vec![Value::Bool(true)],
    });
    assert_eq!(r, Ok(DbResult::Done));
    let r = db.execute(DbCommand::SelectAll { table: "t".to_string() });
    assert_eq!(
        r,
        Ok(DbResult::Rows {
            columns: vec!["v".to_string()],
            rows: vec![(1, vec![Value::Bool(true)])],
        })
    );
}

#[test]
fn error_messages_match_the_wire_text() {
    assert_eq!(DbError::AlreadyExists.message(), "Table already exists");
    assert_eq!(DbError::NotFound.message(), "Table not found");
    assert_eq!(DbError::RowNotFound.message(), "Row not found");
    assert_eq!(DbError::ColumnNotFound("x".to_string()).message(), "Column not found");
    assert_eq!(DbError::ColumnCountMismatch.message(), "Column count mismatch");
    assert_eq!(
        DbError::TypeMismatch("age".to_string()).message(),
        "Type mismatch for column age"
    );
}

#[test]
fn handle_frame_runs_a_full_session() {
    let mut db = Database::new();

    let create = encode_command(&DbCommand::CreateTable {
        table: "users".to_string(),
        columns: vec![("name".to_string(), ColumnType::Text), ("age".to_string(), ColumnType::Int)],
    })
    .unwrap();
    let reply = handle_frame(&mut db, &create);
    assert_eq!(decode_response(&reply), Ok(DbResult::Done));

    // A second identical create is rejected with the encoded error message.
    let reply = handle_frame(&mut db, &create);
    assert_eq!(decode_response(&reply), Err("Table already exists".to_string()));

    let insert = encode_command(&DbCommand::InsertRow {
        table: "users".to_string(),
        values: vec![Value::Text("Ann".to_string()), Value::Int(30)],
    })
    .unwrap();
    let reply = handle_frame(&mut db, &insert);
    assert_eq!(decode_response(&reply), Ok(DbResult::Done));

    let select = encode_command(&DbCommand::SelectAll { table: "users".to_string() }).unwrap();
    let reply = handle_frame(&mut db, &select);
    assert_eq!(
        decode_response(&reply),
        Ok(DbResult::Rows {
            columns: vec!["name".to_string(), "age".to_string()],
            rows: vec![(1, vec![Value::Text("Ann".to_string()), Value::Int(30)])],
        })
    );

    // A malformed frame gets a protocol-error reply and does not kill the
    // dispatcher: the next command still works.
    let reply = handle_frame(&mut db, &[0xFF, 0x01]);
    match decode_response(&reply) {
        Err(msg) => assert!(msg.starts_with("Protocol error")),
        other => panic!("expected an error reply, got {:?}", other),
    }
    let reply = handle_frame(&mut db, &select);
    assert!(decode_response(&reply).is_ok());
}
