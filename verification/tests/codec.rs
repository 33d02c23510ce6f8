use tablestore::commands::{DbCommand, DbResult};
use tablestore::db_types::{ColumnType, Value};
use tablestore::dispatch::{check_frame_header, frame_header, MAX_FRAME_LEN};
use tablestore::protocol::{decode_response, encode_command, encode_error, encode_result, parse_command};

fn sample_commands() -> Vec<DbCommand> {
    vec![
        DbCommand::CreateTable {
            table: "users".to_string(),
            columns: vec![
                ("name".to_string(), ColumnType::Text),
                ("age".to_string(), ColumnType::Int),
                ("active".to_string(), ColumnType::Bool),
            ],
        },
        DbCommand::InsertRow {
            table: "users".to_string(),
            values: vec![Value::Text("Ann".to_string()), Value::Int(30), Value::Bool(true)],
        },
        DbCommand::InsertRow {
            table: "t".to_string(),
            values: vec![Value::Int(-1), Value::Int(i64::MIN), Value::Int(i64::MAX)],
        },
        DbCommand::UpdateRow {
            table: "users".to_string(),
            row_id: 7,
            updates: vec![
                ("age".to_string(), Value::Int(31)),
                ("name".to_string(), Value::Text("Bo".to_string())),
            ],
        },
        DbCommand::SelectAll { table: "users".to_string() },
        DbCommand::GetTables {},
    ]
}

#[test]
fn command_round_trip() {
    for cmd in sample_commands() {
        let bytes = encode_command(&cmd).expect("command should encode");
        let back = parse_command(&bytes).expect("encoded command should decode");
        assert_eq!(back, cmd);
    }
}

#[test]
fn command_round_trip_non_ascii_text() {
    let cmd = DbCommand::InsertRow {
        table: "caf\u{e9}".to_string(),
        values: vec![Value::Text("sm\u{f6}rg\u{e5}sbord \u{1F600}".to_string())],
    };
    let bytes = encode_command(&cmd).expect("command should encode");
    let back = parse_command(&bytes).expect("encoded command should decode");
    assert_eq!(back, cmd);
}

#[test]
fn result_round_trip() {
    let results = vec![
        DbResult::Done,
        DbResult::Rows {
            columns: vec!["name".to_string(), "age".to_string()],
            rows: vec![
                (1, vec![Value::Text("Ann".to_string()), Value::Int(30)]),
                (2, vec![Value::Text("Bo".to_string()), Value::Int(25)]),
            ],
        },
        DbResult::Rows { columns: vec![], rows: vec![] },
    ];
    for res in results {
        let bytes = encode_result(&res).expect("result should encode");
        let back = decode_response(&bytes).expect("encoded result should decode");
        assert_eq!(back, res);
    }
}

#[test]
fn error_round_trip() {
    let bytes = encode_error("Table not found").expect("error should encode");
    let back = decode_response(&bytes);
    assert_eq!(back, Err("Table not found".to_string()));
}

#[test]
fn command_wire_layout_is_exact() {
    let cmd = DbCommand::SelectAll { table: "ab".to_string() };
    let bytes = encode_command(&cmd).expect("command should encode");
    assert_eq!(bytes, vec![0x04, 0x00, 0x02, b'a', b'b']);

    let cmd = DbCommand::InsertRow { table: "t".to_string(), values: vec![Value::Int(1)] };
    let bytes = encode_command(&cmd).expect("command should encode");
    assert_eq!(bytes, vec![0x02, 0x00, 0x01, b't', 0x01, 0x01, 0, 0, 0, 0, 0, 0, 0, 1]);

    let cmd = DbCommand::InsertRow { table: "t".to_string(), values: vec![Value::Int(-2)] };
    let bytes = encode_command(&cmd).expect("command should encode");
    assert_eq!(
        bytes,
        vec![0x02, 0x00, 0x01, b't', 0x01, 0x01, 0xFF, 0xFF, 0xFF, 0xFF, 0xFF, 0xFF, 0xFF, 0xFE]
    );
}

#[test]
fn truncated_buffers_are_rejected() {
    let cmd = DbCommand::CreateTable {
        table: "users".to_string(),
        columns: vec![("name".to_string(), ColumnType::Text)],
    };
    let bytes = encode_command(&cmd).expect("command should encode");
    for n in 0..bytes.len() {
        assert!(parse_command(&bytes[..n]).is_err(), "prefix of {} bytes should fail", n);
    }
}

#[test]
fn unknown_opcode_is_rejected() {
    assert!(parse_command(&[0x09]).is_err());
    assert!(parse_command(&[0xFF, 0x00]).is_err());
}

#[test]
fn unknown_type_tag_is_rejected() {
    // InsertRow "t" with one value whose tag is 0x07.
    let bytes = vec![0x02, 0x00, 0x01, b't', 0x01, 0x07];
    assert!(parse_command(&bytes).is_err());
}

#[test]
fn invalid_utf8_is_rejected() {
    // SelectAll with a 1-byte table name that is not valid UTF-8.
    let bytes = vec![0x04, 0x00, 0x01, 0xFF];
    assert!(parse_command(&bytes).is_err());
}

#[test]
fn trailing_bytes_are_tolerated() {
    let cmd = DbCommand::GetTables {};
    let mut bytes = encode_command(&cmd).expect("command should encode");
    bytes.push(0xAA);
    bytes.push(0xBB);
    assert_eq!(parse_command(&bytes).expect("should decode"), cmd);
}

#[test]
fn oversized_string_is_rejected_at_encode_time() {
    let long = "x".repeat(65536);
    let cmd = DbCommand::SelectAll { table: long };
    assert!(encode_command(&cmd).is_err());

    let ok = "x".repeat(65535);
    let cmd = DbCommand::SelectAll { table: ok };
    assert!(encode_command(&cmd).is_ok());

    assert!(encode_error(&"e".repeat(65536)).is_err());
}

#[test]
fn empty_response_is_rejected() {
    assert!(decode_response(&[]).is_err());
    assert!(decode_response(&[0x02]).is_err());
}

#[test]
fn frame_length_cap_is_one_mebibyte() {
    // 1 MiB exactly is accepted.
    let ok = frame_header(MAX_FRAME_LEN);
    assert_eq!(check_frame_header(&ok), Some(MAX_FRAME_LEN));
    // One byte over the cap is rejected before any payload is read.
    let too_big = frame_header(MAX_FRAME_LEN + 1);
    assert_eq!(check_frame_header(&too_big), None);
    // A huge declared length is rejected outright.
    assert_eq!(check_frame_header(&[0xFF, 0xFF, 0xFF, 0xFF]), None);
    // Small frames pass through with their exact length.
    assert_eq!(check_frame_header(&frame_header(0)), Some(0));
    assert_eq!(check_frame_header(&frame_header(1234)), Some(1234));
}

#[test]
fn frame_header_layout_is_big_endian() {
    assert_eq!(frame_header(0x01020304), vec![0x01, 0x02, 0x03, 0x04]);
}
