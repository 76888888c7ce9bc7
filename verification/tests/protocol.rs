//! Packets, the handshake and passwords.

use srrdb::client::{
    build_handshake_response, parse_column_def, parse_reply, parse_row, parse_server_handshake,
    query_payload, Reply,
};
use srrdb::engine::types::{Column, ColumnType, Numbers, Value};
use srrdb::protocol::command::{parse_command, Command};
use srrdb::protocol::frame::{read_header, write_payload, write_payloads};
use srrdb::protocol::handshake::{
    build_handshake, compute_auth_response, eof_payload, err_payload, generate_scramble, hash_native_password,
    lenenc_int_bytes, lenenc_str, ok_payload, parse_handshake_response, read_handshake_response,
    verify_native_password, verify_native_password_hash, CLIENT_CONNECT_WITH_DB,
    CLIENT_PLUGIN_AUTH, CLIENT_PLUGIN_AUTH_LENENC_CLIENT_DATA, CLIENT_SECURE_CONNECTION,
};
use srrdb::protocol::resultset::{
    column_count_payload, column_definition_payload, text_row_payload,
};
use srrdb::reply::query_packet;
use srrdb::server::connection::{
    admission_packet, authenticate, greeting, greeting_packet, reply_place, SERVER_CAPABILITIES,
};
use srrdb::server::session::{Session, User};

#[test]
fn packets_have_places() {
    let greeting = greeting_packet(vec![1, 2]);
    assert_eq!((greeting.seq_id, greeting.payload), (0, vec![1, 2]));
    let admission = admission_packet(vec![3]);
    assert_eq!((admission.seq_id, admission.payload), (2, vec![3]));
    let mut command = query_packet("SELECT 1");
    assert_eq!(command.seq_id, 0);
    assert_eq!(reply_place(&command), 1);
    command.seq_id = 255;
    assert_eq!(reply_place(&command), 0);
    let mut bytes = Vec::new();
    assert_eq!(write_payloads(&mut bytes, 255, &vec![vec![7], vec![8]]), 1);
    assert_eq!(bytes, vec![1, 0, 0, 255, 7, 1, 0, 0, 0, 8]);
}

fn hex(bytes: &[u8]) -> String {
    bytes.iter().map(|b| format!("{b:02x}")).collect()
}

#[test]
fn numbers_take_as_many_bytes_as_they_need() {
    assert_eq!(lenenc_int_bytes(0), vec![0]);
    assert_eq!(lenenc_int_bytes(250), vec![250]);
    assert_eq!(lenenc_int_bytes(251), vec![0xFC, 251, 0]);
    assert_eq!(lenenc_int_bytes(65535), vec![0xFC, 255, 255]);
    assert_eq!(lenenc_int_bytes(65536), vec![0xFD, 0, 0, 1]);
    assert_eq!(lenenc_int_bytes(16777215), vec![0xFD, 255, 255, 255]);
    assert_eq!(lenenc_int_bytes(16777216), vec![0xFE, 0, 0, 0, 1, 0, 0, 0, 0]);
    assert_eq!(lenenc_str(b"abc"), vec![3, b'a', b'b', b'c']);
    assert_eq!(column_count_payload(300), vec![0xFC, 44, 1]);
}

#[test]
fn packets_carry_length_and_place() {
    let mut out = Vec::new();
    write_payload(&mut out, 7, b"hello");
    assert_eq!(out, vec![5, 0, 0, 7, b'h', b'e', b'l', b'l', b'o']);
    assert_eq!(read_header(&out), (5, 7));
    let mut all = Vec::new();
    let next = write_payloads(&mut all, 255, &vec![vec![1], vec![2, 3]]);
    assert_eq!(next, 1);
    assert_eq!(all, vec![1, 0, 0, 255, 1, 2, 0, 0, 0, 2, 3]);
    assert_eq!(read_header(&[1, 2, 3, 4]), (1 + 2 * 256 + 3 * 65536, 4));
}

#[test]
fn short_replies() {
    assert_eq!(ok_payload(3, 300, 2), vec![0, 3, 0xFC, 44, 1, 2, 0, 0, 0]);
    assert_eq!(
        err_payload(1064, "no"),
        vec![0xFF, 40, 4, b'#', b'H', b'Y', b'0', b'0', b'0', b'n', b'o']
    );
    assert_eq!(eof_payload(), vec![0xFE, 2, 0, 0, 0]);
    assert!(matches!(
        parse_reply(&ok_payload(3, 300, 2)),
        Some(Reply::Affected { affected_rows: 3, last_insert_id: 300 })
    ));
    assert!(matches!(
        parse_reply(&eof_payload()),
        Some(Reply::Affected { affected_rows: 0, last_insert_id: 0 })
    ));
    match parse_reply(&err_payload(1049, "Unknown database")) {
        Some(Reply::Error { code: 1049, message }) => {
            assert_eq!(message, "#HY000Unknown database")
        }
        other => panic!("{other:?}"),
    }
    assert!(matches!(parse_reply(&[]), Some(Reply::Empty)));
    assert!(parse_reply(&[0xFF, 1]).is_none());
    assert!(parse_reply(&[0, 0xFC]).is_none());
    assert!(matches!(parse_reply(&[5]), Some(Reply::Columns(5))));
    match parse_reply(&[0xFF, 1, 0, 0xC3, b'x']) {
        Some(Reply::Error { message, .. }) => assert_eq!(message, "\u{FFFD}x"),
        other => panic!("{other:?}"),
    }
}

#[test]
fn stored_passwords_are_digests_of_digests() {
    assert_eq!(
        hex(&hash_native_password("password")),
        "2470c0c06dee42fd1618bb99005adca2ec9d1e19"
    );
    let user = User::with_password("ann", "password");
    assert_eq!(user.name, "ann");
    assert_eq!(
        hex(&user.password_hash.expect("hash")),
        "2470c0c06dee42fd1618bb99005adca2ec9d1e19"
    );
    assert!(User::new("bob").password_hash.is_none());
    let session = Session::new("bob");
    assert_eq!((session.user.name.as_str(), session.database.as_str()), ("bob", "srrdb"));
    let session = Session::new_with_user(user.clone());
    assert_eq!((session.clone().user.name.as_str(), session.database.as_str()), ("ann", "srrdb"));
}

#[test]
fn an_answer_of_another_length_is_refused() {
    let scramble: [u8; 20] = [7; 20];
    let stored = hash_native_password("secret");
    let answer = compute_auth_response(b"secret", &scramble);
    assert_eq!(answer.len(), 20);
    assert!(verify_native_password_hash(&stored, &scramble, &answer));
    let mut longer = answer.clone();
    longer.push(0);
    assert!(!verify_native_password_hash(&stored, &scramble, &longer));
    for n in 0..20 {
        assert!(!verify_native_password_hash(&stored, &scramble, &answer[..n]));
    }
    let mut other = answer.clone();
    other[19] ^= 1;
    assert!(!verify_native_password_hash(&stored, &scramble, &other));
}

#[test]
fn scrambles_differ() {
    assert_ne!(generate_scramble(), generate_scramble());
}

#[test]
fn commands_are_read() {
    assert!(matches!(parse_command(&[1]), Ok(Command::Quit)));
    assert!(matches!(parse_command(&[14]), Ok(Command::Ping)));
    match parse_command(&[2, b'd', b'b']) {
        Ok(Command::InitDb(db)) => assert_eq!(db, "db"),
        other => panic!("{other:?}"),
    }
    match parse_command(&query_payload("SELECT 1")) {
        Ok(Command::Query(sql)) => assert_eq!(sql, "SELECT 1"),
        other => panic!("{other:?}"),
    }
    match parse_command(&[27, 1, 0]) {
        Ok(Command::Unknown(27, args)) => assert_eq!(args, vec![1, 0]),
        other => panic!("{other:?}"),
    }
    assert_eq!(parse_command(&[]).unwrap_err(), "empty command packet");
    assert_eq!(
        parse_command(&[3, 0xFF]).unwrap_err(),
        "invalid utf-8 sequence of 1 bytes from index 0"
    );
    assert!(parse_command(&[2, 0xFF]).is_err());
}

#[test]
fn greetings_have_their_layout() {
    let scramble: [u8; 20] = *b"abcdefghijklmnopqrst";
    let bytes = build_handshake(258, &scramble, CLIENT_PLUGIN_AUTH | CLIENT_SECURE_CONNECTION, 45);
    let mut expected = vec![10u8];
    expected.extend_from_slice(b"srrdb 0.2.0\0");
    expected.extend_from_slice(&[2, 1, 0, 0]);
    expected.extend_from_slice(b"abcdefgh\0");
    expected.extend_from_slice(&[0x00, 0x80, 45, 2, 0, 8, 0, 21]);
    expected.extend_from_slice(&[0; 10]);
    expected.extend_from_slice(b"ijklmnopqrst\0");
    expected.extend_from_slice(b"mysql_native_password\0");
    assert_eq!(bytes, expected);
    let plain = build_handshake(1, &scramble, 0, 8);
    assert_eq!(plain.len(), 1 + 12 + 4 + 8 + 1 + 2 + 1 + 2 + 2 + 1 + 10);
}

#[test]
fn both_sides_agree_on_the_handshake() {
    let scramble: [u8; 20] = *b"0123456789abcdefghij";
    let server = match parse_server_handshake(&greeting(&scramble)) {
        Some(Ok(server)) => server,
        other => panic!("{other:?}"),
    };
    assert_eq!(server.protocol_version, 10);
    assert_eq!(server.server_version, "srrdb 0.2.0");
    assert_eq!(server.connection_id, 1);
    assert_eq!(server.scramble, scramble);
    assert_eq!(server.capabilities, SERVER_CAPABILITIES);
    assert_eq!(server.charset, 45);

    let response = parse_handshake_response(&build_handshake_response(&server, "ann", "secret"))
        .expect("response");
    assert_eq!(response.username, "ann");
    assert_eq!(response.database.as_deref(), Some("srrdb"));
    assert_eq!(response.auth_plugin.as_deref(), Some("mysql_native_password"));
    assert_eq!(response.max_packet_size, 16777215);
    assert_eq!(response.charset, 255);
    assert_eq!(response.auth_response.len(), 20);
    assert!(verify_native_password("secret", &scramble, &response.auth_response));
    assert!(!verify_native_password("other", &scramble, &response.auth_response));
    let stored = hash_native_password("secret");
    assert!(verify_native_password_hash(&stored, &scramble, &response.auth_response));
    assert!(!verify_native_password_hash(&hash_native_password("x"), &scramble, &response.auth_response));

    let (session, payload) = authenticate(&response, &scramble, &Some("secret".to_string()));
    assert_eq!(session.expect("session").user.name, "ann");
    assert_eq!(payload, ok_payload(0, 0, 2));
    let (session, payload) = authenticate(&response, &scramble, &Some("other".to_string()));
    assert!(session.is_none());
    assert_eq!(payload, err_payload(1045, "Access denied for user"));
    let (session, _) = authenticate(&response, &scramble, &None);
    assert!(session.expect("session").user.password_hash.is_none());

    let open = build_handshake_response(&server, "ann", "");
    let response = parse_handshake_response(&open).expect("response");
    assert!(response.auth_response.is_empty());
    let (session, _) = authenticate(&response, &scramble, &Some("secret".to_string()));
    assert!(session.is_none());
}

fn front(capabilities: u32) -> Vec<u8> {
    let mut p = capabilities.to_le_bytes().to_vec();
    p.extend_from_slice(&[0; 28]);
    p
}

#[test]
fn responses_can_be_wrong() {
    assert!(read_handshake_response(&[]).is_none());
    assert!(read_handshake_response(&[0; 31]).is_none());
    match read_handshake_response(&front(0)) {
        Some(Err(e)) => assert_eq!(e, "expected null-terminated username"),
        other => panic!("{other:?}"),
    }
    let mut p = front(0);
    p.extend_from_slice(b"u\0x");
    match read_handshake_response(&p) {
        Some(Err(e)) => assert_eq!(e, "expected null-terminated auth response"),
        other => panic!("{other:?}"),
    }
    let mut p = front(CLIENT_CONNECT_WITH_DB);
    p.extend_from_slice(b"u\0x\0db");
    match read_handshake_response(&p) {
        Some(Err(e)) => assert_eq!(e, "expected null-terminated database"),
        other => panic!("{other:?}"),
    }
    let mut p = front(CLIENT_PLUGIN_AUTH);
    p.extend_from_slice(b"u\0x\0plugin");
    match read_handshake_response(&p) {
        Some(Err(e)) => assert_eq!(e, "expected null-terminated auth plugin"),
        other => panic!("{other:?}"),
    }
    let mut p = front(0);
    p.extend_from_slice(&[0xFF, 0]);
    assert!(matches!(read_handshake_response(&p), Some(Err(_))));
    let mut p = front(CLIENT_SECURE_CONNECTION);
    p.extend_from_slice(b"u\0\x05abc");
    assert!(read_handshake_response(&p).is_none());
    let mut p = front(CLIENT_PLUGIN_AUTH_LENENC_CLIENT_DATA);
    p.extend_from_slice(b"u\0\xFC\x02");
    assert!(read_handshake_response(&p).is_none());
    p.extend_from_slice(b"\x00ab");
    match read_handshake_response(&p) {
        Some(Ok(response)) => assert_eq!(response.auth_response, b"ab"),
        other => panic!("{other:?}"),
    }
    assert!(parse_server_handshake(&[]).is_none());
    match parse_server_handshake(&[10, b'x']) {
        Some(Err(e)) => assert_eq!(e, "missing null terminator for server version"),
        other => panic!("{other:?}"),
    }
    assert!(parse_server_handshake(&[10, 0, 1, 2]).is_none());
}

#[test]
fn columns_and_rows_reach_the_client() {
    let column = Column::new("name", "people", ColumnType::VarChar);
    let bytes = column_definition_payload(&column);
    let mut expected = Vec::new();
    expected.extend_from_slice(b"\x03def\x00\x06people\x06people\x04name\x04name\x0C");
    expected.extend_from_slice(&[45, 0, 255, 0, 0, 0, 15, 0, 0, 0, 0, 0]);
    assert_eq!(bytes, expected);
    assert_eq!(parse_column_def(&bytes), Some(b"name".to_vec()));
    assert_eq!(parse_column_def(&bytes[..10]), None);

    let mut numbers = Numbers::new();
    numbers.learn_double(1.5f64.to_bits(), "1.5".to_string());
    numbers.learn_single(0.25f32.to_bits(), "0.25".to_string());
    let values = vec![
        Value::Null,
        Value::Int(-3),
        Value::UInt(u64::MAX),
        Value::Float(0.25f32.to_bits()),
        Value::Double(1.5f64.to_bits()),
        Value::Bytes(vec![0xFF, 0]),
        Value::Text("h\u{e9}".to_string()),
    ];
    let bytes = text_row_payload(&values, &numbers);
    let row = parse_row(&bytes).expect("row");
    assert_eq!(
        row,
        vec![
            None,
            Some(b"-3".to_vec()),
            Some(b"18446744073709551615".to_vec()),
            Some(b"0.25".to_vec()),
            Some(b"1.5".to_vec()),
            Some(vec![0xFF, 0]),
            Some("h\u{e9}".as_bytes().to_vec()),
        ]
    );
    assert_eq!(parse_row(&[5, b'x']), None);
    assert_eq!(parse_row(&[]), Some(vec![]));
}

#[test]
fn a_query_is_the_first_packet_of_its_exchange() {
    let packet = query_packet("SELECT 1");
    assert_eq!(packet.seq_id, 0);
    assert_eq!(packet.payload, b"\x03SELECT 1".to_vec());
    assert_eq!(packet.payload, query_payload("SELECT 1"));
}
