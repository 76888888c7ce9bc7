//! The server's side of a connection, from the text of statements to what a client
//! reads of the replies.

use srrdb::client::{is_end_of_rows, parse_column_def, parse_reply, parse_row, Reply};
use srrdb::console::QueryResult;
use srrdb::engine::catalog::Catalog;
use srrdb::engine::executor::Executor;
use srrdb::engine::storage::Storage;
use srrdb::reply::{next_step, ReplyState};
use srrdb::server::connection::{answer_statement, prepare_query};
use srrdb::server::session::Session;
use srrdb::sql::tokenizer::{number_literals, Tokenizer};

const NOW: u64 = 1_700_000_000;

fn start() -> (Executor, Session) {
    (Executor::new(Catalog::new(), Storage::new()), Session::new("root"))
}

fn learn_numbers(executor: &mut Executor, sql: &str) {
    let tokens = Tokenizer::new(sql).tokenize().expect("tokens");
    for literal in number_literals(&tokens) {
        if literal.parse::<i64>().is_ok() {
            continue;
        }
        if let Ok(number) = literal.parse::<f64>() {
            let bits = number.to_bits();
            executor.numbers.learn_literal(literal, bits);
            executor.numbers.learn_double(bits, format!("{number}"));
            executor.numbers.learn_double((-number).to_bits(), format!("{}", -number));
        }
    }
}

fn text(cell: &Option<Vec<u8>>) -> Option<String> {
    cell.as_ref().map(|bytes| String::from_utf8(bytes.clone()).expect("text"))
}

/// The rows that a client reads; none for a short reply.
fn query(executor: &mut Executor, session: &mut Session, sql: &str) -> Vec<Vec<Option<String>>> {
    learn_numbers(executor, sql);
    let statements = prepare_query(sql).expect("statements");
    let mut rows = Vec::new();
    for statement in &statements {
        assert!(executor.can_execute(&session.database, statement, NOW), "{sql}");
        let (payloads, goes_on) = answer_statement(executor, session, statement, NOW);
        assert!(goes_on, "{sql}: {}", String::from_utf8_lossy(&payloads[0]));
        match parse_reply(&payloads[0]).expect("reply") {
            Reply::Affected { .. } => assert_eq!(payloads.len(), 1),
            Reply::Columns(count) => {
                let count = count as usize;
                for payload in &payloads[1..1 + count] {
                    assert!(parse_column_def(payload).is_some());
                }
                assert!(is_end_of_rows(&payloads[1 + count]));
                let mut at = 2 + count;
                while !is_end_of_rows(&payloads[at]) {
                    let row = parse_row(&payloads[at]).expect("row");
                    rows.push(row.iter().map(text).collect());
                    at += 1;
                }
                assert_eq!(at + 1, payloads.len());
            }
            other => panic!("{sql}: {other:?}"),
        }
    }
    rows
}

fn fails(executor: &mut Executor, session: &mut Session, sql: &str) -> String {
    learn_numbers(executor, sql);
    let statements = prepare_query(sql).expect("statements");
    let (payloads, goes_on) = answer_statement(executor, session, &statements[0], NOW);
    assert!(!goes_on);
    match parse_reply(&payloads[0]).expect("reply") {
        Reply::Error { code: 1064, message } => message,
        other => panic!("{other:?}"),
    }
}

fn number(row: &[Option<String>], column: usize) -> i32 {
    row[column].as_ref().expect("value").parse().expect("number")
}

fn names(rows: &[Vec<Option<String>>]) -> Vec<String> {
    rows.iter().map(|row| row[0].clone().expect("name")).collect()
}

fn setup_items(executor: &mut Executor, session: &mut Session) {
    query(executor, session, "DROP TABLE IF EXISTS items");
    query(
        executor,
        session,
        "CREATE TABLE items (id INT, name TEXT, price DOUBLE, stock INT)",
    );
    query(executor, session, "INSERT INTO items VALUES (1, 'Apple', 1.5, 100)");
    query(executor, session, "INSERT INTO items VALUES (2, 'Banana', 0.8, 50)");
    query(executor, session, "INSERT INTO items VALUES (3, 'Cherry', 2.5, 75)");
    query(executor, session, "INSERT INTO items VALUES (4, 'Date', 3.0, 20)");
    query(executor, session, "INSERT INTO items VALUES (5, 'Elderberry', 4.5, 10)");
}

#[test]
fn test_all_features() {
    let (mut ex, mut se) = start();

    // Basic statements
    query(&mut ex, &mut se, "CREATE TABLE test (id INT, name TEXT)");
    query(&mut ex, &mut se, "INSERT INTO test VALUES (1, 'Alice')");
    query(&mut ex, &mut se, "INSERT INTO test VALUES (2, 'Bob')");
    let rows = query(&mut ex, &mut se, "SELECT id, name FROM test ORDER BY id");
    assert_eq!(rows.len(), 2);
    assert_eq!((number(&rows[0], 0), rows[0][1].as_deref()), (1, Some("Alice")));
    assert_eq!((number(&rows[1], 0), rows[1][1].as_deref()), (2, Some("Bob")));

    // DELETE
    setup_items(&mut ex, &mut se);
    query(&mut ex, &mut se, "DELETE FROM items WHERE id = 1");
    let rows = query(&mut ex, &mut se, "SELECT id, name FROM items ORDER BY id");
    assert_eq!(rows.len(), 4);
    assert_eq!(number(&rows[0], 0), 2);

    query(&mut ex, &mut se, "DELETE FROM items WHERE price > 3.0");
    let rows = query(&mut ex, &mut se, "SELECT id, name FROM items ORDER BY id");
    assert_eq!(rows.len(), 3);

    query(&mut ex, &mut se, "DELETE FROM items");
    let rows = query(&mut ex, &mut se, "SELECT id, name FROM items ORDER BY id");
    assert_eq!(rows.len(), 0);

    // UPDATE
    setup_items(&mut ex, &mut se);
    query(&mut ex, &mut se, "UPDATE items SET price = 1.0 WHERE name = 'Banana'");
    let rows = query(&mut ex, &mut se, "SELECT price FROM items WHERE name = 'Banana'");
    let price: f64 = rows[0][0].as_ref().unwrap().parse().unwrap();
    assert!((price - 1.0).abs() < 0.001);

    query(&mut ex, &mut se, "UPDATE items SET stock = 0 WHERE stock < 30");
    let rows = query(
        &mut ex,
        &mut se,
        "SELECT id, stock FROM items WHERE stock = 0 ORDER BY id",
    );
    assert_eq!(rows.len(), 2);
    assert_eq!(number(&rows[0], 0), 4);
    assert_eq!(number(&rows[1], 0), 5);

    // ORDER BY
    setup_items(&mut ex, &mut se);
    let rows = query(&mut ex, &mut se, "SELECT name, price FROM items ORDER BY price");
    assert_eq!(rows[0][0].as_deref(), Some("Banana"));
    assert_eq!(rows[4][0].as_deref(), Some("Elderberry"));

    let rows = query(&mut ex, &mut se, "SELECT name FROM items ORDER BY name DESC");
    assert_eq!(rows[0][0].as_deref(), Some("Elderberry"));
    assert_eq!(rows[4][0].as_deref(), Some("Apple"));

    // LIMIT and OFFSET
    setup_items(&mut ex, &mut se);
    let rows = query(&mut ex, &mut se, "SELECT id, name FROM items ORDER BY id LIMIT 2");
    assert_eq!(rows.len(), 2);
    assert_eq!(number(&rows[0], 0), 1);
    assert_eq!(number(&rows[1], 0), 2);

    let rows = query(
        &mut ex,
        &mut se,
        "SELECT id, name FROM items ORDER BY id LIMIT 2 OFFSET 2",
    );
    assert_eq!(rows.len(), 2);
    assert_eq!(number(&rows[0], 0), 3);
    assert_eq!(number(&rows[1], 0), 4);

    // LIKE
    setup_items(&mut ex, &mut se);
    let rows = query(
        &mut ex,
        &mut se,
        "SELECT name FROM items WHERE name LIKE 'A%' ORDER BY name",
    );
    assert_eq!(names(&rows), vec!["Apple"]);

    let rows = query(
        &mut ex,
        &mut se,
        "SELECT name FROM items WHERE name LIKE '%erry' ORDER BY name",
    );
    assert_eq!(names(&rows), vec!["Cherry", "Elderberry"]);

    let rows = query(
        &mut ex,
        &mut se,
        "SELECT name FROM items WHERE name LIKE '%a%' ORDER BY name",
    );
    assert_eq!(names(&rows), vec!["Apple", "Banana", "Date"]);

    // BETWEEN
    setup_items(&mut ex, &mut se);
    let rows = query(
        &mut ex,
        &mut se,
        "SELECT name FROM items WHERE price BETWEEN 2.0 AND 4.0 ORDER BY name",
    );
    assert_eq!(names(&rows), vec!["Cherry", "Date"]);

    // IN
    setup_items(&mut ex, &mut se);
    let rows = query(
        &mut ex,
        &mut se,
        "SELECT name FROM items WHERE name IN ('Apple', 'Cherry', 'Fig') ORDER BY name",
    );
    assert_eq!(names(&rows), vec!["Apple", "Cherry"]);

    // IS NULL and IS NOT NULL
    setup_items(&mut ex, &mut se);
    query(&mut ex, &mut se, "INSERT INTO items VALUES (6, 'Fig', NULL, NULL)");
    let rows = query(
        &mut ex,
        &mut se,
        "SELECT name FROM items WHERE price IS NULL ORDER BY name",
    );
    assert_eq!(names(&rows), vec!["Fig"]);

    let rows = query(
        &mut ex,
        &mut se,
        "SELECT name FROM items WHERE price IS NOT NULL ORDER BY name",
    );
    assert_eq!(rows.len(), 5);

    // INSERT with a column list
    query(&mut ex, &mut se, "DROP TABLE IF EXISTS coltest");
    query(&mut ex, &mut se, "CREATE TABLE coltest (id INT, name TEXT, price DOUBLE)");
    query(&mut ex, &mut se, "INSERT INTO coltest (name, id) VALUES ('Bob', 2)");
    query(
        &mut ex,
        &mut se,
        "INSERT INTO coltest (name, id, price) VALUES ('Alice', 1, 9.99)",
    );
    let rows = query(&mut ex, &mut se, "SELECT id, name, price FROM coltest ORDER BY id");
    assert_eq!(rows.len(), 2);
    assert_eq!(number(&rows[0], 0), 1);
    assert_eq!(rows[0][1].as_deref(), Some("Alice"));
    assert_eq!(rows[0][2].as_ref().unwrap().parse::<f64>().unwrap(), 9.99);
    assert_eq!(number(&rows[1], 0), 2);
    assert_eq!(rows[1][1].as_deref(), Some("Bob"));
    assert_eq!(rows[1][2], None);

    // CREATE TABLE IF NOT EXISTS
    query(&mut ex, &mut se, "CREATE TABLE IF NOT EXISTS coltest (id INT)");
    let rows = query(&mut ex, &mut se, "SELECT id, name, price FROM coltest ORDER BY id");
    assert_eq!(rows.len(), 2);

    // Databases
    query(&mut ex, &mut se, "CREATE DATABASE IF NOT EXISTS blogtest");
    query(&mut ex, &mut se, "USE blogtest");
    query(&mut ex, &mut se, "CREATE TABLE t (a INT)");
    query(&mut ex, &mut se, "INSERT INTO t VALUES (1)");
    let rows = query(&mut ex, &mut se, "SELECT a FROM t");
    assert_eq!(number(&rows[0], 0), 1);

    query(&mut ex, &mut se, "CREATE DATABASE IF NOT EXISTS blogtest");
    query(&mut ex, &mut se, "CREATE TABLE IF NOT EXISTS t (a INT)");

    query(&mut ex, &mut se, "DROP DATABASE IF EXISTS nonexistent");
    query(&mut ex, &mut se, "DROP DATABASE blogtest");

    query(&mut ex, &mut se, "USE srrdb");
    assert_eq!(se.database, "srrdb");
}

#[test]
fn conditions_combine() {
    let (mut ex, mut se) = start();
    setup_items(&mut ex, &mut se);
    let rows = query(
        &mut ex,
        &mut se,
        "SELECT name FROM items WHERE price > 1.0 AND stock >= 20 ORDER BY name",
    );
    assert_eq!(names(&rows), vec!["Apple", "Cherry", "Date"]);
    let rows = query(
        &mut ex,
        &mut se,
        "SELECT name FROM items WHERE name = 'Date' OR stock = 50 ORDER BY name",
    );
    assert_eq!(names(&rows), vec!["Banana", "Date"]);
    let rows = query(
        &mut ex,
        &mut se,
        "SELECT name FROM items WHERE name != 'Date' AND stock <= 50 ORDER BY name",
    );
    assert_eq!(names(&rows), vec!["Banana", "Elderberry"]);
    let rows = query(
        &mut ex,
        &mut se,
        "SELECT name FROM items WHERE name LIKE '_a%' ORDER BY name",
    );
    assert_eq!(names(&rows), vec!["Banana", "Date"]);
}

#[test]
fn columns_have_defaults_and_numbers() {
    let (mut ex, mut se) = start();
    query(
        &mut ex,
        &mut se,
        "CREATE TABLE users (id INT AUTO_INCREMENT, name VARCHAR(50), role TEXT DEFAULT 'guest', \
         joined DATETIME DEFAULT CURRENT_TIMESTAMP())",
    );
    query(&mut ex, &mut se, "INSERT INTO users (name) VALUES ('Ada'), ('Bob')");
    query(&mut ex, &mut se, "INSERT INTO users (name, role) VALUES ('Cy', 'admin')");
    let rows = query(&mut ex, &mut se, "SELECT id, name, role, joined FROM users ORDER BY id");
    assert_eq!(rows.len(), 3);
    for (i, row) in rows.iter().enumerate() {
        assert_eq!(number(row, 0), i as i32 + 1);
        assert_eq!(row[3].as_deref(), Some("2023-11-14 22:13:20"));
    }
    assert_eq!(rows[1][2].as_deref(), Some("guest"));
    assert_eq!(rows[2][2].as_deref(), Some("admin"));

    let rows = query(&mut ex, &mut se, "DESCRIBE users");
    assert_eq!(rows, query(&mut ex, &mut se, "DESC users"));
    let shown: Vec<Vec<&str>> = rows
        .iter()
        .map(|row| row.iter().map(|cell| cell.as_deref().unwrap_or("NULL")).collect())
        .collect();
    assert_eq!(
        shown,
        vec![
            vec!["id", "int", "YES", "PRI", "NULL", "auto_increment"],
            vec!["name", "varchar", "YES", "", "NULL", ""],
            vec!["role", "text", "YES", "", "guest", "DEFAULT"],
            vec!["joined", "datetime", "YES", "", "CURRENT_TIMESTAMP", "DEFAULT"],
        ]
    );
}

#[test]
fn databases_and_tables_are_listed() {
    let (mut ex, mut se) = start();
    query(&mut ex, &mut se, "CREATE DATABASE Zoo");
    query(&mut ex, &mut se, "CREATE DATABASE blog");
    assert_eq!(names(&query(&mut ex, &mut se, "SHOW DATABASES")), vec!["Zoo", "blog", "srrdb"]);
    query(&mut ex, &mut se, "CREATE TABLE Users (a INT)");
    query(&mut ex, &mut se, "CREATE TABLE posts (a INT)");
    assert_eq!(names(&query(&mut ex, &mut se, "SHOW TABLES")), vec!["posts", "users"]);
    query(&mut ex, &mut se, "USE DATABASE blog");
    assert_eq!(se.database, "blog");
    assert!(query(&mut ex, &mut se, "SHOW TABLES").is_empty());
}

#[test]
fn failures_tell_why() {
    let (mut ex, mut se) = start();
    query(&mut ex, &mut se, "CREATE TABLE t (a INT, b TEXT)");
    let cases = vec![
        ("SELECT * FROM nowhere", "#HY000Unknown table: nowhere"),
        ("INSERT INTO t (c) VALUES (1)", "#HY000Unknown column: c"),
        ("INSERT INTO t SELECT * FROM t", "#HY000INSERT only supports VALUES"),
        ("UPDATE t SET c = 1", "#HY000Unknown column: c"),
        ("UPDATE t SET a = 1", "#HY000Unknown table: t"),
        ("DELETE FROM t", "#HY000Unknown table: t"),
        ("CREATE TABLE t (a INT)", "#HY000Table 't' already exists"),
        ("DROP TABLE nowhere", "#HY000Unknown table: nowhere"),
        ("DROP DATABASE nowhere", "#HY000Unknown database: nowhere"),
        ("USE nowhere", "#HY000Unknown database: nowhere"),
        ("DESCRIBE nowhere", "#HY000Unknown table: nowhere"),
        ("CREATE INDEX i ON nowhere (a)", "#HY000Unknown table: nowhere"),
        ("DROP INDEX nowhere", "#HY000Unknown index: nowhere"),
        ("DROP VIEW v", "#HY000Unsupported statement"),
        ("SELECT 1 UNION SELECT 2", "#HY000Unsupported query type"),
        ("ALTER TABLE t ADD COLUMN c INT", "#HY000Unsupported statement"),
    ];
    for (sql, message) in cases {
        assert_eq!(fails(&mut ex, &mut se, sql), message, "{sql}");
    }
    se.database = "gone".to_string();
    assert_eq!(fails(&mut ex, &mut se, "SHOW TABLES"), "#HY000Unknown database: gone");
    assert_eq!(fails(&mut ex, &mut se, "SELECT * FROM t"), "#HY000Unknown database: gone");
}

#[test]
fn rows_that_are_too_short_are_not_executed() {
    let (mut ex, mut se) = start();
    query(&mut ex, &mut se, "CREATE TABLE t (a INT, b TEXT)");
    let statements = prepare_query("INSERT INTO t VALUES (1)").expect("statements");
    assert!(!ex.can_execute("srrdb", &statements[0], NOW));
    let statements = prepare_query("INSERT INTO t VALUES (1, 'x')").expect("statements");
    assert!(ex.can_execute("srrdb", &statements[0], NOW));
}

#[test]
fn an_index_answers_like_a_walk() {
    let (mut ex, mut se) = start();
    setup_items(&mut ex, &mut se);
    let walk = query(&mut ex, &mut se, "SELECT id FROM items WHERE name = 'Cherry' AND id = 3");
    query(&mut ex, &mut se, "CREATE INDEX by_name ON items (name)");
    query(&mut ex, &mut se, "CREATE UNIQUE INDEX by_id ON items USING HASH (id)");
    let asked = query(&mut ex, &mut se, "SELECT id FROM items WHERE name = 'Cherry' AND id = 3");
    assert_eq!(walk, asked);

    query(&mut ex, &mut se, "UPDATE items SET name = 'Cherry' WHERE id = 5");
    let rows = query(&mut ex, &mut se, "SELECT id FROM items WHERE name = 'Cherry' ORDER BY id");
    assert_eq!(names(&rows), vec!["3", "5"]);
    let rows = query(&mut ex, &mut se, "SELECT id FROM items WHERE name = 'Elderberry'");
    assert!(rows.is_empty());

    query(&mut ex, &mut se, "DELETE FROM items WHERE id = 3");
    let rows = query(&mut ex, &mut se, "SELECT id FROM items WHERE name = 'Cherry'");
    assert_eq!(names(&rows), vec!["5"]);

    query(&mut ex, &mut se, "INSERT INTO items VALUES (7, 'Cherry', 1.0, 1)");
    let rows = query(&mut ex, &mut se, "SELECT id FROM items WHERE name = 'Cherry' ORDER BY id");
    assert_eq!(names(&rows), vec!["5", "7"]);

    assert_eq!(
        fails(&mut ex, &mut se, "CREATE UNIQUE INDEX again ON items (name)"),
        "#HY000Duplicate entry 'Cherry' for key 'again'"
    );
    assert_eq!(
        fails(&mut ex, &mut se, "CREATE INDEX by_name ON items (name)"),
        "#HY000Index 'by_name' already exists"
    );
    query(&mut ex, &mut se, "DROP INDEX by_name");
    let rows = query(&mut ex, &mut se, "SELECT id FROM items WHERE name = 'Cherry' ORDER BY id");
    assert_eq!(names(&rows), vec!["5", "7"]);
}

#[test]
fn texts_without_statements_are_answered_at_once() {
    match prepare_query("") {
        Err(payload) => assert!(matches!(
            parse_reply(&payload),
            Some(Reply::Affected { affected_rows: 0, last_insert_id: 0 })
        )),
        Ok(_) => panic!("no statement"),
    }
    match prepare_query("SELEC 1") {
        Err(payload) => match parse_reply(&payload) {
            Some(Reply::Error { code: 1064, message }) => {
                assert!(message.starts_with("#HY000sql parser error: "), "{message}")
            }
            other => panic!("{other:?}"),
        },
        Ok(_) => panic!("no statement"),
    }
}

#[test]
fn columns_have_types() {
    let (mut ex, mut se) = start();
    query(
        &mut ex,
        &mut se,
        "CREATE TABLE kinds (a BIGINT, b SMALLINT, c TINYINT, d FLOAT, e DOUBLE, f CHAR(3), \
         g TEXT, h BOOLEAN, i DATE, j DATETIME DEFAULT NOW(), k TIMESTAMP, l JSON, m BLOB, \
         n DECIMAL(5, 2), o INT PRIMARY KEY, p INT DEFAULT 4)",
    );
    let rows = query(&mut ex, &mut se, "DESCRIBE kinds");
    let types: Vec<&str> = rows.iter().map(|row| row[1].as_deref().unwrap()).collect();
    assert_eq!(
        types,
        vec![
            "bigint", "smallint", "tinyint", "float", "double", "char(255)", "text", "tinyint",
            "date", "datetime", "timestamp", "json", "text", "varchar", "int", "int",
        ]
    );
    assert_eq!(rows[9][4].as_deref(), Some("CURRENT_TIMESTAMP"));
    assert_eq!(rows[15][4].as_deref(), Some("4"));
    assert_eq!(rows[14][3].as_deref(), Some(""));
}

#[test]
fn expressions_are_literals_and_columns() {
    let (mut ex, mut se) = start();
    query(
        &mut ex,
        &mut se,
        "CREATE TABLE v (a INT DEFAULT -7, b TEXT, c DOUBLE, d INT)",
    );
    query(&mut ex, &mut se, "INSERT INTO v VALUES (-5, 'quoted', -2.5, 1)");
    query(&mut ex, &mut se, "INSERT INTO v (b, c, d) VALUES ('x', 0.5, NULL)");
    let rows = query(&mut ex, &mut se, "SELECT * FROM v");
    let shown = |row: &Vec<Option<String>>| {
        row.iter().map(|cell| cell.clone().unwrap_or("NULL".to_string())).collect::<Vec<_>>()
    };
    assert_eq!(shown(&rows[0]), vec!["-5", "quoted", "-2.5", "1"]);
    assert_eq!(shown(&rows[1]), vec!["-7", "x", "0.5", "NULL"]);

    let rows = query(&mut ex, &mut se, "SELECT b FROM v WHERE a = -5");
    assert_eq!(names(&rows), vec!["quoted"]);
    let rows = query(&mut ex, &mut se, "SELECT b FROM v WHERE a < -5 AND c > -2.5");
    assert_eq!(names(&rows), vec!["x"]);
    let rows = query(&mut ex, &mut se, "SELECT b FROM v WHERE a = -5 OR a = 1 AND d = 1");
    assert_eq!(names(&rows), vec!["quoted"]);
    let rows = query(&mut ex, &mut se, "SELECT b FROM v WHERE b = 'x'");
    assert_eq!(names(&rows), vec!["x"]);

    query(&mut ex, &mut se, "UPDATE v SET d = a, a = -1, b = 'new' WHERE a = -7");
    let rows = query(&mut ex, &mut se, "SELECT * FROM v WHERE b = 'new'");
    assert_eq!(shown(&rows[0]), vec!["-1", "new", "0.5", "-7"]);
    query(&mut ex, &mut se, "UPDATE v SET a = 3, d = a WHERE b = 'new'");
    let rows = query(&mut ex, &mut se, "SELECT * FROM v WHERE b = 'new'");
    assert_eq!(shown(&rows[0]), vec!["3", "new", "0.5", "3"]);
}

#[test]
fn other_literals_show_their_structure() {
    let (mut ex, mut se) = start();
    query(&mut ex, &mut se, "CREATE TABLE o (a TEXT, b TEXT, c TEXT DEFAULT TRUE)");
    query(&mut ex, &mut se, "INSERT INTO o (a, b) VALUES (TRUE, \"quoted\")");
    let rows = query(&mut ex, &mut se, "SELECT * FROM o");
    for (cell, part) in rows[0].iter().zip([
        "Boolean(true)",
        "DoubleQuotedString(\"quoted\")",
        "Boolean(true)",
    ]) {
        let shown = cell.as_deref().expect("text");
        assert!(shown.starts_with("Value("), "{shown}");
        assert!(shown.contains(part), "{shown}");
    }
    query(&mut ex, &mut se, "UPDATE o SET a = X'0f'");
    let rows = query(&mut ex, &mut se, "SELECT a FROM o");
    assert!(rows[0][0].as_deref().expect("text").contains("HexStringLiteral(\"0f\")"));
    assert!(query(&mut ex, &mut se, "SELECT a FROM o WHERE b = \"quoted\"").is_empty());
    let message = fails(&mut ex, &mut se, "INSERT INTO o VALUES ((1), 'b', 'c')");
    assert!(message.starts_with("#HY000Cannot evaluate expression: Nested("), "{message}");
    query(&mut ex, &mut se, "UPDATE o SET a = 'x'");
    assert_eq!(query(&mut ex, &mut se, "SELECT a FROM o WHERE a = 'x'").len(), 1);
    assert!(query(&mut ex, &mut se, "SELECT a FROM o WHERE (a = 'x')").is_empty());
}

#[test]
fn some_words_are_not_read() {
    for sql in ["SELECT a DIV", "SELECT a DIV b FROM t", "FLUSH RELAY LOGS FOR CHANNEL"] {
        let packet = prepare_query(sql).expect_err("a failure");
        let message = String::from_utf8_lossy(&packet).to_string();
        assert!(message.contains("unsupported use of DIV, CHANNEL or GRANTED"), "{message}");
    }
    assert_eq!(prepare_query("SELECT a DIV 2 FROM t").expect("statements").len(), 1);
}

#[test]
fn other_expressions_are_refused() {
    let (mut ex, mut se) = start();
    query(&mut ex, &mut se, "CREATE TABLE r (a INT, b INT)");
    query(&mut ex, &mut se, "INSERT INTO r VALUES (1, 2)");
    for sql in [
        "UPDATE r SET a = b + 1",
        "UPDATE r SET a = UPPER('x')",
        "INSERT INTO r VALUES (1 + 1, 2)",
        "INSERT INTO r VALUES (1, ABS(2))",
    ] {
        let message = fails(&mut ex, &mut se, sql);
        assert!(message.starts_with("#HY000Cannot evaluate expression: "), "{sql}: {message}");
    }
    assert_eq!(fails(&mut ex, &mut se, "UPDATE r SET a = c"), "#HY000Unknown column: c");
    let rows = query(&mut ex, &mut se, "SELECT * FROM r");
    assert_eq!(rows, vec![vec![Some("1".to_string()), Some("2".to_string())]]);
}

#[test]
fn replies_are_read_packet_by_packet() {
    let (mut ex, mut se) = start();
    query(&mut ex, &mut se, "CREATE TABLE p (id INT, name TEXT)");
    query(&mut ex, &mut se, "INSERT INTO p VALUES (1, 'a'), (2, NULL), (3, '')");
    let statements = prepare_query("SELECT id, name FROM p").expect("statements");
    let (payloads, _) = answer_statement(&mut ex, &mut se, &statements[0], NOW);
    assert_eq!(payloads.len(), 8);
    let mut state = ReplyState::Start;
    for payload in &payloads[..7] {
        let (next, answer) = next_step(state, payload);
        assert!(answer.is_none());
        state = next;
    }
    match next_step(state, &payloads[7]) {
        (ReplyState::Done, Some(QueryResult::ResultSet { columns, rows })) => {
            assert_eq!(columns, vec![b"id".to_vec(), b"name".to_vec()]);
            assert_eq!(
                rows,
                vec![
                    vec![Some(b"1".to_vec()), Some(b"a".to_vec())],
                    vec![Some(b"2".to_vec()), None],
                    vec![Some(b"3".to_vec()), Some(Vec::new())],
                ]
            );
        }
        other => panic!("{other:?}"),
    }
    let statements = prepare_query("DELETE FROM p WHERE id > 1").expect("statements");
    let (payloads, _) = answer_statement(&mut ex, &mut se, &statements[0], NOW);
    assert!(matches!(
        next_step(ReplyState::Start, &payloads[0]),
        (ReplyState::Done, Some(QueryResult::Affected { affected_rows: 2, last_insert_id: 0 }))
    ));
    let statements = prepare_query("SELECT * FROM nowhere").expect("statements");
    let (payloads, _) = answer_statement(&mut ex, &mut se, &statements[0], NOW);
    match next_step(ReplyState::Start, &payloads[0]) {
        (ReplyState::Done, Some(QueryResult::Error { code, message })) => {
            assert_eq!((code, message.as_str()), (1064, "#HY000Unknown table: nowhere"));
        }
        other => panic!("{other:?}"),
    }
    assert!(matches!(next_step(ReplyState::Start, &[]), (ReplyState::Empty, None)));
    assert!(matches!(next_step(ReplyState::Start, &[0xFF, 1]), (ReplyState::Cut, None)));
    assert!(matches!(next_step(ReplyState::Start, &[0xFC, 1]), (ReplyState::Cut, None)));
    let waiting = ReplyState::Columns { left: 1, columns: Vec::new() };
    assert!(matches!(next_step(waiting, &[3, b'd']), (ReplyState::Cut, None)));
    let inside = ReplyState::Rows { columns: Vec::new(), rows: Vec::new() };
    assert!(matches!(next_step(inside, &[5, b'x']), (ReplyState::Cut, None)));
    assert!(matches!(next_step(ReplyState::Done, &[0]), (ReplyState::Done, None)));
}
