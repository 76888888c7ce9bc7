//! SQL texts, the console, the shell and the configuration.

use srrdb::config::{CliArgs, Config, ConfigFile};
use srrdb::console::{
    describe_statement, format_result, listed_tables, schema_heading, schema_queries,
    script_statements, Console, LineAction, QueryResult,
};
use srrdb::engine::catalog::Catalog;
use srrdb::engine::executor::Executor;
use srrdb::engine::storage::Storage;
use srrdb::protocol::handshake::{err_payload, ok_payload};
use srrdb::repl::{Repl, ReplAction};
use srrdb::server::connection::{database_to_use, handle_command, Step};
use srrdb::server::session::Session;
use srrdb::sql::ast::SqlStatement;
use srrdb::sql::error::{Error, ParseFailure};
use srrdb::sql::guard::can_read;
use srrdb::sql::parser::Parser;
use srrdb::sql::tokenizer::{number_literals, Tokenizer};

#[test]
fn statements_are_parsed() {
    let statements = Parser::parse_sql("SELECT 1; SHOW TABLES;").expect("statements");
    assert_eq!(statements.len(), 2);
    assert!(matches!(statements[1], SqlStatement::ShowTables));
    assert!(matches!(Parser::parse_one("SHOW DATABASES"), Ok(SqlStatement::ShowDatabases)));
    assert_eq!(
        Parser::parse_one("SELECT 1; SELECT 2").unwrap_err().to_string(),
        "Parse error: sql parser error: expected 1 statement, got 2"
    );
    assert_eq!(
        Parser::parse_one("").unwrap_err().to_string(),
        "Parse error: sql parser error: expected 1 statement, got 0"
    );
    match Parser::parse_sql("SELEC 1") {
        Err(Error::Parse(ParseFailure::Parser(message))) => {
            assert!(message.starts_with("Expected: an SQL statement"), "{message}")
        }
        other => panic!("{other:?}"),
    }
    assert!(matches!(
        Parser::parse_sql("SELECT 'open"),
        Err(Error::Parse(ParseFailure::Tokenizer(_)))
    ));
    let deep = format!("SELECT {}1{}", "(".repeat(200), ")".repeat(200));
    assert!(matches!(
        Parser::parse_sql(&deep),
        Err(Error::Parse(ParseFailure::RecursionLimit))
    ));
    let outline = Parser::outline("SELECT 1").expect("outline");
    assert_eq!(outline.len(), 1);
    assert!(outline[0].starts_with("Query("));
    assert!(outline[0].contains('\n'));
}

#[test]
fn texts_with_some_words_are_not_read() {
    let refused = [
        "SELECT 1 DIV",
        "SELECT a DIV FROM t",
        "SELECT a div b FROM t",
        "SELECT a DIV 2 + 1",
        "SELECT a FROM t WHERE a DIV 2 > 1",
        "FLUSH RELAY LOGS FOR CHANNEL",
        "FLUSH RELAY LOGS for /* which */ channel 'c'",
        "GRANT SELECT ON t TO u GRANTED BY",
        "REVOKE SELECT ON t FROM u GRANTED BY",
    ];
    for sql in refused {
        assert!(!can_read(sql), "{sql}");
        assert!(
            matches!(Parser::parse_sql(sql), Err(Error::Parse(ParseFailure::Unreadable))),
            "{sql}"
        );
        assert!(Parser::parse_one(sql).is_err());
        assert_eq!(
            Parser::outline(sql).unwrap_err().to_string(),
            "Parse error: sql parser error: unsupported use of DIV, CHANNEL or GRANTED"
        );
    }
    let long = format!("SELECT {}a DIV 2", "1 + ".repeat(20));
    assert!(!can_read(&long));
    let read = [
        "SELECT a DIV 2 FROM t",
        "SELECT a DIV 2, b DIV 3 FROM t WHERE 1 < a DIV 2",
        "SELECT t.div, div FROM t",
        "SELECT `div`, 'FOR CHANNEL' FROM t",
        "SELECT channel FROM granted",
        "SELECT 'open DIV",
    ];
    for sql in read {
        assert!(can_read(sql), "{sql}");
    }
    assert_eq!(Parser::parse_sql("SELECT a DIV 2; SELECT t.div FROM t").expect("two").len(), 2);
}

#[test]
fn texts_are_tokenized() {
    let tokens = Tokenizer::new("SELECT 1, 2.50").tokenize().expect("tokens");
    assert_eq!(number_literals(&tokens), vec!["1", "2.50"]);
    assert!(tokens[0].shown.starts_with("Word("));
    let message = Tokenizer::new("SELECT 'open").tokenize().unwrap_err().to_string();
    assert_eq!(
        message,
        "Tokenize error: Unterminated string literal at Line: 1, Column: 8"
    );
}

#[test]
fn commands_lead_to_steps() {
    let executor = Executor::new(Catalog::new(), Storage::new());
    let mut session = Session::new("root");
    let step = |payload: &[u8], session: &mut Session| handle_command(payload, session, &executor);
    assert!(matches!(step(&[1], &mut session), Step::Close));
    assert!(matches!(step(&[14], &mut session), Step::Reply(p) if p == ok_payload(0, 0, 2)));
    assert!(matches!(step(&[27, 0, 0], &mut session), Step::Reply(p) if p == ok_payload(0, 0, 2)));
    assert!(
        matches!(step(&[9], &mut session), Step::Reply(p) if p == err_payload(1045, "Unknown command: 9"))
    );
    assert!(
        matches!(step(b"\x02nowhere", &mut session), Step::Reply(p) if p == err_payload(1049, "Unknown database"))
    );
    assert_eq!(session.database, "srrdb");
    assert!(matches!(step(b"\x02SRRDB", &mut session), Step::Reply(p) if p == ok_payload(0, 0, 2)));
    assert_eq!(session.database, "SRRDB");
    assert!(matches!(step(b"\x03SELECT 1", &mut session), Step::Run(sql) if sql == "SELECT 1"));
    assert!(
        matches!(step(&[], &mut session), Step::Reply(p) if p == err_payload(1064, "empty command packet"))
    );
}

#[test]
fn databases_are_named_in_two_forms() {
    assert_eq!(database_to_use(" use  DATABASE  blog ; ").as_deref(), Some("blog"));
    assert_eq!(database_to_use("USE DATABASE `blog`").as_deref(), Some("blog"));
    assert_eq!(database_to_use("USE blog"), None);
    assert_eq!(database_to_use("USE DATABASE"), None);
    assert_eq!(database_to_use("USE DATABASE a b"), None);
    assert_eq!(database_to_use("SELECT DATABASE x"), None);
}

#[test]
fn the_prompt_shows_the_database() {
    let mut console = Console::new("root");
    assert_eq!(console.prompt(), "srrdb (root)> ");
    console.note_statements(&Parser::parse_sql("USE blog").expect("statements"));
    assert_eq!(console.prompt(), "srrdb (root@blog)> ");
    console.note_statements(&Parser::parse_sql("SELECT 1").expect("statements"));
    assert_eq!(console.prompt(), "srrdb (root@blog)> ");
    assert!(matches!(console.feed("SELECT 1"), LineAction::Wait));
    assert_eq!(console.prompt(), "    -> ");
    assert!(matches!(console.feed("schema"), LineAction::Wait));
    match console.feed("  FROM t; ") {
        LineAction::Run(sql) => assert_eq!(sql, "SELECT 1 schema FROM t;"),
        other => panic!("{other:?}"),
    }
    assert_eq!(console.prompt(), "srrdb (root@blog)> ");
}

#[test]
fn lines_lead_to_actions() {
    let mut console = Console::new("root");
    for line in ["exit", "QUIT", "\\q", " Exit "] {
        assert!(matches!(console.feed(line), LineAction::Quit), "{line}");
    }
    assert!(matches!(console.feed(""), LineAction::Wait));
    assert!(matches!(console.feed("schema"), LineAction::Schema));
    assert!(matches!(console.feed("SELECT"), LineAction::Wait));
    match console.feed("source \"a b.sql\";") {
        LineAction::Source(path) => assert_eq!(path, "a b.sql"),
        other => panic!("{other:?}"),
    }
    assert_eq!(console.prompt(), "srrdb (root)> ");
    assert_eq!(
        script_statements("CREATE TABLE t (a INT);\n\n ; INSERT INTO t VALUES (1) ;\n"),
        vec!["CREATE TABLE t (a INT)", "INSERT INTO t VALUES (1)"]
    );
    assert!(script_statements(" ;; ").is_empty());
}

#[test]
fn results_are_shown_as_tables() {
    let result = QueryResult::ResultSet {
        columns: vec![b"id".to_vec(), b"name".to_vec(), vec![0xFF]],
        rows: vec![
            vec![Some(b"1".to_vec()), Some(b"Alice".to_vec()), None],
            vec![Some(b"22".to_vec()), Some("B\u{f6}b".as_bytes().to_vec()), Some(vec![0xFF])],
        ],
    };
    let expected = "\
+----+-------+------+
| id | name  | ?    |
+----+-------+------+
| 1  | Alice | NULL |
| 22 | B\u{f6}b   | ?    |
+----+-------+------+
2 rows in set
";
    assert_eq!(format_result(&result), expected);
    let one = QueryResult::ResultSet {
        columns: vec![b"a".to_vec()],
        rows: vec![vec![Some(b"x".to_vec()), Some(b"more".to_vec())]],
    };
    assert_eq!(format_result(&one), "+---+\n| a |\n+---+\n| x |\n+---+\n1 row in set\n");
    assert_eq!(
        format_result(&QueryResult::Affected { affected_rows: 2, last_insert_id: 7 }),
        "Query OK, 2 row(s) affected (last insert id: 7)\n"
    );
    assert_eq!(
        format_result(&QueryResult::Error { code: 1064, message: "no".to_string() }),
        "ERROR 1064: no\n"
    );
    assert_eq!(listed_tables(&one), vec!["x"]);
    assert!(listed_tables(&QueryResult::Error { code: 1, message: String::new() }).is_empty());
    assert_eq!(describe_statement("t"), "DESCRIBE t");
    assert_eq!(schema_heading("users"), "\n\u{2500}\u{2500} USERS \u{2500}\u{2500}\n");
}

#[test]
fn the_shell_collects_lines() {
    let mut repl = Repl::new();
    assert_eq!(repl.prompt(), "srrdb> ");
    assert!(matches!(repl.feed("  "), ReplAction::Wait));
    assert!(matches!(repl.feed("SELECT"), ReplAction::Wait));
    assert_eq!(repl.prompt(), "  ...> ");
    match repl.feed(" 1;") {
        ReplAction::Evaluate(sql) => assert_eq!(sql, "SELECT 1;"),
        other => panic!("{other:?}"),
    }
    assert!(matches!(repl.feed(";"), ReplAction::Wait));
    repl.feed("SELECT 2");
    match repl.feed("") {
        ReplAction::Evaluate(sql) => assert_eq!(sql, "SELECT 2"),
        other => panic!("{other:?}"),
    }
    repl.feed("SELECT");
    assert!(repl.interrupt());
    assert!(!repl.interrupt());
    repl.feed("SELECT");
    assert!(matches!(repl.feed(".help"), ReplAction::Help));
    assert_eq!(repl.prompt(), "srrdb> ");
    assert!(matches!(repl.feed(".exit"), ReplAction::Exit));
    assert!(matches!(repl.feed(".quit now"), ReplAction::Exit));
    assert!(matches!(repl.feed(".tokens"), ReplAction::Usage(c) if c == ".tokens"));
    assert!(matches!(repl.feed(".ast"), ReplAction::Usage(c) if c == ".ast"));
    assert!(matches!(repl.feed(".tokens SELECT 1"), ReplAction::Tokens(s) if s == "SELECT 1"));
    assert!(matches!(repl.feed(".ast SELECT 1"), ReplAction::Ast(s) if s == "SELECT 1"));
    assert!(matches!(repl.feed(".what x"), ReplAction::UnknownCommand(s) if s == ".what x"));
}

fn no_args() -> CliArgs {
    CliArgs {
        config: None,
        host: None,
        port: None,
        data_dir: None,
        log_level: None,
        default_password: None,
        repl: false,
        client: false,
        user: None,
        password: None,
    }
}

#[test]
fn arguments_override_the_file() {
    let config = Config::merge(&None, &no_args());
    assert_eq!(config.addr(), "127.0.0.1:3307");
    assert_eq!((config.data_dir.as_str(), config.log_level.as_str()), ("data", "info"));
    assert!(config.default_password.is_none());
    let file = ConfigFile {
        host: Some("0.0.0.0".to_string()),
        port: Some(3308),
        data_dir: Some("/var/lib/srrdb".to_string()),
        log_level: None,
        default_password: Some("secret".to_string()),
    };
    let mut args = no_args();
    args.port = Some(4000);
    args.log_level = Some("debug".to_string());
    let config = Config::merge(&Some(file), &args);
    assert_eq!(config.addr(), "0.0.0.0:4000");
    assert_eq!(config.data_dir, "/var/lib/srrdb");
    assert_eq!(config.log_level, "debug");
    assert_eq!(config.clone().default_password.as_deref(), Some("secret"));
    assert_eq!(args.client_user(), "root");
    args.user = Some("ann".to_string());
    assert_eq!(args.client_user(), "ann");
}

#[test]
fn the_schema_is_asked_for_table_by_table() {
    assert_eq!(schema_queries(&None), vec!["SHOW TABLES"]);
    let listed = QueryResult::ResultSet {
        columns: vec![b"Tables_in_srrdb".to_vec()],
        rows: vec![vec![Some(b"users".to_vec())], vec![], vec![Some(b"posts".to_vec())]],
    };
    assert_eq!(schema_queries(&Some(listed)), vec!["DESCRIBE users", "DESCRIBE posts"]);
    let failed = QueryResult::Error { code: 1064, message: "no".to_string() };
    assert!(schema_queries(&Some(failed)).is_empty());
}
