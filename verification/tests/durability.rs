//! The log, checkpoints, files and restarts.

use std::collections::HashMap;

use srrdb::engine::catalog::Catalog;
use srrdb::engine::codec::Coded;
use srrdb::engine::executor::{ExecuteResult, Executor, SaveAction};
use srrdb::engine::index::{IndexDef, IndexType};
use srrdb::engine::persistence::{catalog_bytes, catalog_of, rows_in, table_bytes, Persistence};
use srrdb::engine::recovery::{
    has_checkpoint, load_tables, needs_checkpoint, recover, tables_to_load, take_checkpoint,
};
use srrdb::engine::storage::{Row, Storage};
use srrdb::engine::types::{Column, ColumnType, DefaultExpr, Value};
use srrdb::engine::wal::{
    build_checkpoint_data, replay, replay_checkpoint, CheckpointError, Wal, WalEntry,
};
use srrdb::sql::parser::Parser;

fn run(executor: &mut Executor, db: &str, sql: &str) -> Result<ExecuteResult, String> {
    let statement = Parser::parse_one(sql).expect("statement");
    assert!(executor.can_execute(db, &statement, 0));
    executor.execute(db, &statement, 0)
}

fn row(id: u64, values: Vec<Value>) -> Row {
    Row { id, values }
}

fn shown(storage: &Storage, table: &str) -> Vec<String> {
    storage.get_rows(table).iter().map(|r| format!("{:?}", r.values)).collect()
}

#[test]
fn entries_have_their_layout() {
    let entry = WalEntry::DropTable { table_name: "ab".to_string() };
    let bytes = entry.serialize();
    assert_eq!(bytes, vec![0x53, 0x44, 17, 0, 0, 0, 2, 2, 0, 0, 0, 0, 0, 0, 0, b'a', b'b']);
    match WalEntry::deserialize(2, &bytes[7..]) {
        Ok(Some(WalEntry::DropTable { table_name })) => assert_eq!(table_name, "ab"),
        other => panic!("{other:?}"),
    }
    assert!(matches!(WalEntry::deserialize(9, &[]), Ok(None)));
    assert!(WalEntry::deserialize(2, &[1, 2]).is_err());
    assert!(matches!(WalEntry::deserialize(255, &[]), Ok(Some(WalEntry::Checkpoint))));
}

#[test]
fn rows_are_encoded_as_bincode_does() {
    let rows = vec![row(7, vec![Value::Null, Value::Int(-5), Value::Text("x\u{e9}".to_string())])];
    let expected = bincode::serialize(&(
        1u64,
        (7u64, 3u64, 0u32, (1u32, -5i64), (6u32, "x\u{e9}".to_string())),
    ))
    .expect("bytes");
    assert_eq!(table_bytes(&rows), expected);
    let read = rows_in(&expected).expect("rows");
    assert_eq!(format!("{read:?}"), format!("{rows:?}"));
    assert!(rows_in(&expected[..expected.len() - 1]).is_none());

    let rows = vec![row(
        1,
        vec![
            Value::UInt(9),
            Value::Float(1.5f32.to_bits()),
            Value::Double(2.5f64.to_bits()),
            Value::Bytes(vec![1, 2]),
        ],
    )];
    let expected = bincode::serialize(&(
        1u64,
        (1u64, 4u64, (2u32, 9u64), (3u32, 1.5f32), (4u32, 2.5f64), (5u32, vec![1u8, 2u8])),
    ))
    .expect("bytes");
    assert_eq!(table_bytes(&rows), expected);
}

#[test]
fn columns_are_encoded_as_bincode_does() {
    let mut column = Column::new("c", "t", ColumnType::Double);
    column.auto_increment = true;
    column.default_expr = Some(DefaultExpr::Value(Value::Int(4)));
    let mut out = Vec::new();
    column.encode(&mut out);
    let expected = bincode::serialize(&(
        ("c".to_string(), "t".to_string(), 5u32, 22u32),
        (45u16, 0u16, 0u8, true, Some((0u32, (1u32, 4i64)))),
    ))
    .expect("bytes");
    assert_eq!(out, expected);
}

#[test]
fn catalogs_are_saved_and_loaded() {
    let mut catalog = Catalog::new();
    catalog
        .create_table("srrdb", "T", vec![Column::new("a", "T", ColumnType::Long)])
        .expect("table");
    catalog
        .create_index(
            "srrdb",
            IndexDef {
                name: "i".to_string(),
                index_type: IndexType::Hash,
                table_name: "T".to_string(),
                columns: vec!["a".to_string()],
                unique: true,
            },
        )
        .expect("index");
    let bytes = catalog_bytes(&catalog);
    let loaded = catalog_of(&bytes).expect("catalog");
    assert_eq!(catalog_bytes(&loaded), bytes);
    assert!(loaded.table_exists("SRRDB", "t"));
    assert_eq!(loaded.get_table_indexes("srrdb", "t").len(), 1);
    assert!(catalog_of(&bytes[..4]).is_none());
}

#[test]
fn paths_lie_in_the_data_directory() {
    let persistence = Persistence::new("data".to_string());
    assert_eq!(persistence.data_dir(), "data");
    assert_eq!(persistence.catalog_path(), "data/catalog.srrdb");
    assert_eq!(persistence.tables_path(), "data/tables");
    assert_eq!(persistence.table_path("users"), "data/tables/users.srrdb");
    assert_eq!(Wal::new("data").path(), "data/srrdb.wal");
    assert_eq!(Wal::new("/var/db/").path(), "/var/db/srrdb.wal");
}

#[test]
fn a_cut_log_gives_the_entries_before_the_cut() {
    let mut log = Vec::new();
    let create = WalEntry::CreateTable {
        table_name: "t".to_string(),
        columns: vec![Column::new("a", "t", ColumnType::Long)],
    };
    log.extend(create.serialize());
    let insert = WalEntry::InsertRows {
        table_name: "t".to_string(),
        rows: vec![row(0, vec![Value::Int(1)]), row(0, vec![Value::Int(2)])],
    };
    log.extend(insert.serialize());
    let whole = log.len();
    log.extend(
        WalEntry::TableSnapshot { table_name: "t".to_string(), rows: vec![] }.serialize(),
    );
    for cut in whole..log.len() {
        let mut catalog = Catalog::new();
        let mut storage = Storage::new();
        assert_eq!(replay(&log[..cut], &mut catalog, &mut storage), 2);
        assert_eq!(shown(&storage, "t"), vec!["[Int(1)]", "[Int(2)]"]);
    }
    let mut catalog = Catalog::new();
    let mut storage = Storage::new();
    assert_eq!(replay(&log, &mut catalog, &mut storage), 3);
    assert!(storage.get_rows("t").is_empty());
    assert_eq!(replay(b"not a log", &mut catalog, &mut storage), 0);
    assert_eq!(replay(&[0x53, 0x44, 3, 0, 0, 0, 1, 0], &mut catalog, &mut storage), 0);
}

#[test]
fn entries_that_do_not_apply_are_not_counted() {
    let mut log = Vec::new();
    let drop = WalEntry::DropTable { table_name: "nowhere".to_string() };
    log.extend(drop.serialize());
    log.extend(WalEntry::Checkpoint.serialize());
    let mut catalog = Catalog::new();
    let mut storage = Storage::new();
    assert_eq!(replay(&log, &mut catalog, &mut storage), 1);
}

#[test]
fn checkpoints_give_the_state_back() {
    let mut executor = Executor::new(Catalog::new(), Storage::new());
    run(&mut executor, "srrdb", "CREATE TABLE t (a INT, b TEXT)").expect("table");
    run(&mut executor, "srrdb", "INSERT INTO t VALUES (1, 'x'), (2, 'y')").expect("rows");
    let bytes = build_checkpoint_data(&executor.catalog, &executor.storage);
    let (catalog, storage) = match replay_checkpoint(&bytes) {
        Ok(state) => state,
        Err(e) => panic!("{e:?}"),
    };
    assert_eq!(catalog_bytes(&catalog), catalog_bytes(&executor.catalog));
    assert_eq!(shown(&storage, "t"), shown(&executor.storage, "t"));
    assert!(matches!(replay_checkpoint(b"x"), Err(CheckpointError::Invalid)));
    let entry = WalEntry::DropTable { table_name: "t".to_string() }.serialize();
    assert!(matches!(replay_checkpoint(&entry), Err(CheckpointError::NotCheckpoint)));
    assert!(matches!(replay_checkpoint(&bytes[..20]), Err(CheckpointError::Malformed)));
}

#[test]
fn nothing_that_was_logged_is_lost_in_a_crash() {
    let persistence = Persistence::new("data".to_string());
    let mut executor = Executor::with_wal(
        Catalog::new(),
        Storage::new(),
        persistence,
        Wal::new("data"),
    );
    let mut log = take_checkpoint(&mut executor);
    assert!(has_checkpoint(&log));
    for sql in [
        "CREATE TABLE t (id INT AUTO_INCREMENT, name TEXT)",
        "INSERT INTO t (name) VALUES ('a'), ('b'), ('c')",
        "UPDATE t SET name = 'B' WHERE id = 2",
        "DELETE FROM t WHERE id = 1",
        "CREATE INDEX by_name ON t (name)",
        "INSERT INTO t (name) VALUES ('d')",
        "CREATE TABLE gone (a INT)",
        "DROP TABLE gone",
    ] {
        run(&mut executor, "srrdb", sql).expect(sql);
        log.extend(executor.wal.take_pending());
    }
    let before = shown(&executor.storage, "t");
    assert_eq!(
        before,
        vec![
            "[Int(2), Text(\"B\")]",
            "[Int(3), Text(\"c\")]",
            "[Int(4), Text(\"d\")]"
        ]
    );
    log.extend([0x53, 0x44, 200, 0, 0, 0, 3, 1]);
    let (catalog, storage, count) = recover(&log, Catalog::new(), Storage::new());
    assert_eq!(count, 8);
    assert_eq!(shown(&storage, "t"), before);
    assert!(catalog.table_exists("srrdb", "t"));
    assert!(!catalog.table_exists("srrdb", "gone"));
    assert_eq!(catalog.get_table_indexes("srrdb", "t").len(), 1);

    let mut again = Executor::with_wal(
        catalog,
        storage,
        Persistence::new("data".to_string()),
        Wal::new("data"),
    );
    again.rebuild_indexes();
    match run(&mut again, "srrdb", "SELECT id FROM t WHERE name = 'B'") {
        Ok(ExecuteResult::Rows { rows, .. }) => assert_eq!(rows.len(), 1),
        other => panic!("{other:?}"),
    }
}

#[test]
fn without_a_checkpoint_the_files_count() {
    let mut executor = Executor::with_persistence(
        Catalog::new(),
        Storage::new(),
        Persistence::new("data".to_string()),
    );
    run(&mut executor, "srrdb", "CREATE TABLE t (a INT)").expect("table");
    run(&mut executor, "srrdb", "INSERT INTO t VALUES (1)").expect("row");
    let saves: Vec<String> = executor.take_saves().iter().map(|s| format!("{s:?}")).collect();
    assert_eq!(saves, vec!["Catalog", "Table(\"t\")"]);
    assert!(executor.take_saves().is_empty());

    let catalog_file = catalog_bytes(&executor.catalog);
    let table_file = match executor.storage.tables.get("t") {
        Some(table) => table_bytes(table.rows()),
        None => panic!("no table"),
    };
    let catalog = catalog_of(&catalog_file).expect("catalog");
    let names = tables_to_load(&catalog);
    assert_eq!(names, vec!["t"]);
    let storage = load_tables(&names, &vec![Some(table_file)]);
    let mut log = Vec::new();
    log.extend(
        WalEntry::InsertRows { table_name: "t".to_string(), rows: vec![row(0, vec![Value::Int(2)])] }
            .serialize(),
    );
    assert!(!has_checkpoint(&log));
    let (_, storage, count) = recover(&log, catalog, storage);
    assert_eq!(count, 1);
    assert_eq!(shown(&storage, "t"), vec!["[Int(1)]", "[Int(2)]"]);
    assert!(load_tables(&names, &vec![None]).get_rows("t").is_empty());
    assert!(load_tables(&names, &vec![Some(vec![1])]).get_rows("t").is_empty());
}

#[test]
fn dropped_tables_lose_their_file() {
    let mut executor = Executor::with_persistence(
        Catalog::new(),
        Storage::new(),
        Persistence::new("data".to_string()),
    );
    run(&mut executor, "srrdb", "CREATE TABLE T (a INT)").expect("table");
    executor.take_saves();
    run(&mut executor, "srrdb", "DROP TABLE T").expect("drop");
    let saves = executor.take_saves();
    assert_eq!(saves.len(), 2);
    assert!(matches!(&saves[0], SaveAction::RemoveTable(name) if name == "t"));
    assert!(matches!(&saves[1], SaveAction::Catalog));
}

#[test]
fn a_closed_log_takes_nothing() {
    let mut wal = Wal::new("data");
    wal.append(&WalEntry::Checkpoint);
    assert!(wal.take_pending().is_empty());
    wal.open();
    wal.append(&WalEntry::Checkpoint);
    assert_eq!(wal.take_pending(), vec![0x53, 0x44, 7, 0, 0, 0, 255]);
    assert!(wal.take_pending().is_empty());
}

#[test]
fn statements_beyond_the_log_need_a_checkpoint() {
    let needs = |db: &str, sql: &str| needs_checkpoint(db, &Parser::parse_one(sql).expect(sql));
    assert!(needs("srrdb", "CREATE DATABASE d"));
    assert!(needs("srrdb", "DROP DATABASE d"));
    assert!(needs("d", "CREATE TABLE t (a INT)"));
    assert!(needs("d", "DROP TABLE t"));
    assert!(!needs("SRRDB", "CREATE TABLE t (a INT)"));
    assert!(!needs("srrdb", "DROP TABLE t"));
    assert!(!needs("d", "INSERT INTO t VALUES (1)"));
    assert!(!needs("d", "CREATE INDEX i ON t (a)"));
    assert!(!needs("d", "SELECT 1"));
}

#[test]
fn catalogs_of_hash_maps_are_read_in_any_order() {
    let tables: HashMap<String, (String, Vec<u64>)> = ["users", "posts", "tags", "likes"]
        .iter()
        .map(|name| (name.to_string(), (name.to_uppercase(), Vec::new())))
        .collect();
    let indexes: HashMap<String, Vec<u64>> =
        tables.keys().map(|name| (name.clone(), Vec::new())).collect();
    let databases: HashMap<String, _> = ["srrdb", "blog", "zoo"]
        .iter()
        .map(|name| (name.to_string(), (name.to_string(), tables.clone(), indexes.clone())))
        .collect();
    let sequences: HashMap<String, u64> =
        [("users", 5u64), ("posts", 7)].iter().map(|(k, v)| (k.to_string(), *v)).collect();
    let bytes = bincode::serialize(&(databases, sequences)).expect("bytes");
    let catalog = catalog_of(&bytes).expect("catalog");
    for db in ["srrdb", "blog", "zoo"] {
        for table in ["users", "posts", "tags", "likes"] {
            let found = catalog.get_table(db, table).expect("table");
            assert_eq!(found.name, table.to_uppercase());
        }
    }
    assert_eq!(catalog.coming_row_id("posts"), 7);
    assert_eq!(catalog.coming_row_id("tags"), 1);
}

#[test]
fn the_log_is_known_before_the_change() {
    let mut executor = Executor::with_wal(
        Catalog::new(),
        Storage::new(),
        Persistence::new("data".to_string()),
        Wal::new("data"),
    );
    let create = Parser::parse_one("CREATE TABLE t (a INT AUTO_INCREMENT, b TEXT)").expect("sql");
    assert!(executor.log_ahead("srrdb", &create, 0).is_empty());
    take_checkpoint(&mut executor);
    let mut kinds = Vec::new();
    for sql in [
        "CREATE TABLE t (a INT AUTO_INCREMENT, b TEXT)",
        "CREATE TABLE IF NOT EXISTS t (a INT)",
        "CREATE TABLE t (a INT)",
        "INSERT INTO t (b) VALUES ('x'), ('y')",
        "INSERT INTO t (c) VALUES (1)",
        "UPDATE t SET b = 'z' WHERE a = 1",
        "UPDATE t SET b = 'z' WHERE a = 9",
        "UPDATE t SET c = 1",
        "DELETE FROM t WHERE a = 2",
        "DELETE FROM t WHERE a = 2",
        "DELETE FROM nowhere",
        "CREATE INDEX i ON t (b)",
        "CREATE INDEX i ON t (b)",
        "CREATE INDEX j ON nowhere (b)",
        "DROP INDEX i",
        "DROP INDEX i",
        "DROP TABLE IF EXISTS nowhere",
        "DROP TABLE nowhere",
        "DROP TABLE t",
        "SELECT * FROM t",
        "CREATE DATABASE d",
    ] {
        let statement = Parser::parse_one(sql).expect(sql);
        let ahead = executor.log_ahead("srrdb", &statement, 0);
        let _ = run(&mut executor, "srrdb", sql);
        assert_eq!(ahead, executor.wal.take_pending(), "{sql}");
        kinds.push(if ahead.is_empty() { 0 } else { ahead[6] });
    }
    assert_eq!(kinds, vec![1, 0, 1, 3, 0, 4, 0, 0, 4, 0, 0, 5, 0, 0, 6, 0, 0, 2, 2, 0, 0]);
}

#[test]
fn numbers_go_on_behind_a_checkpoint() {
    let mut storage = Storage::new();
    storage.insert_rows("t", vec![row(0, vec![Value::Int(1)]), row(9, vec![Value::Int(2)])]);
    storage.insert_rows("u", vec![row(4, vec![Value::Int(3)])]);
    let bytes = build_checkpoint_data(&Catalog::new(), &storage);
    let (_, mut read) = match replay_checkpoint(&bytes) {
        Ok(state) => state,
        Err(e) => panic!("{e:?}"),
    };
    assert_eq!(read.insert_rows("t", vec![row(0, vec![])]), vec![10]);
    assert_eq!(read.insert_rows("u", vec![row(0, vec![])]), vec![5]);
}
