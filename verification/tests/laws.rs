//! What holds in general, on values.

use srrdb::engine::catalog::Catalog;
use srrdb::engine::executor::{ExecuteResult, Executor};
use srrdb::engine::storage::{Row, Storage};
use srrdb::engine::types::Value;
use srrdb::engine::wal::{replay_checkpoint, Wal, WalEntry};
use srrdb::server::connection::{greeting, start_exchange};
use srrdb::sql::parser::Parser;

fn start() -> Executor {
    Executor::new(Catalog::new(), Storage::new())
}

fn attempt(executor: &mut Executor, sql: &str) -> Result<ExecuteResult, String> {
    let statement = Parser::parse_one(sql).expect(sql);
    assert!(executor.can_execute("srrdb", &statement, 0), "{sql}");
    executor.execute("srrdb", &statement, 0)
}

fn run(executor: &mut Executor, sql: &str) -> Vec<String> {
    match attempt(executor, sql).expect(sql) {
        ExecuteResult::Rows { rows, .. } => {
            rows.iter().map(|row| cells(&row.values)).collect()
        }
        _ => Vec::new(),
    }
}

fn cells(values: &[Value]) -> String {
    let shown: Vec<String> = values
        .iter()
        .map(|value| match value {
            Value::Null => "NULL".to_string(),
            Value::Int(n) => n.to_string(),
            Value::Text(s) => s.clone(),
            other => format!("{other:?}"),
        })
        .collect();
    shown.join(" ")
}

fn people() -> Executor {
    let mut ex = start();
    run(&mut ex, "CREATE TABLE people (id INT, name TEXT, team INT)");
    run(
        &mut ex,
        "INSERT INTO people VALUES (1, 'Ann', 2), (2, 'bob', 1), (3, 'Cy', 2), (4, 'Dan', 1), \
         (5, NULL, NULL)",
    );
    ex
}

#[test]
fn rows_with_the_same_value_keep_their_order() {
    let mut ex = people();
    assert_eq!(
        run(&mut ex, "SELECT id FROM people WHERE team IN (1, 2) ORDER BY team"),
        vec!["2", "4", "1", "3"]
    );
    assert_eq!(
        run(&mut ex, "SELECT id FROM people WHERE team IN (1, 2) ORDER BY team DESC"),
        vec!["1", "3", "2", "4"]
    );
}

#[test]
fn a_second_column_orders_within_the_first() {
    let mut ex = people();
    assert_eq!(
        run(&mut ex, "SELECT team, id FROM people WHERE id < 5 ORDER BY team, id DESC"),
        vec!["1 4", "1 2", "2 3", "2 1"]
    );
    assert_eq!(
        run(&mut ex, "SELECT team, name FROM people WHERE id < 5 ORDER BY team DESC, name"),
        vec!["2 Ann", "2 Cy", "1 Dan", "1 bob"]
    );
}

#[test]
fn rows_come_in_the_order_of_several_columns() {
    let mut ex = start();
    run(&mut ex, "CREATE TABLE o (id INT, a INT, b TEXT, c INT)");
    run(
        &mut ex,
        "INSERT INTO o VALUES (1, 2, 'x', 1), (2, 1, 'y', 1), (3, 2, 'x', 3), (4, 1, 'x', 2), \
         (5, 2, 'y', 1), (6, 1, 'y', 1), (7, 2, 'x', 3)",
    );
    assert_eq!(
        run(&mut ex, "SELECT id FROM o ORDER BY a, b DESC, c DESC"),
        vec!["2", "6", "4", "5", "3", "7", "1"]
    );
    assert_eq!(
        run(&mut ex, "SELECT id FROM o ORDER BY b DESC, c, a DESC"),
        vec!["5", "2", "6", "1", "4", "3", "7"]
    );
}

#[test]
fn pages_are_runs_of_rows() {
    let mut ex = people();
    let all = run(&mut ex, "SELECT id FROM people ORDER BY id");
    assert_eq!(all, vec!["1", "2", "3", "4", "5"]);
    assert_eq!(run(&mut ex, "SELECT id FROM people ORDER BY id LIMIT 2 OFFSET 1"), all[1..3]);
    assert_eq!(run(&mut ex, "SELECT id FROM people ORDER BY id LIMIT 9 OFFSET 3"), all[3..]);
    assert!(run(&mut ex, "SELECT id FROM people ORDER BY id LIMIT 2 OFFSET 5").is_empty());
    assert!(run(&mut ex, "SELECT id FROM people ORDER BY id LIMIT 0").is_empty());
}

#[test]
fn a_negation_holds_for_the_others() {
    let mut ex = people();
    let pairs = [
        ("id BETWEEN 2 AND 3", "id NOT BETWEEN 2 AND 3"),
        ("id IN (1, 4)", "id NOT IN (1, 4)"),
        ("name LIKE '%n'", "name NOT LIKE '%n'"),
        ("name IS NULL", "name IS NOT NULL"),
        ("team = 1", "team != 1"),
    ];
    for (condition, negation) in pairs {
        let mut ids = run(&mut ex, &format!("SELECT id FROM people WHERE {condition}"));
        assert!(!ids.is_empty(), "{condition}");
        ids.extend(run(&mut ex, &format!("SELECT id FROM people WHERE {negation}")));
        ids.sort();
        assert_eq!(ids, vec!["1", "2", "3", "4", "5"], "{condition}");
    }
}

#[test]
fn between_and_in_are_comparisons() {
    let mut ex = people();
    assert_eq!(
        run(&mut ex, "SELECT id FROM people WHERE id BETWEEN 2 AND 4"),
        run(&mut ex, "SELECT id FROM people WHERE id >= 2 AND id <= 4")
    );
    assert_eq!(
        run(&mut ex, "SELECT id FROM people WHERE name IN ('Ann', 'Cy')"),
        run(&mut ex, "SELECT id FROM people WHERE name = 'Ann' OR name = 'Cy'")
    );
    assert!(run(&mut ex, "SELECT id FROM people WHERE name = NULL").is_empty());
    assert!(run(&mut ex, "SELECT id FROM people WHERE team BETWEEN NULL AND 9").is_empty());
}

#[test]
fn patterns_have_two_wildcards() {
    let mut ex = people();
    assert_eq!(run(&mut ex, "SELECT id FROM people WHERE name LIKE 'BOB'"), vec!["2"]);
    assert_eq!(run(&mut ex, "SELECT id FROM people WHERE name LIKE '_a_'"), vec!["4"]);
    assert_eq!(run(&mut ex, "SELECT id FROM people WHERE name LIKE 'c%'"), vec!["3"]);
    assert_eq!(run(&mut ex, "SELECT id FROM people WHERE name LIKE '%'").len(), 4);
    assert!(run(&mut ex, "SELECT id FROM people WHERE name LIKE 'bo'").is_empty());
}

#[test]
fn an_update_changes_what_it_selects() {
    let mut ex = people();
    run(&mut ex, "UPDATE people SET team = 7, team = 8, name = 'x' WHERE team = 2");
    assert_eq!(
        run(&mut ex, "SELECT id, name, team FROM people"),
        vec!["1 x 8", "2 bob 1", "3 x 8", "4 Dan 1", "5 NULL NULL"]
    );
}

#[test]
fn a_delete_leaves_the_others() {
    let mut ex = people();
    match attempt(&mut ex, "DELETE FROM people WHERE team = 1") {
        Ok(ExecuteResult::Affected { rows: 2, last_insert_id: 0 }) => {}
        other => panic!("{other:?}"),
    }
    assert_eq!(run(&mut ex, "SELECT id FROM people"), vec!["1", "3", "5"]);
    run(&mut ex, "DELETE FROM people");
    assert!(run(&mut ex, "SELECT id FROM people").is_empty());
}

#[test]
fn a_failure_changes_no_rows() {
    let mut ex = people();
    let before = run(&mut ex, "SELECT * FROM people");
    for sql in [
        "INSERT INTO people (nothing) VALUES (1)",
        "UPDATE people SET nothing = 1",
        "CREATE TABLE people (a INT)",
        "DROP TABLE nothing",
        "DELETE FROM nothing",
    ] {
        assert!(attempt(&mut ex, sql).is_err(), "{sql}");
        assert_eq!(run(&mut ex, "SELECT * FROM people"), before);
    }
}

#[test]
fn a_dropped_table_starts_anew() {
    let mut ex = start();
    run(&mut ex, "CREATE TABLE Notes (id INT AUTO_INCREMENT, t TEXT)");
    run(&mut ex, "INSERT INTO notes (t) VALUES ('a'), ('b')");
    run(&mut ex, "CREATE INDEX by_t ON notes (t)");
    run(&mut ex, "DROP TABLE NOTES");
    assert_eq!(attempt(&mut ex, "SELECT * FROM notes").unwrap_err(), "Unknown table: notes");
    assert!(ex.storage.get_rows("notes").is_empty());
    assert_eq!(ex.storage.index_data.len(), 0);
    run(&mut ex, "CREATE TABLE notes (id INT AUTO_INCREMENT, t TEXT)");
    run(&mut ex, "INSERT INTO notes (t) VALUES ('c')");
    assert_eq!(run(&mut ex, "SELECT * FROM notes"), vec!["1 c"]);
}

#[test]
fn automatic_numbers_ascend() {
    let mut ex = start();
    run(&mut ex, "CREATE TABLE t (id INT AUTO_INCREMENT, v INT)");
    match attempt(&mut ex, "INSERT INTO t (v) VALUES (10), (20)") {
        Ok(ExecuteResult::Affected { rows: 2, last_insert_id: 2 }) => {}
        other => panic!("{other:?}"),
    }
    run(&mut ex, "DELETE FROM t");
    run(&mut ex, "INSERT INTO t (id, v) VALUES (NULL, 30), (77, 40), (NULL, 50)");
    assert_eq!(run(&mut ex, "SELECT * FROM t"), vec!["3 30", "77 40", "4 50"]);
}

#[test]
fn rebuilt_indexes_hold_the_rows() {
    let mut ex = people();
    run(&mut ex, "CREATE INDEX by_team ON people (team)");
    run(&mut ex, "CREATE INDEX by_both ON people USING HASH (team, name)");
    let mut again = Executor::new(ex.catalog, ex.storage);
    again.storage.index_data.remove_prefix("people:");
    assert_eq!(again.storage.index_data.len(), 0);
    again.rebuild_indexes();
    assert_eq!(again.storage.index_data.len(), 2);
    assert_eq!(run(&mut again, "SELECT id FROM people WHERE team = 2"), vec!["1", "3"]);
    assert_eq!(run(&mut again, "SELECT id FROM people WHERE name = 'Dan' AND team = 1"), vec!["4"]);
}

#[test]
fn a_second_rebuild_changes_nothing() {
    let mut ex = people();
    run(&mut ex, "CREATE INDEX by_team ON people (team)");
    run(&mut ex, "CREATE INDEX by_both ON people USING HASH (team, name)");
    ex.rebuild_indexes();
    let keys = [
        ("people:by_team", vec![Value::Int(2)], vec![1, 3]),
        ("people:by_team", vec![Value::Null], vec![5]),
        ("people:by_team", vec![Value::Int(3)], vec![]),
        ("people:by_both", vec![Value::Int(1), Value::Text("Dan".to_string())], vec![4]),
    ];
    for (name, key, ids) in &keys {
        assert_eq!(&ex.storage.index_data.get(name).expect("index").lookup_eq(key), ids);
    }
    ex.rebuild_indexes();
    assert_eq!(ex.storage.index_data.len(), 2);
    for (name, key, ids) in &keys {
        assert_eq!(&ex.storage.index_data.get(name).expect("index").lookup_eq(key), ids);
    }
}

#[test]
fn an_index_does_not_change_the_answer() {
    let queries = [
        "SELECT * FROM people WHERE team = 2",
        "SELECT name FROM people WHERE 'bob' = name",
        "SELECT id FROM people WHERE team = 7",
        "SELECT name FROM people WHERE team = 1 ORDER BY name DESC",
    ];
    let mut plain = people();
    let mut indexed = people();
    run(&mut indexed, "CREATE INDEX by_team ON people (team)");
    run(&mut indexed, "CREATE INDEX by_name ON people USING HASH (name)");
    for ex in [&mut plain, &mut indexed] {
        run(ex, "INSERT INTO people VALUES (6, 'bob', 2), (7, 'bob', 2)");
        run(ex, "UPDATE people SET team = 1 WHERE id = 3");
        run(ex, "UPDATE people SET team = 2 WHERE id = 3");
        run(ex, "DELETE FROM people WHERE id = 6");
    }
    for sql in queries {
        let mut a = run(&mut plain, sql);
        let mut b = run(&mut indexed, sql);
        a.sort();
        b.sort();
        assert_eq!(a, b, "{sql}");
    }
    assert_eq!(run(&mut indexed, "SELECT id FROM people WHERE name = 'bob'").len(), 2);
}

#[test]
fn indexes_do_not_change_answers_among_definitions() {
    let mut plain = people();
    let mut indexed = people();
    let both = [
        "CREATE TABLE other (id INT, team INT)",
        "CREATE INDEX by_team ON other (team)",
        "INSERT INTO other VALUES (1, 2), (2, 2)",
        "INSERT INTO people VALUES (6, 'bob', 2)",
        "CREATE DATABASE spare",
        "DROP INDEX by_team",
        "UPDATE people SET team = 2 WHERE id = 1",
        "DROP TABLE other",
        "DROP DATABASE spare",
        "DELETE FROM people WHERE id = 3",
        "CREATE TABLE other (id INT)",
    ];
    run(&mut indexed, "CREATE INDEX people_team ON people (team)");
    for (i, sql) in both.iter().enumerate() {
        run(&mut plain, sql);
        run(&mut indexed, sql);
        if i == 4 {
            run(&mut indexed, "CREATE INDEX people_name ON people (name)");
        }
        if i == 7 {
            run(&mut indexed, "DROP INDEX people_team");
        }
        for query in [
            "SELECT * FROM people WHERE team = 2",
            "SELECT * FROM people WHERE name = 'bob'",
        ] {
            let mut a = run(&mut plain, query);
            let mut b = run(&mut indexed, query);
            a.sort();
            b.sort();
            assert_eq!(a, b, "{sql}, {query}");
        }
    }
    run(&mut plain, "DROP TABLE people");
    run(&mut indexed, "DROP TABLE people");
    for ex in [&mut plain, &mut indexed] {
        run(ex, "CREATE TABLE people (id INT, name TEXT, team INT)");
        run(ex, "INSERT INTO people VALUES (1, 'bob', 2)");
        assert_eq!(run(ex, "SELECT id FROM people WHERE name = 'bob'"), vec!["1"]);
    }
}

#[test]
fn parts_can_be_changed_in_place() {
    let mut catalog = Catalog::new();
    catalog.get_database_mut("SRRDB").expect("database").name = "main".to_string();
    assert_eq!(catalog.get_database("srrdb").expect("database").name, "main");
    assert!(catalog.get_database_mut("nowhere").is_none());

    let mut storage = Storage::new();
    storage.insert_rows("t", vec![Row { id: 0, values: vec![Value::Int(1)] }]);
    storage.get_table_mut("T").expect("table").put(Row { id: 5, values: vec![Value::Int(5)] });
    assert_eq!(storage.get_rows("t").len(), 2);
    assert!(storage.get_table_mut("u").is_none());
}

#[test]
fn an_entry_can_be_followed_by_a_checkpoint() {
    let mut storage = Storage::new();
    storage.insert_rows("t", vec![Row { id: 0, values: vec![Value::Int(1)] }]);
    let catalog = Catalog::new();
    let mut wal = Wal::new("data");
    wal.open();
    let bytes = wal.append_sync(&WalEntry::Checkpoint, &catalog, &storage);
    assert!(wal.take_pending().is_empty());
    match replay_checkpoint(&bytes) {
        Ok((_, read)) => assert_eq!(read.get_rows("t").len(), 1),
        Err(e) => panic!("{e:?}"),
    }
}

#[test]
fn an_exchange_starts_with_its_scramble() {
    let (scramble, packet) = start_exchange();
    assert_eq!(packet, greeting(&scramble));
    assert_ne!(start_exchange().0, scramble);
}
