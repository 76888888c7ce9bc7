//! What a statement puts into the log, known before the statement is executed.

use vstd::prelude::*;

use crate::engine::catalog;
use crate::engine::change;
use crate::engine::change::{change_selected, read_assignments, remove_selected};
use crate::engine::durability;
use crate::engine::executor;
use crate::engine::executor::{define_index, name_of_deleted, name_of_first, ExecV, Executor};
use crate::engine::index::IndexDefV;
use crate::engine::insert;
use crate::engine::insert::{complete_rows, read_rows};
use crate::engine::query;
use crate::engine::schema::define_columns;
use crate::engine::storage;
use crate::engine::storage::{Row, RowTable};
use crate::engine::types::duplicate_all;
use crate::engine::wal;
use crate::engine::wal::{EntryV, WalEntry};
use crate::model;
use crate::sql::ast::{
    AssignmentSpec, DropKind, Expression, IndexSpec, SelectQuery, SqlStatement,
};

verus! {

broadcast use crate::model::group_views;

/// The bytes that a statement puts into the log. A closed log gets none.
pub open spec fn bytes_ahead(
    x: ExecV,
    db: Seq<char>,
    statement: SqlStatement,
    now: u64,
) -> Seq<u8> {
    match durability::logged_entry(x, db, statement, now) {
        Some(e) => if x.wal.open {
            wal::entry_bytes(e)
        } else {
            Seq::empty()
        },
        None => Seq::empty(),
    }
}

impl Executor {
    /// A copy of the rows of a table.
    fn copy_of_table(&self, table_name: &str) -> (r: RowTable)
        ensures
            r@ == storage::rows_of(self@.storage, table_name@),
    {
        let mut copy = RowTable::new();
        if let Some(table) = self.storage.tables.get(table_name.to_lowercase().as_str()) {
            copy = table.copy();
        }
        copy
    }

    fn insert_ahead(
        &self,
        db: &str,
        table_name: &str,
        columns: &Vec<String>,
        source: &Option<SelectQuery>,
        now: u64,
    ) -> (r: Option<WalEntry>)
        requires
            executor::can_insert_from(
                self@,
                db@,
                table_name@,
                model::views(columns@),
                *source,
                now,
            ),
        ensures
            model::view_opt(r) == (match catalog::table_of(self@.catalog, db@, table_name@) {
                Err(_) => None,
                Ok(t) => match insert::source_rows(
                    self@.numbers,
                    *source,
                    model::views(columns@),
                    t.columns,
                ) {
                    Err(_) => None,
                    Ok(rows) => Some(
                        EntryV::InsertRows {
                            table_name: table_name@,
                            rows: executor::insertion_of(
                                self@,
                                table_name@,
                                t.columns,
                                rows,
                                now,
                            ).rows,
                        },
                    ),
                },
            }),
    {
        match self.catalog.get_table(db, table_name) {
            Err(_) => None,
            Ok(t) => match read_rows(source, columns, &t.columns, &self.numbers) {
                Err(_) => None,
                Ok(rows) => {
                    let start: u64 = self.catalog.coming_row_id(table_name);
                    let (full, _, _) = complete_rows(rows, &t.columns, start, now);
                    Some(WalEntry::InsertRows { table_name: table_name.to_string(), rows: full })
                },
            },
        }
    }

    fn snapshot(&self, table_name: &str, table: &RowTable, changed: usize) -> (r: Option<WalEntry>)
        ensures
            model::view_opt(r) == (if changed == 0 {
                None
            } else {
                Some(EntryV::TableSnapshot { table_name: table_name@, rows: table@ })
            }),
    {
        if changed == 0 {
            None
        } else {
            let rows: Vec<Row> = duplicate_all(table.rows().as_slice());
            Some(WalEntry::TableSnapshot { table_name: table_name.to_string(), rows })
        }
    }

    fn delete_ahead(&self, db: &str, table_name: &str, selection: &Option<Expression>) -> (r: Option<
        WalEntry,
    >)
        ensures
            model::view_opt(r) == (match catalog::table_of(self@.catalog, db@, table_name@) {
                Err(_) => None,
                Ok(t) => {
                    let rows = storage::rows_of(self@.storage, table_name@);
                    if query::selected(rows, *selection, t.columns, self@.numbers).len() == 0 {
                        None
                    } else {
                        Some(
                            EntryV::TableSnapshot {
                                table_name: table_name@,
                                rows: change::unselected(
                                    rows,
                                    *selection,
                                    t.columns,
                                    self@.numbers,
                                ),
                            },
                        )
                    }
                },
            }),
    {
        match self.catalog.get_table(db, table_name) {
            Err(_) => None,
            Ok(t) => {
                let mut table = self.copy_of_table(table_name);
                let removed = remove_selected(&mut table, selection, &t.columns, &self.numbers);
                self.snapshot(table_name, &table, removed.len())
            },
        }
    }

    fn update_ahead(
        &self,
        db: &str,
        table_name: &str,
        assignments: &Vec<AssignmentSpec>,
        selection: &Option<Expression>,
    ) -> (r: Option<WalEntry>)
        ensures
            model::view_opt(r) == (match catalog::table_of(self@.catalog, db@, table_name@) {
                Err(_) => None,
                Ok(t) => match change::assigned(self@.numbers, assignments@, t.columns) {
                    Err(_) => None,
                    Ok(pairs) => {
                        let rows = storage::rows_of(self@.storage, table_name@);
                        if query::selected(rows, *selection, t.columns, self@.numbers).len() == 0 {
                            None
                        } else {
                            Some(
                                EntryV::TableSnapshot {
                                    table_name: table_name@,
                                    rows: change::selected_assigned(
                                        rows,
                                        pairs,
                                        *selection,
                                        t.columns,
                                        self@.numbers,
                                    ),
                                },
                            )
                        }
                    },
                },
            }),
    {
        match self.catalog.get_table(db, table_name) {
            Err(_) => None,
            Ok(t) => match read_assignments(assignments, &t.columns, &self.numbers) {
                Err(_) => None,
                Ok((places, values)) => {
                    let mut table = self.copy_of_table(table_name);
                    let (before, _) = change_selected(
                        &mut table,
                        &places,
                        &values,
                        selection,
                        &t.columns,
                        &self.numbers,
                    );
                    self.snapshot(table_name, &table, before.len())
                },
            },
        }
    }

    fn drop_ahead(&self, db: &str, kind: &DropKind, name: &str, if_exists: bool) -> (r: Option<
        WalEntry,
    >)
        ensures
            model::view_opt(r) == (match *kind {
                DropKind::Table => if if_exists && !catalog::has_table(self@.catalog, db@, name@) {
                    None
                } else {
                    Some(EntryV::DropTable { table_name: catalog::normal(name@) })
                },
                DropKind::Index => match executor::index_owner(self@.catalog, db@, name@) {
                    None => None,
                    Some(table) => if catalog::index_dropped(
                        self@.catalog,
                        db@,
                        name@,
                        table,
                    ) is Err {
                        None
                    } else {
                        Some(
                            EntryV::DropIndex {
                                db_name: db@,
                                index_name: name@,
                                table_name: table,
                            },
                        )
                    },
                },
                _ => None,
            }),
    {
        proof {
            model::lemma_first(Seq::<IndexDefV>::empty(), catalog::is_named(name@));
        }
        match kind {
            DropKind::Table => {
                if if_exists && !self.catalog.table_exists(db, name) {
                    None
                } else {
                    Some(WalEntry::DropTable { table_name: name.to_lowercase() })
                }
            },
            DropKind::Index => match self.find_index_table(db, name) {
                None => None,
                Some(table) => match self.catalog.get_index(db, table.as_str(), name) {
                    None => None,
                    Some(_) => Some(
                        WalEntry::DropIndex {
                            db_name: db.to_string(),
                            index_name: name.to_string(),
                            table_name: table,
                        },
                    ),
                },
            },
            _ => None,
        }
    }

    fn create_index_ahead(&self, db: &str, spec: &IndexSpec) -> (r: Option<WalEntry>)
        ensures
            ({
                let table = crate::sql::ast::path_text(spec.table);
                let def = executor::index_definition(table, *spec);
                model::view_opt(r) == (if !catalog::has_table(self@.catalog, db@, table)
                    || def.columns.len() == 0 || catalog::index_created(
                    self@.catalog,
                    db@,
                    def,
                ) is Err {
                    None
                } else {
                    Some(EntryV::CreateIndex { db_name: db@, index_def: def })
                })
            }),
    {
        let table_name = spec.table.to_string();
        if !self.catalog.table_exists(db, table_name.as_str()) {
            return None;
        }
        let def = define_index(table_name.as_str(), spec);
        if def.columns.len() == 0 {
            return None;
        }
        match self.catalog.get_index(db, table_name.as_str(), def.name.as_str()) {
            Some(_) => None,
            None => Some(WalEntry::CreateIndex { db_name: db.to_string(), index_def: def }),
        }
    }

    /// The entry that a statement puts into the log, if it puts one there.
    pub fn entry_ahead(&self, db: &str, statement: &SqlStatement, now: u64) -> (r: Option<WalEntry>)
        requires
            executor::can_run(self@, db@, *statement, now),
        ensures
            model::view_opt(r) == durability::logged_entry(self@, db@, *statement, now),
    {
        match statement {
            SqlStatement::CreateTable { name, if_not_exists, specs } => {
                let table_name = name.to_string();
                if *if_not_exists && self.catalog.table_exists(db, table_name.as_str()) {
                    return None;
                }
                let columns = define_columns(specs, table_name.as_str(), &self.numbers);
                Some(WalEntry::CreateTable { table_name, columns })
            },
            SqlStatement::Insert { table, columns, source } => {
                let table_name = table.name();
                self.insert_ahead(db, table_name.as_str(), columns, source, now)
            },
            SqlStatement::Delete { tables, from, selection } => {
                let table_name = name_of_deleted(tables, from);
                self.delete_ahead(db, table_name.as_str(), selection)
            },
            SqlStatement::Update { table, assignments, selection } => {
                let table_name = table.name();
                self.update_ahead(db, table_name.as_str(), assignments, selection)
            },
            SqlStatement::Drop { kind, names, if_exists } => {
                let name = name_of_first(names);
                proof {
                    model::lemma_first(Seq::<IndexDefV>::empty(), catalog::is_named(name@));
                }
                self.drop_ahead(db, kind, name.as_str(), *if_exists)
            },
            SqlStatement::CreateIndex(spec) => self.create_index_ahead(db, spec),
            _ => None,
        }
    }

    /// The bytes that a statement puts into the log. They are to be written before the
    /// statement is executed.
    pub fn log_ahead(&self, db: &str, statement: &SqlStatement, now: u64) -> (r: Vec<u8>)
        requires
            executor::can_run(self@, db@, *statement, now),
        ensures
            r@ == bytes_ahead(self@, db@, *statement, now),
    {
        if !self.wal.is_open() {
            return Vec::new();
        }
        match self.entry_ahead(db, statement, now) {
            Some(entry) => entry.serialize(),
            None => Vec::new(),
        }
    }
}

/// The log after an optional entry.
spec fn log_after(x: ExecV, e: Option<EntryV>) -> wal::WalV {
    match e {
        Some(entry) => wal::logged(x.wal, entry),
        None => x.wal,
    }
}

proof fn lemma_insert_logs(
    x: ExecV,
    db: Seq<char>,
    statement: SqlStatement,
    now: u64,
)
    requires
        statement is Insert,
    ensures
        executor::statement_outcome(x, db, statement, now).state.wal == log_after(
            x,
            durability::logged_entry(x, db, statement, now),
        ),
{
}

proof fn lemma_delete_logs(x: ExecV, db: Seq<char>, statement: SqlStatement, now: u64)
    requires
        statement is Delete,
    ensures
        executor::statement_outcome(x, db, statement, now).state.wal == log_after(
            x,
            durability::logged_entry(x, db, statement, now),
        ),
{
    if let SqlStatement::Delete { tables, from, selection } = statement {
        let name = executor::deleted_table(tables@, from@);
        assert(executor::statement_outcome(x, db, statement, now) == executor::delete_outcome(
            x,
            db,
            name,
            selection,
        ));
    }
}

proof fn lemma_update_logs(x: ExecV, db: Seq<char>, statement: SqlStatement, now: u64)
    requires
        statement is Update,
    ensures
        executor::statement_outcome(x, db, statement, now).state.wal == log_after(
            x,
            durability::logged_entry(x, db, statement, now),
        ),
{
    if let SqlStatement::Update { table, assignments, selection } = statement {
        let name = crate::sql::ast::table_text(table);
        assert(executor::statement_outcome(x, db, statement, now) == executor::update_outcome(
            x,
            db,
            name,
            assignments@,
            selection,
        ));
    }
}

proof fn lemma_drop_logs(x: ExecV, db: Seq<char>, statement: SqlStatement, now: u64)
    requires
        statement is Drop,
    ensures
        executor::statement_outcome(x, db, statement, now).state.wal == log_after(
            x,
            durability::logged_entry(x, db, statement, now),
        ),
{
}

proof fn lemma_create_logs(x: ExecV, db: Seq<char>, statement: SqlStatement, now: u64)
    requires
        statement is CreateTable || statement is CreateIndex,
    ensures
        executor::statement_outcome(x, db, statement, now).state.wal == log_after(
            x,
            durability::logged_entry(x, db, statement, now),
        ),
{
}

proof fn lemma_others_log_nothing(x: ExecV, db: Seq<char>, statement: SqlStatement, now: u64)
    requires
        !(statement is Insert),
        !(statement is Delete),
        !(statement is Update),
        !(statement is Drop),
        !(statement is CreateTable),
        !(statement is CreateIndex),
    ensures
        executor::statement_outcome(x, db, statement, now).state.wal == x.wal,
        durability::logged_entry(x, db, statement, now) is None,
{
}

proof fn lemma_bytes(x: ExecV, e: Option<EntryV>)
    ensures
        log_after(x, e).open == x.wal.open,
        log_after(x, e).pending == x.wal.pending + (match e {
            Some(entry) => if x.wal.open {
                wal::entry_bytes(entry)
            } else {
                Seq::empty()
            },
            None => Seq::empty(),
        }),
{
    let none = Seq::<u8>::empty();
    assert(x.wal.pending + none =~= x.wal.pending);
}

/// What is known before a statement is executed is what its execution appends to the
/// log, no more and no less, whether it succeeds or not. So the log can be written
/// before any change is made.
pub proof fn execution_logs_what_was_ahead(
    x: ExecV,
    db: Seq<char>,
    statement: SqlStatement,
    now: u64,
)
    ensures
        executor::statement_outcome(x, db, statement, now).state.wal.pending == x.wal.pending
            + bytes_ahead(x, db, statement, now),
        executor::statement_outcome(x, db, statement, now).state.wal.open == x.wal.open,
{
    if statement is Insert {
        lemma_insert_logs(x, db, statement, now);
    } else if statement is Delete {
        lemma_delete_logs(x, db, statement, now);
    } else if statement is Update {
        lemma_update_logs(x, db, statement, now);
    } else if statement is Drop {
        lemma_drop_logs(x, db, statement, now);
    } else if statement is CreateTable || statement is CreateIndex {
        lemma_create_logs(x, db, statement, now);
    } else {
        lemma_others_log_nothing(x, db, statement, now);
    }
    lemma_bytes(x, durability::logged_entry(x, db, statement, now));
}

} // verus!
