//! The execution of statements.

use vstd::prelude::*;

use crate::engine::catalog;
use crate::engine::catalog::{find_index, Catalog, CatalogV};
use crate::engine::change;
use crate::engine::change::{change_selected, read_assignments, remove_selected};
use crate::engine::index::{IndexDef, IndexDefV, IndexType, IndexV};
use crate::engine::insert;
use crate::engine::insert::{complete_rows, numbers_needed, read_rows, rows_wide_enough};
use crate::engine::maintain;
use crate::engine::maintain::{
    build_index, delete_all_from_indexes, insert_all_into_indexes, rebuild_all,
};
use crate::engine::persistence::Persistence;
use crate::engine::query;
use crate::engine::query::{run_query, stored_index_name};
use crate::engine::schema;
use crate::engine::schema::{
    define_columns, describe_columns, describe_rows, list_databases, list_tables, rows_of_texts,
};
use crate::engine::storage;
use crate::engine::storage::{Row, RowTable, RowV, Storage, StorageV};
use crate::engine::types;
use crate::engine::types::{
    duplicate_all, Column, ColumnType, ColumnV, Duplicate, Numbers, NumbersV, Val, Value,
};
use crate::engine::wal;
use crate::engine::wal::{EntryV, Wal, WalEntry, WalV};
use crate::model;
use crate::names;
use crate::sql::ast::{
    AssignmentSpec, ColumnSpec, DropKind, Expression, IndexSpec, Node, Path, SelectQuery,
    SqlStatement, TableRef,
};
use crate::text;
use crate::text::equal_ignoring_case;

verus! {

broadcast use crate::model::group_views;

// ---------------------------------------------------------------------------
// State and results
// ---------------------------------------------------------------------------

/// What a statement gives.
#[derive(Debug)]
pub enum ExecuteResult {
    Rows { columns: Vec<Column>, rows: Vec<Row> },
    Affected { rows: u64, last_insert_id: u64 },
    DatabaseChanged(String),
    Done,
}

/// What an `ExecuteResult` stands for.
#[verifier::ext_equal]
pub enum ResultV {
    Rows { columns: Seq<ColumnV>, list: Seq<RowV> },
    Affected { count: u64, last_insert_id: u64 },
    DatabaseChanged(Seq<char>),
    Done,
}

impl View for ExecuteResult {
    type V = ResultV;

    open spec fn view(&self) -> ResultV {
        match self {
            ExecuteResult::Rows { columns, rows } => ResultV::Rows {
                columns: model::views(columns@),
                list: model::views(rows@),
            },
            ExecuteResult::Affected { rows, last_insert_id } => ResultV::Affected {
                count: *rows,
                last_insert_id: *last_insert_id,
            },
            ExecuteResult::DatabaseChanged(name) => ResultV::DatabaseChanged(name@),
            ExecuteResult::Done => ResultV::Done,
        }
    }
}

/// A change of the files in the data directory that is still to be made.
#[derive(Debug)]
pub enum SaveAction {
    /// Write the catalog.
    Catalog,
    /// Write the rows of a table.
    Table(String),
    /// Remove the file of a table.
    RemoveTable(String),
}

/// What a `SaveAction` stands for.
#[verifier::ext_equal]
pub enum SaveV {
    Catalog,
    Table(Seq<char>),
    RemoveTable(Seq<char>),
}

impl View for SaveAction {
    type V = SaveV;

    open spec fn view(&self) -> SaveV {
        match self {
            SaveAction::Catalog => SaveV::Catalog,
            SaveAction::Table(name) => SaveV::Table(name@),
            SaveAction::RemoveTable(name) => SaveV::RemoveTable(name@),
        }
    }
}

/// Runs statements against a catalog and a store. Every change goes to the log;
/// with a data directory, the files to write are queued in `saves`.
pub struct Executor {
    pub catalog: Catalog,
    pub storage: Storage,
    pub numbers: Numbers,
    pub persistence: Option<Persistence>,
    pub wal: Wal,
    pub saves: Vec<SaveAction>,
}

/// What an `Executor` stands for.
#[verifier::ext_equal]
pub struct ExecV {
    pub catalog: CatalogV,
    pub storage: StorageV,
    pub numbers: NumbersV,
    pub dir: Option<Seq<char>>,
    pub wal: WalV,
    pub saves: Seq<SaveV>,
}

impl View for Executor {
    type V = ExecV;

    open spec fn view(&self) -> ExecV {
        ExecV {
            catalog: self.catalog@,
            storage: self.storage@,
            numbers: self.numbers@,
            dir: model::view_opt(self.persistence),
            wal: self.wal@,
            saves: model::views(self.saves@),
        }
    }
}

/// A state and the result that led to it.
#[verifier::ext_equal]
pub struct Outcome {
    pub state: ExecV,
    pub result: Result<ResultV, Seq<char>>,
}

pub open spec fn done(x: ExecV, r: ResultV) -> Outcome {
    Outcome { state: x, result: Ok(r) }
}

pub open spec fn failed(x: ExecV, e: Seq<char>) -> Outcome {
    Outcome { state: x, result: Err(e) }
}

/// What a state and a result stand for.
pub open spec fn outcome_of(x: ExecV, r: Result<ExecuteResult, String>) -> Outcome {
    Outcome {
        state: x,
        result: match r {
            Ok(v) => Ok(v@),
            Err(e) => Err(e@),
        },
    }
}

/// The state with one more entry in the log.
pub open spec fn with_log(x: ExecV, e: EntryV) -> ExecV {
    ExecV { wal: wal::logged(x.wal, e), ..x }
}

/// The state with one more file to write, where there is a data directory.
pub open spec fn with_save(x: ExecV, s: SaveV) -> ExecV {
    if x.dir is Some {
        ExecV { saves: x.saves.push(s), ..x }
    } else {
        x
    }
}

/// The state with the file of a table to write, where the table has rows stored.
pub open spec fn with_table_save(x: ExecV, table: Seq<char>) -> ExecV {
    if x.storage.tables.contains_key(catalog::normal(table)) {
        with_save(x, SaveV::Table(catalog::normal(table)))
    } else {
        x
    }
}

// ---------------------------------------------------------------------------
// What each statement does
// ---------------------------------------------------------------------------

/// `CREATE TABLE`.
pub open spec fn create_table_outcome(
    x: ExecV,
    db: Seq<char>,
    table: Seq<char>,
    specs: Seq<ColumnSpec>,
) -> Outcome {
    let columns = schema::defined_columns(x.numbers, table, specs);
    let y = with_log(x, EntryV::CreateTable { table_name: table, columns });
    match catalog::table_created(x.catalog, db, table, columns) {
        Ok(c) => done(with_save(ExecV { catalog: c, ..y }, SaveV::Catalog), ResultV::Done),
        Err(e) => failed(y, e),
    }
}

/// The catalog after automatic numbers of a table were given.
pub open spec fn after_numbers(c: CatalogV, table: Seq<char>, given: nat) -> CatalogV {
    if given > 0 {
        catalog::numbers_given(c, table, given as u64)
    } else {
        c
    }
}

/// The stored rows of the given numbers.
pub open spec fn rows_numbered(s: StorageV, table: Seq<char>, ids: Seq<u64>) -> Seq<RowV> {
    Seq::new(
        ids.len(),
        |i: int|
            RowV {
                id: ids[i],
                values: match storage::row_at(storage::rows_of(s, table), ids[i]) {
                    Some(row) => row.values,
                    None => Seq::empty(),
                },
            },
    )
}

/// What is inserted of rows that were read.
pub open spec fn insertion_of(
    x: ExecV,
    table: Seq<char>,
    columns: Seq<ColumnV>,
    rows: Seq<RowV>,
    now: u64,
) -> insert::Completed {
    insert::rows_completed(rows, columns, catalog::next_number(x.catalog, table), now)
}

/// Rows that were read can be inserted: each has a value for every column, and the
/// automatic numbers and row numbers do not run out.
pub open spec fn can_take_rows(
    x: ExecV,
    table: Seq<char>,
    columns: Seq<ColumnV>,
    rows: Seq<RowV>,
    now: u64,
) -> bool {
    let full = insertion_of(x, table, columns, rows, now);
    &&& insert::wide_enough(rows, columns)
    &&& catalog::next_number(x.catalog, table) + full.given <= u64::MAX
    &&& storage::can_insert(x.storage, table, full.rows)
}

/// The insertion of rows that were read.
pub open spec fn inserted_outcome(
    x: ExecV,
    db: Seq<char>,
    table: Seq<char>,
    columns: Seq<ColumnV>,
    rows: Seq<RowV>,
    now: u64,
) -> Outcome {
    let full = insertion_of(x, table, columns, rows, now);
    let c = after_numbers(x.catalog, table, full.given);
    let y = with_log(
        ExecV { catalog: c, ..x },
        EntryV::InsertRows { table_name: table, rows: full.rows },
    );
    let s = storage::rows_inserted(x.storage, table, full.rows);
    let z = with_table_save(ExecV { storage: s, ..y }, table);
    let ids = storage::insertion(x.storage, table, full.rows).ids;
    let data = maintain::rows_entered(
        s.index_data,
        table,
        catalog::indexes_of(c, db, table),
        columns,
        rows_numbered(s, table, ids),
    );
    done(
        ExecV { storage: StorageV { index_data: data, ..s }, ..z },
        ResultV::Affected { count: rows.len() as u64, last_insert_id: full.last },
    )
}

/// `INSERT`.
pub open spec fn insert_outcome(
    x: ExecV,
    db: Seq<char>,
    table: Seq<char>,
    columns: Seq<Seq<char>>,
    source: Option<SelectQuery>,
    now: u64,
) -> Outcome {
    match catalog::table_of(x.catalog, db, table) {
        Err(e) => failed(x, e),
        Ok(t) => match insert::source_rows(x.numbers, source, columns, t.columns) {
            Err(e) => failed(x, e),
            Ok(rows) => inserted_outcome(x, db, table, t.columns, rows, now),
        },
    }
}

/// The rows of an `INSERT` that gets as far as to insert them can be inserted.
pub open spec fn can_insert_from(
    x: ExecV,
    db: Seq<char>,
    table: Seq<char>,
    columns: Seq<Seq<char>>,
    source: Option<SelectQuery>,
    now: u64,
) -> bool {
    match catalog::table_of(x.catalog, db, table) {
        Err(_) => true,
        Ok(t) => match insert::source_rows(x.numbers, source, columns, t.columns) {
            Err(_) => true,
            Ok(rows) => can_take_rows(x, table, t.columns, rows, now),
        },
    }
}

/// The state with the rows of a table and the indexes as given, and a snapshot of
/// the rows in the log if any row has changed.
pub open spec fn table_changed(
    x: ExecV,
    table: Seq<char>,
    rows: Seq<RowV>,
    data: Map<Seq<char>, IndexV>,
    count: nat,
) -> Outcome {
    let y = ExecV {
        storage: StorageV {
            tables: x.storage.tables.insert(catalog::normal(table), rows),
            index_data: data,
            ..x.storage
        },
        ..x
    };
    let z = if count > 0 {
        with_log(y, EntryV::TableSnapshot { table_name: table, rows })
    } else {
        y
    };
    done(
        with_table_save(z, table),
        ResultV::Affected { count: count as u64, last_insert_id: 0 },
    )
}

/// `DELETE`.
pub open spec fn delete_outcome(
    x: ExecV,
    db: Seq<char>,
    table: Seq<char>,
    selection: Option<Expression>,
) -> Outcome {
    match catalog::table_of(x.catalog, db, table) {
        Err(e) => failed(x, e),
        Ok(t) => if !x.storage.tables.contains_key(catalog::normal(table)) {
            failed(x, catalog::unknown_table(table))
        } else {
            let rows = storage::rows_of(x.storage, table);
            let gone = query::selected(rows, selection, t.columns, x.numbers);
            let data = maintain::rows_left(
                x.storage.index_data,
                table,
                catalog::indexes_of(x.catalog, db, table),
                t.columns,
                gone,
            );
            table_changed(
                x,
                table,
                change::unselected(rows, selection, t.columns, x.numbers),
                data,
                gone.len(),
            )
        },
    }
}

/// `UPDATE`.
pub open spec fn update_outcome(
    x: ExecV,
    db: Seq<char>,
    table: Seq<char>,
    assignments: Seq<AssignmentSpec>,
    selection: Option<Expression>,
) -> Outcome {
    match catalog::table_of(x.catalog, db, table) {
        Err(e) => failed(x, e),
        Ok(t) => match change::assigned(x.numbers, assignments, t.columns) {
            Err(e) => failed(x, e),
            Ok(pairs) => if !x.storage.tables.contains_key(catalog::normal(table)) {
                failed(x, catalog::unknown_table(table))
            } else {
                let rows = storage::rows_of(x.storage, table);
                let chosen = query::selected(rows, selection, t.columns, x.numbers);
                let defs = catalog::indexes_of(x.catalog, db, table);
                let without = maintain::rows_left(
                    x.storage.index_data,
                    table,
                    defs,
                    t.columns,
                    chosen,
                );
                let data = maintain::rows_entered(
                    without,
                    table,
                    defs,
                    t.columns,
                    change::rows_assigned(chosen, pairs),
                );
                table_changed(
                    x,
                    table,
                    change::selected_assigned(rows, pairs, selection, t.columns, x.numbers),
                    data,
                    chosen.len(),
                )
            },
        },
    }
}

/// A query.
pub open spec fn query_outcome(x: ExecV, db: Seq<char>, q: SelectQuery) -> Outcome {
    match query::query_result(x.catalog, x.storage, x.numbers, db, q) {
        Ok((columns, list)) => done(x, ResultV::Rows { columns, list }),
        Err(e) => failed(x, e),
    }
}

/// The columns of an index: those expressions that are names.
pub open spec fn column_names(exprs: Seq<Expression>) -> Seq<Seq<char>>
    decreases exprs.len(),
{
    if exprs.len() == 0 {
        Seq::empty()
    } else {
        match exprs.last().node {
            Node::Identifier(name) => column_names(exprs.drop_last()).push(name@),
            _ => column_names(exprs.drop_last()),
        }
    }
}

/// The name of an index: its own, or one made of its table and columns.
pub open spec fn index_name(table: Seq<char>, spec: IndexSpec) -> Seq<char> {
    match spec.name {
        Some(name) => crate::sql::ast::path_text(name),
        None => "idx_"@ + table + "_"@ + text::joined(column_names(spec.columns@), "_"@),
    }
}

pub open spec fn index_type(spec: IndexSpec) -> IndexType {
    match spec.using {
        Some(name) => if text::same_name(name@, "hash"@) {
            IndexType::Hash
        } else {
            IndexType::BTree
        },
        None => IndexType::BTree,
    }
}

pub open spec fn index_definition(table: Seq<char>, spec: IndexSpec) -> IndexDefV {
    IndexDefV {
        name: index_name(table, spec),
        index_type: index_type(spec),
        table_name: table,
        columns: column_names(spec.columns@),
        unique: spec.unique,
    }
}

/// The texts of the values of a key.
pub open spec fn key_texts(n: NumbersV, key: Seq<Val>) -> Seq<Seq<char>> {
    Seq::new(key.len(), |i: int| types::val_text(n, key[i]))
}

pub open spec fn duplicate_entry(n: NumbersV, key: Seq<Val>, name: Seq<char>) -> Seq<char> {
    "Duplicate entry '"@ + text::joined(key_texts(n, key), ","@) + "' for key '"@ + name + "'"@
}

/// `CREATE INDEX` on a table that is there.
pub open spec fn create_index_outcome(
    x: ExecV,
    db: Seq<char>,
    table: Seq<char>,
    spec: IndexSpec,
) -> Outcome {
    let def = index_definition(table, spec);
    if def.columns.len() == 0 {
        failed(x, "Index must have at least one column"@)
    } else {
        match catalog::index_created(x.catalog, db, def) {
            Err(e) => failed(x, e),
            Ok(c) => {
                let y = with_log(
                    ExecV { catalog: c, ..x },
                    EntryV::CreateIndex { db_name: db, index_def: def },
                );
                match catalog::table_of(c, db, table) {
                    Err(e) => failed(y, e),
                    Ok(t) => {
                        let key = query::index_key(table, def.name);
                        match maintain::index_built(
                            storage::rows_of(x.storage, table),
                            def.index_type,
                            def,
                            def.unique,
                            t.columns,
                        ) {
                            Err(twice) => failed(
                                ExecV {
                                    storage: StorageV {
                                        index_data: x.storage.index_data.remove(key),
                                        ..x.storage
                                    },
                                    ..y
                                },
                                duplicate_entry(x.numbers, twice, def.name),
                            ),
                            Ok(built) => done(
                                with_save(
                                    with_table_save(
                                        ExecV {
                                            storage: StorageV {
                                                index_data: x.storage.index_data.insert(
                                                    key,
                                                    built,
                                                ),
                                                ..x.storage
                                            },
                                            ..y
                                        },
                                        table,
                                    ),
                                    SaveV::Catalog,
                                ),
                                ResultV::Done,
                            ),
                        }
                    },
                }
            },
        }
    }
}

/// The place of the first table, by name, that has an index of a name.
pub open spec fn table_with_index(
    lists: Map<Seq<char>, Seq<IndexDefV>>,
    name: Seq<char>,
) -> Option<int> {
    model::first(
        names::listing(lists),
        |t: Seq<char>| catalog::index_place(lists[t], name) is Some,
    )
}

/// The table that has an index of a name.
pub open spec fn index_owner(c: CatalogV, db: Seq<char>, name: Seq<char>) -> Option<Seq<char>> {
    if catalog::has_database(c, db) {
        let lists = catalog::database(c, db).indexes;
        match table_with_index(lists, name) {
            Some(i) => Some(names::listing(lists)[i]),
            None => None,
        }
    } else {
        None
    }
}

/// `DROP INDEX`.
pub open spec fn drop_index_outcome(
    x: ExecV,
    db: Seq<char>,
    name: Seq<char>,
    if_exists: bool,
) -> Outcome {
    match index_owner(x.catalog, db, name) {
        None => failed(x, "Unknown index: "@ + name),
        Some(table) => if if_exists && catalog::index_place(
            catalog::indexes_of(x.catalog, db, table),
            name,
        ) is None {
            done(x, ResultV::Done)
        } else {
            match catalog::index_dropped(x.catalog, db, name, table) {
                Err(e) => failed(x, e),
                Ok((c, _)) => {
                    let y = with_log(
                        ExecV { catalog: c, ..x },
                        EntryV::DropIndex { db_name: db, index_name: name, table_name: table },
                    );
                    done(
                        ExecV { storage: wal::without_index(x.storage, table, name), ..y },
                        ResultV::Done,
                    )
                },
            }
        },
    }
}

/// `DROP TABLE`.
pub open spec fn drop_table_outcome(x: ExecV, db: Seq<char>, table: Seq<char>) -> Outcome {
    let t = catalog::normal(table);
    let y = with_log(x, EntryV::DropTable { table_name: t });
    match catalog::table_dropped(x.catalog, db, t) {
        Err(e) => failed(y, e),
        Ok(c) => {
            let z = ExecV { catalog: c, storage: storage::table_cleared(x.storage, t), ..y };
            done(with_save(with_save(z, SaveV::RemoveTable(t)), SaveV::Catalog), ResultV::Done)
        },
    }
}

/// `CREATE DATABASE`.
pub open spec fn create_database_outcome(x: ExecV, name: Seq<char>) -> Outcome {
    let c = if catalog::has_database(x.catalog, name) {
        x.catalog
    } else {
        catalog::with_database(x.catalog, name, catalog::empty_database(name))
    };
    done(with_save(ExecV { catalog: c, ..x }, SaveV::Catalog), ResultV::Done)
}

/// `DROP DATABASE`.
pub open spec fn drop_database_outcome(x: ExecV, name: Seq<char>) -> Outcome {
    if catalog::has_database(x.catalog, name) {
        let c = CatalogV {
            databases: x.catalog.databases.remove(catalog::normal(name)),
            ..x.catalog
        };
        done(with_save(ExecV { catalog: c, ..x }, SaveV::Catalog), ResultV::Done)
    } else {
        failed(x, catalog::unknown_database(name))
    }
}

/// `SHOW TABLES`.
pub open spec fn show_tables_outcome(x: ExecV, db: Seq<char>) -> Outcome {
    if catalog::has_database(x.catalog, db) {
        done(
            x,
            ResultV::Rows {
                columns: seq![schema::text_column("Tables_in_"@ + db)],
                list: schema::text_rows(names::listing(catalog::database(x.catalog, db).tables)),
            },
        )
    } else {
        failed(x, catalog::unknown_database(db))
    }
}

/// `SHOW DATABASES`.
pub open spec fn show_databases_outcome(x: ExecV) -> Outcome {
    done(
        x,
        ResultV::Rows {
            columns: seq![schema::text_column("Database"@)],
            list: schema::text_rows(schema::texts_ordered(schema::database_names(x.catalog))),
        },
    )
}

/// `USE`.
pub open spec fn use_outcome(x: ExecV, name: Option<Path>) -> Outcome {
    match name {
        None => failed(x, "USE only supports database switching"@),
        Some(p) => {
            let db = crate::sql::ast::path_text(p);
            if catalog::has_database(x.catalog, db) {
                done(x, ResultV::DatabaseChanged(db))
            } else {
                failed(x, catalog::unknown_database(db))
            }
        },
    }
}

/// `DESCRIBE`.
pub open spec fn describe_outcome(x: ExecV, db: Seq<char>, table: Seq<char>) -> Outcome {
    match catalog::table_of(x.catalog, db, table) {
        Err(e) => failed(x, e),
        Ok(t) => done(
            x,
            ResultV::Rows {
                columns: schema::description_columns(),
                list: schema::description_rows(x.numbers, t.columns),
            },
        ),
    }
}

/// The first of some names; empty where there is none.
pub open spec fn first_name(list: Seq<Path>) -> Seq<char> {
    if list.len() == 0 {
        Seq::empty()
    } else {
        crate::sql::ast::path_text(list[0])
    }
}

/// The table that a `DELETE` names; empty where it names none.
pub open spec fn deleted_table(tables: Seq<Path>, from: Seq<TableRef>) -> Seq<char> {
    if tables.len() > 0 {
        crate::sql::ast::path_text(tables[0])
    } else if from.len() > 0 {
        crate::sql::ast::table_text(from[0])
    } else {
        Seq::empty()
    }
}

/// What a statement does in a database.
pub open spec fn statement_outcome(
    x: ExecV,
    db: Seq<char>,
    statement: SqlStatement,
    now: u64,
) -> Outcome {
    match statement {
        SqlStatement::CreateTable { name, if_not_exists, specs } => {
            let table = crate::sql::ast::path_text(name);
            if if_not_exists && catalog::has_table(x.catalog, db, table) {
                done(x, ResultV::Done)
            } else {
                create_table_outcome(x, db, table, specs@)
            }
        },
        SqlStatement::Insert { table, columns, source } => insert_outcome(
            x,
            db,
            crate::sql::ast::table_text(table),
            model::views(columns@),
            source,
            now,
        ),
        SqlStatement::Select(q) => query_outcome(x, db, q),
        SqlStatement::Delete { tables, from, selection } => delete_outcome(
            x,
            db,
            deleted_table(tables@, from@),
            selection,
        ),
        SqlStatement::Update { table, assignments, selection } => update_outcome(
            x,
            db,
            crate::sql::ast::table_text(table),
            assignments@,
            selection,
        ),
        SqlStatement::Drop { kind, names, if_exists } => {
            let name = first_name(names@);
            match kind {
                DropKind::Table => if if_exists && !catalog::has_table(x.catalog, db, name) {
                    done(x, ResultV::Done)
                } else {
                    drop_table_outcome(x, db, name)
                },
                DropKind::Database => if if_exists && !catalog::has_database(x.catalog, name) {
                    done(x, ResultV::Done)
                } else {
                    drop_database_outcome(x, name)
                },
                DropKind::Index => drop_index_outcome(x, db, name, if_exists),
                DropKind::Other => failed(x, "Unsupported statement"@),
            }
        },
        SqlStatement::CreateDatabase { name, if_not_exists } => {
            let db_name = crate::sql::ast::path_text(name);
            if if_not_exists && catalog::has_database(x.catalog, db_name) {
                done(x, ResultV::Done)
            } else {
                create_database_outcome(x, db_name)
            }
        },
        SqlStatement::ShowDatabases => show_databases_outcome(x),
        SqlStatement::ShowTables => show_tables_outcome(x, db),
        SqlStatement::Use(name) => use_outcome(x, name),
        SqlStatement::Describe(name) => describe_outcome(
            x,
            db,
            crate::sql::ast::path_text(name),
        ),
        SqlStatement::CreateIndex(spec) => {
            let table = crate::sql::ast::path_text(spec.table);
            if catalog::has_table(x.catalog, db, table) {
                create_index_outcome(x, db, table, spec)
            } else {
                failed(x, catalog::unknown_table(table))
            }
        },
        SqlStatement::Unsupported => failed(x, "Unsupported statement"@),
    }
}

/// A statement can be executed. Only an `INSERT` cannot always be: its rows must
/// have a value for every column, and the numbers must not run out.
pub open spec fn can_run(
    x: ExecV,
    db: Seq<char>,
    statement: SqlStatement,
    now: u64,
) -> bool {
    match statement {
        SqlStatement::Insert { table, columns, source } => can_insert_from(
            x,
            db,
            crate::sql::ast::table_text(table),
            model::views(columns@),
            source,
            now,
        ),
        _ => true,
    }
}

// ---------------------------------------------------------------------------
// The work
// ---------------------------------------------------------------------------

fn about(what: &str, name: &str) -> (r: String)
    ensures
        r@ == what@ + name@,
{
    let mut out = what.to_string();
    out.append(name);
    out
}

fn identifiers(exprs: &Vec<Expression>) -> (r: Vec<String>)
    ensures
        model::views(r@) == column_names(exprs@),
{
    let mut out: Vec<String> = Vec::new();
    let mut i: usize = 0;
    while i < exprs.len()
        invariant
            i <= exprs.len(),
            model::views(out@) == column_names(exprs@.take(i as int)),
        decreases exprs.len() - i,
    {
        let ghost next = exprs@.take(i + 1);
        proof {
            assert(next.drop_last() =~= exprs@.take(i as int));
            assert(next.last() == exprs@[i as int]);
        }
        if let Node::Identifier(name) = &exprs[i].node {
            out.push(name.clone());
        }
        i = i + 1;
    }
    assert(exprs@.take(exprs@.len() as int) =~= exprs@);
    out
}

pub(crate) fn define_index(table_name: &str, spec: &IndexSpec) -> (r: IndexDef)
    ensures
        r@ == index_definition(table_name@, *spec),
{
    let columns = identifiers(&spec.columns);
    let name = match &spec.name {
        Some(path) => path.to_string(),
        None => {
            let mut n = "idx_".to_string();
            n.append(table_name);
            n.append("_");
            n.append(text::join(&columns, "_").as_str());
            n
        },
    };
    let index_type = match &spec.using {
        Some(method) => {
            if equal_ignoring_case(method.as_str(), "hash") {
                IndexType::Hash
            } else {
                IndexType::BTree
            }
        },
        None => IndexType::BTree,
    };
    IndexDef { name, index_type, table_name: table_name.to_string(), columns, unique: spec.unique }
}

fn duplicate_message(key: &Vec<Value>, name: &str, numbers: &Numbers) -> (r: String)
    ensures
        r@ == duplicate_entry(numbers@, model::views(key@), name@),
{
    let ghost want = key_texts(numbers@, model::views(key@));
    let mut texts: Vec<String> = Vec::new();
    let mut i: usize = 0;
    while i < key.len()
        invariant
            want == key_texts(numbers@, model::views(key@)),
            i <= key.len(),
            model::views(texts@) == want.take(i as int),
        decreases key.len() - i,
    {
        texts.push(key[i].to_string(numbers));
        i = i + 1;
        assert(model::views(texts@) =~= want.take(i as int));
    }
    assert(want.take(want.len() as int) =~= want);
    let mut out = "Duplicate entry '".to_string();
    out.append(text::join(&texts, ",").as_str());
    out.append("' for key '");
    out.append(name);
    out.append("'");
    out
}

fn one_text_column(name: &str) -> (r: Vec<Column>)
    ensures
        model::views(r@) == seq![schema::text_column(name@)],
{
    let mut out: Vec<Column> = Vec::new();
    out.push(Column::new(name, "", ColumnType::VarChar));
    proof {
        reveal_strlit("");
        assert(""@ =~= Seq::<char>::empty());
    }
    assert(model::views(out@) =~= seq![schema::text_column(name@)]);
    out
}

pub(crate) fn name_of_first(list: &Vec<Path>) -> (r: String)
    ensures
        r@ == first_name(list@),
{
    if list.len() == 0 {
        String::new()
    } else {
        list[0].to_string()
    }
}

pub(crate) fn name_of_deleted(tables: &Vec<Path>, from: &Vec<TableRef>) -> (r: String)
    ensures
        r@ == deleted_table(tables@, from@),
{
    if tables.len() > 0 {
        tables[0].to_string()
    } else if from.len() > 0 {
        from[0].name()
    } else {
        String::new()
    }
}

impl Executor {
    /// An executor that writes no files.
    pub fn new(catalog: Catalog, storage: Storage) -> (r: Self)
        ensures
            r@ == (ExecV {
                catalog: catalog@,
                storage: storage@,
                numbers: types::no_numbers(),
                dir: None,
                wal: wal::closed_log("data"@),
                saves: Seq::empty(),
            }),
    {
        Executor {
            catalog,
            storage,
            numbers: Numbers::new(),
            persistence: None,
            wal: Wal::new("data"),
            saves: Vec::new(),
        }
    }

    /// An executor that keeps its files in a data directory, with the directory's
    /// own log.
    pub fn with_persistence(catalog: Catalog, storage: Storage, persistence: Persistence) -> (r:
        Self)
        ensures
            r@ == (ExecV {
                catalog: catalog@,
                storage: storage@,
                numbers: types::no_numbers(),
                dir: Some(persistence@),
                wal: wal::closed_log(persistence@),
                saves: Seq::empty(),
            }),
    {
        let wal = Wal::new(persistence.data_dir());
        Executor {
            catalog,
            storage,
            numbers: Numbers::new(),
            persistence: Some(persistence),
            wal,
            saves: Vec::new(),
        }
    }

    /// An executor that keeps its files in a data directory, with a log that is
    /// given.
    pub fn with_wal(catalog: Catalog, storage: Storage, persistence: Persistence, wal: Wal) -> (r:
        Self)
        ensures
            r@ == (ExecV {
                catalog: catalog@,
                storage: storage@,
                numbers: types::no_numbers(),
                dir: Some(persistence@),
                wal: wal@,
                saves: Seq::empty(),
            }),
    {
        Executor {
            catalog,
            storage,
            numbers: Numbers::new(),
            persistence: Some(persistence),
            wal,
            saves: Vec::new(),
        }
    }

    /// Builds all indexes anew from the stored rows.
    pub fn rebuild_indexes(&mut self)
        ensures
            final(self)@ == (ExecV {
                storage: StorageV {
                    index_data: maintain::indexes_rebuilt(old(self)@.catalog, old(self)@.storage),
                    ..old(self)@.storage
                },
                ..old(self)@
            }),
    {
        rebuild_all(&self.catalog, &mut self.storage);
    }

    /// Whether there is a database of a name.
    pub fn database_exists(&self, db_name: &str) -> (r: bool)
        ensures
            r == catalog::has_database(self@.catalog, db_name@),
    {
        self.catalog.database_exists(db_name)
    }

    /// Takes the files that are to be written.
    pub fn take_saves(&mut self) -> (r: Vec<SaveAction>)
        ensures
            model::views(r@) == old(self)@.saves,
            final(self)@ == (ExecV { saves: Seq::empty(), ..old(self)@ }),
    {
        let mut taken: Vec<SaveAction> = Vec::new();
        std::mem::swap(&mut taken, &mut self.saves);
        taken
    }

    fn log_wal(&mut self, entry: &WalEntry)
        ensures
            final(self)@ == with_log(old(self)@, entry@),
    {
        self.wal.append(entry);
    }

    fn save_later(&mut self, action: SaveAction)
        ensures
            final(self)@ == with_save(old(self)@, action@),
    {
        let persistent: bool = match &self.persistence {
            Some(_) => true,
            None => false,
        };
        if persistent {
            self.saves.push(action);
        }
    }

    fn save(&mut self)
        ensures
            final(self)@ == with_save(old(self)@, SaveV::Catalog),
    {
        self.save_later(SaveAction::Catalog);
    }

    fn save_table(&mut self, table_name: &str)
        ensures
            final(self)@ == with_table_save(old(self)@, table_name@),
    {
        let tn = table_name.to_lowercase();
        if self.storage.tables.contains(tn.as_str()) {
            self.save_later(SaveAction::Table(tn));
        }
    }

    fn execute_create_table(&mut self, db: &str, table_name: &str, specs: &Vec<ColumnSpec>) -> (r:
        Result<ExecuteResult, String>)
        ensures
            create_table_outcome(old(self)@, db@, table_name@, specs@) == outcome_of(
                final(self)@,
                r,
            ),
    {
        let columns = define_columns(specs, table_name, &self.numbers);
        self.log_wal(
            &WalEntry::CreateTable {
                table_name: table_name.to_string(),
                columns: duplicate_all(columns.as_slice()),
            },
        );
        match self.catalog.create_table(db, table_name, columns) {
            Ok(_) => {
                self.save();
                Ok(ExecuteResult::Done)
            },
            Err(e) => Err(e),
        }
    }

    fn execute_insert(
        &mut self,
        db: &str,
        table_name: &str,
        columns: &Vec<String>,
        source: &Option<SelectQuery>,
        now: u64,
    ) -> (r: Result<ExecuteResult, String>)
        requires
            can_insert_from(
                old(self)@,
                db@,
                table_name@,
                model::views(columns@),
                *source,
                now,
            ),
        ensures
            insert_outcome(
                old(self)@,
                db@,
                table_name@,
                model::views(columns@),
                *source,
                now,
            ) == outcome_of(final(self)@, r),
    {
        let table_columns: Vec<Column> = match self.catalog.get_table(db, table_name) {
            Ok(t) => duplicate_all(t.columns.as_slice()),
            Err(e) => {
                return Err(e);
            },
        };
        let rows = match read_rows(source, columns, &table_columns, &self.numbers) {
            Ok(rows) => rows,
            Err(e) => {
                return Err(e);
            },
        };
        let row_count: u64 = rows.len() as u64;
        let start: u64 = self.catalog.coming_row_id(table_name);
        let (full, given, last_insert_id) = complete_rows(rows, &table_columns, start, now);
        if given > 0 {
            self.catalog.next_row_id(table_name, given);
        }
        self.log_wal(
            &WalEntry::InsertRows {
                table_name: table_name.to_string(),
                rows: duplicate_all(full.as_slice()),
            },
        );
        let ids = self.storage.insert_rows(table_name, full);
        self.save_table(table_name);
        let indexes = self.catalog.get_table_indexes(db, table_name);
        let entered = self.numbered_rows(table_name, &ids);
        insert_all_into_indexes(
            &mut self.storage.index_data,
            table_name,
            &indexes,
            &table_columns,
            &entered,
        );
        Ok(ExecuteResult::Affected { rows: row_count, last_insert_id })
    }

    fn numbered_rows(&self, table_name: &str, ids: &Vec<u64>) -> (r: Vec<Row>)
        ensures
            model::views(r@) == rows_numbered(self@.storage, table_name@, ids@),
    {
        let ghost want = rows_numbered(self@.storage, table_name@, ids@);
        let mut out: Vec<Row> = Vec::new();
        let mut i: usize = 0;
        while i < ids.len()
            invariant
                want == rows_numbered(self@.storage, table_name@, ids@),
                i <= ids.len(),
                model::views(out@) == want.take(i as int),
            decreases ids.len() - i,
        {
            let values: Vec<Value> = match self.storage.get_row(table_name, ids[i]) {
                Some(row) => duplicate_all(row.values.as_slice()),
                None => Vec::new(),
            };
            out.push(Row { id: ids[i], values });
            i = i + 1;
            assert(model::views(out@) =~= want.take(i as int));
        }
        assert(want.take(want.len() as int) =~= want);
        out
    }

    /// Records the changed rows of a table: a snapshot in the log if there are any,
    /// and the file of the table.
    fn record_change(&mut self, table_name: &str, changed: u64) -> (r: ExecuteResult)
        requires
            old(self)@.storage.tables.contains_key(catalog::normal(table_name@)),
        ensures
            table_changed(
                old(self)@,
                table_name@,
                storage::rows_of(old(self)@.storage, table_name@),
                old(self)@.storage.index_data,
                changed as nat,
            ) == done(final(self)@, r@),
    {
        if changed > 0 {
            let rows: Vec<Row> = match self.storage.tables.get(
                table_name.to_lowercase().as_str(),
            ) {
                Some(t) => duplicate_all(t.rows().as_slice()),
                None => Vec::new(),
            };
            self.log_wal(
                &WalEntry::TableSnapshot { table_name: table_name.to_string(), rows },
            );
        }
        assert(old(self)@.storage.tables.insert(
            catalog::normal(table_name@),
            storage::rows_of(old(self)@.storage, table_name@),
        ) =~= old(self)@.storage.tables);
        self.save_table(table_name);
        ExecuteResult::Affected { rows: changed, last_insert_id: 0 }
    }

    fn execute_delete(&mut self, db: &str, table_name: &str, selection: &Option<Expression>) -> (r:
        Result<ExecuteResult, String>)
        ensures
            delete_outcome(old(self)@, db@, table_name@, *selection) == outcome_of(
                final(self)@,
                r,
            ),
    {
        let table_columns: Vec<Column> = match self.catalog.get_table(db, table_name) {
            Ok(t) => duplicate_all(t.columns.as_slice()),
            Err(e) => {
                return Err(e);
            },
        };
        let indexes = self.catalog.get_table_indexes(db, table_name);
        let tn = table_name.to_lowercase();
        if !self.storage.tables.contains(tn.as_str()) {
            return Err(about("Unknown table: ", table_name));
        }
        let mut table = match self.storage.tables.take(tn.as_str()) {
            Some(t) => t,
            None => RowTable::new(),
        };
        let removed = remove_selected(&mut table, selection, &table_columns, &self.numbers);
        self.storage.tables.insert(tn, table);
        delete_all_from_indexes(
            &mut self.storage.index_data,
            table_name,
            &indexes,
            &table_columns,
            &removed,
        );
        let ghost kept = table@;
        assert(old(self)@.storage.tables.remove(catalog::normal(table_name@)).insert(
            catalog::normal(table_name@),
            kept,
        ) =~= old(self)@.storage.tables.insert(catalog::normal(table_name@), kept));
        assert(self@.storage.tables.insert(catalog::normal(table_name@), kept)
            =~= self@.storage.tables);
        Ok(self.record_change(table_name, removed.len() as u64))
    }

    fn execute_update(
        &mut self,
        db: &str,
        table_name: &str,
        assignments: &Vec<AssignmentSpec>,
        selection: &Option<Expression>,
    ) -> (r: Result<ExecuteResult, String>)
        ensures
            update_outcome(old(self)@, db@, table_name@, assignments@, *selection) == outcome_of(
                final(self)@,
                r,
            ),
    {
        let table_columns: Vec<Column> = match self.catalog.get_table(db, table_name) {
            Ok(t) => duplicate_all(t.columns.as_slice()),
            Err(e) => {
                return Err(e);
            },
        };
        let indexes = self.catalog.get_table_indexes(db, table_name);
        let (places, values) = match read_assignments(
            assignments,
            &table_columns,
            &self.numbers,
        ) {
            Ok(pairs) => pairs,
            Err(e) => {
                return Err(e);
            },
        };
        let tn = table_name.to_lowercase();
        if !self.storage.tables.contains(tn.as_str()) {
            return Err(about("Unknown table: ", table_name));
        }
        let mut table = match self.storage.tables.take(tn.as_str()) {
            Some(t) => t,
            None => RowTable::new(),
        };
        let (before, after) = change_selected(
            &mut table,
            &places,
            &values,
            selection,
            &table_columns,
            &self.numbers,
        );
        self.storage.tables.insert(tn, table);
        delete_all_from_indexes(
            &mut self.storage.index_data,
            table_name,
            &indexes,
            &table_columns,
            &before,
        );
        insert_all_into_indexes(
            &mut self.storage.index_data,
            table_name,
            &indexes,
            &table_columns,
            &after,
        );
        let ghost rows = table@;
        assert(old(self)@.storage.tables.remove(catalog::normal(table_name@)).insert(
            catalog::normal(table_name@),
            rows,
        ) =~= old(self)@.storage.tables.insert(catalog::normal(table_name@), rows));
        assert(self@.storage.tables.insert(catalog::normal(table_name@), rows)
            =~= self@.storage.tables);
        Ok(self.record_change(table_name, before.len() as u64))
    }

    fn execute_query(&self, db: &str, query: &SelectQuery) -> (r: Result<ExecuteResult, String>)
        ensures
            query_outcome(self@, db@, *query) == outcome_of(self@, r),
    {
        match run_query(&self.catalog, &self.storage, &self.numbers, db, query) {
            Ok((columns, rows)) => Ok(ExecuteResult::Rows { columns, rows }),
            Err(e) => Err(e),
        }
    }

    fn execute_create_index(&mut self, db: &str, table_name: &str, spec: &IndexSpec) -> (r: Result<
        ExecuteResult,
        String,
    >)
        ensures
            create_index_outcome(old(self)@, db@, table_name@, *spec) == outcome_of(
                final(self)@,
                r,
            ),
    {
        let def = define_index(table_name, spec);
        if def.columns.len() == 0 {
            return Err("Index must have at least one column".to_string());
        }
        match self.catalog.create_index(db, def.duplicate()) {
            Ok(_) => {},
            Err(e) => {
                return Err(e);
            },
        }
        self.log_wal(
            &WalEntry::CreateIndex { db_name: db.to_string(), index_def: def.duplicate() },
        );
        let table_columns: Vec<Column> = match self.catalog.get_table(db, table_name) {
            Ok(t) => duplicate_all(t.columns.as_slice()),
            Err(e) => {
                return Err(e);
            },
        };
        let key = stored_index_name(table_name, def.name.as_str());
        let built = build_index(
            &self.storage.get_rows(table_name),
            &def,
            def.unique,
            &table_columns,
        );
        match built {
            Err(twice) => {
                self.storage.index_data.take(key.as_str());
                Err(duplicate_message(&twice, def.name.as_str(), &self.numbers))
            },
            Ok(data) => {
                self.storage.index_data.insert(key, data);
                self.save_table(table_name);
                self.save();
                Ok(ExecuteResult::Done)
            },
        }
    }

    pub(crate) fn find_index_table(&self, db: &str, name: &str) -> (r: Option<String>)
        ensures
            match r {
                Some(t) => index_owner(self@.catalog, db@, name@) == Some(t@),
                None => index_owner(self@.catalog, db@, name@) is None,
            },
    {
        let d = match self.catalog.get_database(db) {
            Some(d) => d,
            None => {
                return None;
            },
        };
        let lists = &d.indexes;
        let count: usize = lists.len();
        let ghost list = names::listing(lists@);
        let ghost owns = |t: Seq<char>| catalog::index_place(lists@[t], name@) is Some;
        let mut i: usize = 0;
        while i < count
            invariant
                list == names::listing(lists@),
                owns == (|t: Seq<char>| catalog::index_place(lists@[t], name@) is Some),
                lists@ == catalog::database(self@.catalog, db@).indexes,
                catalog::has_database(self@.catalog, db@),
                count == list.len(),
                i <= count,
                forall|j: int| 0 <= j < i ==> !owns(#[trigger] list[j]),
            decreases count - i,
        {
            let defs = lists.value_at(i);
            if let Some(_) = find_index(&defs.items, name) {
                proof {
                    model::lemma_first_is(list, owns, i as int);
                }
                return Some(lists.name_at(i).clone());
            }
            i = i + 1;
        }
        proof {
            model::lemma_first_none(list, owns);
        }
        None
    }

    fn execute_drop_index(&mut self, db: &str, name: &str, if_exists: bool) -> (r: Result<
        ExecuteResult,
        String,
    >)
        ensures
            drop_index_outcome(old(self)@, db@, name@, if_exists) == outcome_of(final(self)@, r),
    {
        let table_name = match self.find_index_table(db, name) {
            Some(t) => t,
            None => {
                return Err(about("Unknown index: ", name));
            },
        };
        if if_exists {
            if let None = self.catalog.get_index(db, table_name.as_str(), name) {
                return Ok(ExecuteResult::Done);
            }
        }
        match self.catalog.drop_index(db, name, table_name.as_str()) {
            Ok(_) => {},
            Err(e) => {
                return Err(e);
            },
        }
        self.log_wal(
            &WalEntry::DropIndex {
                db_name: db.to_string(),
                index_name: name.to_string(),
                table_name: table_name.clone(),
            },
        );
        let key = stored_index_name(table_name.as_str(), name);
        self.storage.index_data.take(key.as_str());
        Ok(ExecuteResult::Done)
    }

    fn execute_drop_table(&mut self, db: &str, table_name: &str) -> (r: Result<
        ExecuteResult,
        String,
    >)
        ensures
            drop_table_outcome(old(self)@, db@, table_name@) == outcome_of(final(self)@, r),
    {
        let tn = table_name.to_lowercase();
        self.log_wal(&WalEntry::DropTable { table_name: tn.clone() });
        match self.catalog.drop_table(db, tn.as_str()) {
            Ok(_) => {},
            Err(e) => {
                return Err(e);
            },
        }
        self.storage.clear_table(tn.as_str());
        self.save_later(SaveAction::RemoveTable(tn));
        self.save();
        Ok(ExecuteResult::Done)
    }

    fn execute_create_database(&mut self, name: &str) -> (r: Result<ExecuteResult, String>)
        ensures
            create_database_outcome(old(self)@, name@) == outcome_of(final(self)@, r),
    {
        self.catalog.create_database(name);
        self.save();
        Ok(ExecuteResult::Done)
    }

    fn execute_drop_database(&mut self, name: &str) -> (r: Result<ExecuteResult, String>)
        ensures
            drop_database_outcome(old(self)@, name@) == outcome_of(final(self)@, r),
    {
        if !self.catalog.database_exists(name) {
            return Err(about("Unknown database: ", name));
        }
        self.catalog.remove_database(name);
        self.save();
        Ok(ExecuteResult::Done)
    }

    fn execute_show_tables(&self, db: &str) -> (r: Result<ExecuteResult, String>)
        ensures
            show_tables_outcome(self@, db@) == outcome_of(self@, r),
    {
        let tables = match list_tables(&self.catalog, db) {
            Ok(list) => list,
            Err(e) => {
                return Err(e);
            },
        };
        let columns = one_text_column(about("Tables_in_", db).as_str());
        Ok(ExecuteResult::Rows { columns, rows: rows_of_texts(&tables) })
    }

    fn execute_show_databases(&self) -> (r: Result<ExecuteResult, String>)
        ensures
            show_databases_outcome(self@) == outcome_of(self@, r),
    {
        let columns = one_text_column("Database");
        let list = list_databases(&self.catalog);
        Ok(ExecuteResult::Rows { columns, rows: rows_of_texts(&list) })
    }

    fn execute_use(&self, name: &Option<Path>) -> (r: Result<ExecuteResult, String>)
        ensures
            use_outcome(self@, *name) == outcome_of(self@, r),
    {
        match name {
            None => Err("USE only supports database switching".to_string()),
            Some(path) => {
                let db = path.to_string();
                if self.catalog.database_exists(db.as_str()) {
                    Ok(ExecuteResult::DatabaseChanged(db))
                } else {
                    Err(about("Unknown database: ", db.as_str()))
                }
            },
        }
    }

    fn execute_describe(&self, db: &str, table_name: &str) -> (r: Result<ExecuteResult, String>)
        ensures
            describe_outcome(self@, db@, table_name@) == outcome_of(self@, r),
    {
        match self.catalog.get_table(db, table_name) {
            Ok(t) => Ok(
                ExecuteResult::Rows {
                    columns: describe_columns(),
                    rows: describe_rows(&t.columns, &self.numbers),
                },
            ),
            Err(e) => Err(e),
        }
    }

    /// Whether a statement can be executed: the rows of an `INSERT` must have a
    /// value for every column, and the numbers must not run out.
    pub fn can_execute(&self, db: &str, statement: &SqlStatement, now: u64) -> (r: bool)
        ensures
            r == can_run(self@, db@, *statement, now),
    {
        match statement {
            SqlStatement::Insert { table, columns, source } => {
                let table_name = table.name();
                let t = match self.catalog.get_table(db, table_name.as_str()) {
                    Ok(t) => t,
                    Err(_) => {
                        return true;
                    },
                };
                let rows = match read_rows(source, columns, &t.columns, &self.numbers) {
                    Ok(rows) => rows,
                    Err(_) => {
                        return true;
                    },
                };
                if !rows_wide_enough(&rows, &t.columns) {
                    return false;
                }
                let start: u64 = self.catalog.coming_row_id(table_name.as_str());
                let needed: u64 = match numbers_needed(&rows, &t.columns) {
                    Some(n) => n,
                    None => {
                        return false;
                    },
                };
                if needed > u64::MAX - start {
                    return false;
                }
                let (full, _, _) = complete_rows(rows, &t.columns, start, now);
                self.storage.can_insert_rows(table_name.as_str(), &full)
            },
            _ => true,
        }
    }

    /// Executes a statement in a database. `now` is the time in seconds since 1970,
    /// for columns that hold the time of their insertion.
    pub fn execute(&mut self, db: &str, statement: &SqlStatement, now: u64) -> (r: Result<
        ExecuteResult,
        String,
    >)
        requires
            can_run(old(self)@, db@, *statement, now),
        ensures
            statement_outcome(old(self)@, db@, *statement, now) == outcome_of(final(self)@, r),
    {
        match statement {
            SqlStatement::CreateTable { name, if_not_exists, specs } => {
                let table_name = name.to_string();
                if *if_not_exists && self.catalog.table_exists(db, table_name.as_str()) {
                    return Ok(ExecuteResult::Done);
                }
                self.execute_create_table(db, table_name.as_str(), specs)
            },
            SqlStatement::Insert { table, columns, source } => {
                let table_name = table.name();
                self.execute_insert(db, table_name.as_str(), columns, source, now)
            },
            SqlStatement::Select(query) => self.execute_query(db, query),
            SqlStatement::Delete { tables, from, selection } => {
                let table_name = name_of_deleted(tables, from);
                self.execute_delete(db, table_name.as_str(), selection)
            },
            SqlStatement::Update { table, assignments, selection } => {
                let table_name = table.name();
                self.execute_update(db, table_name.as_str(), assignments, selection)
            },
            SqlStatement::Drop { kind, names, if_exists } => {
                let name = name_of_first(names);
                match kind {
                    DropKind::Table => {
                        if *if_exists && !self.catalog.table_exists(db, name.as_str()) {
                            return Ok(ExecuteResult::Done);
                        }
                        self.execute_drop_table(db, name.as_str())
                    },
                    DropKind::Database => {
                        if *if_exists && !self.database_exists(name.as_str()) {
                            return Ok(ExecuteResult::Done);
                        }
                        self.execute_drop_database(name.as_str())
                    },
                    DropKind::Index => self.execute_drop_index(db, name.as_str(), *if_exists),
                    DropKind::Other => Err("Unsupported statement".to_string()),
                }
            },
            SqlStatement::CreateDatabase { name, if_not_exists } => {
                let db_name = name.to_string();
                if *if_not_exists && self.database_exists(db_name.as_str()) {
                    return Ok(ExecuteResult::Done);
                }
                self.execute_create_database(db_name.as_str())
            },
            SqlStatement::ShowDatabases => self.execute_show_databases(),
            SqlStatement::ShowTables => self.execute_show_tables(db),
            SqlStatement::Use(name) => self.execute_use(name),
            SqlStatement::Describe(name) => {
                let table_name = name.to_string();
                self.execute_describe(db, table_name.as_str())
            },
            SqlStatement::CreateIndex(spec) => {
                let table_name = spec.table.to_string();
                if !self.catalog.table_exists(db, table_name.as_str()) {
                    return Err(about("Unknown table: ", table_name.as_str()));
                }
                self.execute_create_index(db, table_name.as_str(), spec)
            },
            SqlStatement::Unsupported => Err("Unsupported statement".to_string()),
        }
    }
}

} // verus!
