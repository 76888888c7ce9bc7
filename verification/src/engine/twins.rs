//! An index is there for speed alone: of two executors that run the same statements,
//! one with an index on a table and one without, both give the same answers.

use vstd::prelude::*;

use crate::engine::catalog;
use crate::engine::catalog::{CatalogV, DatabaseV};
use crate::engine::change;
use crate::engine::durability;
use crate::engine::durability::CommandV;
use crate::engine::eval;
use crate::engine::executor;
use crate::engine::executor::ExecV;
use crate::engine::index::{IndexDefV, IndexV};
use crate::engine::insert;
use crate::engine::laws;
use crate::engine::maintain;
use crate::engine::mirror;
use crate::engine::query;
use crate::engine::schema;
use crate::engine::storage;
use crate::engine::storage::RowV;
use crate::engine::types::{ColumnV, Val};
use crate::engine::upkeep;
use crate::engine::wal;
use crate::model;
use crate::names;
use crate::sql::ast::{DropKind, IndexSpec, QueryBody, SelectQuery, SqlStatement};
use crate::text;

verus! {

/// A catalog without the indexes on one table.
pub open spec fn bare(c: CatalogV, db: Seq<char>, table: Seq<char>) -> CatalogV {
    if catalog::has_database(c, db) && catalog::database(c, db).indexes.contains_key(
        catalog::normal(table),
    ) {
        let d = catalog::database(c, db);
        catalog::with_database(
            c,
            db,
            DatabaseV {
                indexes: d.indexes.insert(catalog::normal(table), Seq::empty()),
                ..d
            },
        )
    } else {
        c
    }
}

/// A table has a list of indexes if and only if it is there.
pub open spec fn listed(c: CatalogV, db: Seq<char>, table: Seq<char>) -> bool {
    catalog::has_table(c, db, table) == (catalog::has_database(c, db) && catalog::database(
        c,
        db,
    ).indexes.contains_key(catalog::normal(table)))
}

/// Two executors hold the same tables with the same rows, and the same indexes on all
/// tables but one. On that the first may have indexes, which are in step with the rows,
/// and the second has none.
pub open spec fn twins(a: ExecV, b: ExecV, db: Seq<char>, table: Seq<char>) -> bool {
    &&& a.numbers == b.numbers
    &&& b.catalog == bare(a.catalog, db, table)
    &&& a.storage.tables == b.storage.tables
    &&& a.storage.next_ids == b.storage.next_ids
    &&& durability::numbered(a.storage)
    &&& listed(a.catalog, db, table)
    &&& catalog::table_of(a.catalog, db, table) matches Ok(t) ==> upkeep::in_step(
        a.catalog,
        a.storage,
        db,
        table,
        t.columns,
    )
}

/// Two places in a catalog are the same.
pub open spec fn same_place(d: Seq<char>, u: Seq<char>, db: Seq<char>, table: Seq<char>) -> bool {
    catalog::normal(d) == catalog::normal(db) && catalog::normal(u) == catalog::normal(table)
}

proof fn lemma_bare(c: CatalogV, db: Seq<char>, table: Seq<char>, d: Seq<char>, u: Seq<char>)
    ensures
        catalog::has_database(bare(c, db, table), d) == catalog::has_database(c, d),
        catalog::has_table(bare(c, db, table), d, u) == catalog::has_table(c, d, u),
        catalog::table_of(bare(c, db, table), d, u) == catalog::table_of(c, d, u),
        bare(c, db, table).sequences == c.sequences,
        same_place(d, u, db, table) ==> catalog::indexes_of(bare(c, db, table), d, u).len() == 0
            || !catalog::has_database(c, db),
        !same_place(d, u, db, table) ==> catalog::indexes_of(bare(c, db, table), d, u)
            == catalog::indexes_of(c, d, u),
{
}

/// The table whose rows a statement changes, if it is one that changes rows.
pub open spec fn changed_table(statement: SqlStatement) -> Option<Seq<char>> {
    match statement {
        SqlStatement::Insert { table, columns, source } => Some(
            crate::sql::ast::table_text(table),
        ),
        SqlStatement::Update { table, assignments, selection } => Some(
            crate::sql::ast::table_text(table),
        ),
        SqlStatement::Delete { tables, from, selection } => Some(
            executor::deleted_table(tables@, from@),
        ),
        _ => None,
    }
}

/// The rows of two tables are stored apart, and so are their indexes: nothing that is
/// stored for an index of the second has a name that begins like those of the first.
pub open spec fn apart(u: Seq<char>, table: Seq<char>) -> bool {
    &&& catalog::normal(u) != catalog::normal(table)
    &&& forall|m: Seq<char>|
        !text::has_prefix(#[trigger] query::index_key(table, m), catalog::normal(u) + ":"@)
}

/// Tables of different names without a colon are stored apart.
pub proof fn tables_without_colons_are_apart(u: Seq<char>, table: Seq<char>)
    requires
        catalog::normal(u) != catalog::normal(table),
        !catalog::normal(u).contains(':'),
        !catalog::normal(table).contains(':'),
    ensures
        apart(u, table),
{
    let a = catalog::normal(u);
    let b = catalog::normal(table);
    let p = a + ":"@;
    reveal_strlit(":");
    assert forall|m: Seq<char>| !text::has_prefix(#[trigger] query::index_key(table, m), p) by {
        let y = query::index_key(table, m);
        if text::has_prefix(y, p) {
            assert forall|i: int| 0 <= i < p.len() implies y[i] == p[i] by {
                assert(y.take(p.len() as int)[i] == p[i]);
            }
            assert(p[a.len() as int] == ':');
            assert(y[b.len() as int] == ':');
            if a.len() < b.len() {
                assert(y[a.len() as int] == b[a.len() as int]);
            } else if b.len() < a.len() {
                assert(p[b.len() as int] == a[b.len() as int]);
            } else {
                assert forall|i: int| 0 <= i < a.len() implies a[i] == b[i] by {
                    assert(y[i] == p[i]);
                }
                assert(a =~= b);
            }
        }
    }
}

proof fn lemma_apart(u: Seq<char>, table: Seq<char>, n: Seq<char>, m: Seq<char>)
    requires
        apart(u, table),
    ensures
        query::index_key(u, n) != query::index_key(table, m),
{
    let x = query::index_key(u, n);
    let p = catalog::normal(u) + ":"@;
    assert(x.take(p.len() as int) =~= p);
}

/// A command can be run by both twins: it is about the table, but not about an index on
/// it, or about none that is not stored apart from the table.
pub open spec fn concerns(x: ExecV, c: CommandV, db: Seq<char>, table: Seq<char>) -> bool {
    match c.statement {
        SqlStatement::Drop { kind, names, if_exists } => {
            let name = executor::first_name(names@);
            match kind {
                DropKind::Table => same_place(c.db, catalog::normal(name), db, table) || apart(
                    catalog::normal(name),
                    table,
                ),
                DropKind::Index => can_drop_index(x, c.db, name, table),
                _ => true,
            }
        },
        SqlStatement::CreateIndex(spec) => apart(crate::sql::ast::path_text(spec.table), table),
        _ => match changed_table(c.statement) {
            Some(u) => same_place(c.db, u, db, table) || apart(u, table),
            None => true,
        },
    }
}

/// A command creates or drops an index on the table.
pub open spec fn is_index_command(
    x: ExecV,
    c: CommandV,
    db: Seq<char>,
    table: Seq<char>,
) -> bool {
    match c.statement {
        SqlStatement::CreateIndex(spec) => same_place(
            c.db,
            crate::sql::ast::path_text(spec.table),
            db,
            table,
        ),
        SqlStatement::Drop { kind: DropKind::Index, names, if_exists } => executor::index_owner(
            x.catalog,
            c.db,
            executor::first_name(names@),
        ) matches Some(u) && same_place(c.db, u, db, table),
        _ => false,
    }
}

/// A command that creates or drops an index on the table leaves the catalog as it was
/// or succeeds, and case folding takes its name for that of the same index as the
/// catalog does.
pub open spec fn keeps_indexes(x: ExecV, c: CommandV, db: Seq<char>, table: Seq<char>) -> bool {
    let list = catalog::indexes_of(x.catalog, db, table);
    durability::after_command(x, c).catalog == x.catalog || match c.statement {
        SqlStatement::CreateIndex(spec) => {
            let u = crate::sql::ast::path_text(spec.table);
            &&& executor::create_index_outcome(x, c.db, u, spec).result is Ok
            &&& forall|i: int|
                0 <= i < list.len() ==> catalog::normal((#[trigger] list[i]).name)
                    != catalog::normal(executor::index_definition(u, spec).name)
        },
        SqlStatement::Drop { kind, names, if_exists } => {
            let name = executor::first_name(names@);
            catalog::index_place(list, name) matches Some(i) && catalog::normal(list[i].name)
                == catalog::normal(name)
        },
        _ => true,
    }
}

/// An index of a name can be dropped by twins: the tables with indexes can be listed,
/// and the first that has such an index is stored apart.
pub open spec fn can_drop_index(
    x: ExecV,
    d: Seq<char>,
    name: Seq<char>,
    table: Seq<char>,
) -> bool {
    catalog::has_database(x.catalog, d) ==> {
        let lists = catalog::database(x.catalog, d).indexes;
        &&& names::lists(lists, names::listing(lists))
        &&& executor::index_owner(x.catalog, d, name) matches Some(u) ==> apart(u, table)
            && catalog::normal(u) == u
    }
}

proof fn lemma_same_place(
    a: ExecV,
    b: ExecV,
    db: Seq<char>,
    table: Seq<char>,
    d: Seq<char>,
    u: Seq<char>,
)
    requires
        twins(a, b, db, table),
        same_place(d, u, db, table),
    ensures
        twins(a, b, d, u),
{
}

proof fn lemma_still_numbered(x: ExecV, db: Seq<char>, statement: SqlStatement, now: u64)
    requires
        durability::numbered(x.storage),
        executor::can_run(x, db, statement, now),
        statement is Insert || statement is Update || statement is Delete,
    ensures
        durability::numbered(executor::statement_outcome(x, db, statement, now).state.storage),
{
    assert(durability::same_data(x.catalog, x.storage, x.catalog, x.storage));
    durability::replay_follows_execution(x, x.catalog, x.storage, db, statement, now);
}

/// What statements on rows keep of the catalog, and how twins change alike.
proof fn lemma_change_alike(
    a: ExecV,
    b: ExecV,
    db: Seq<char>,
    table: Seq<char>,
    d: Seq<char>,
    statement: SqlStatement,
    now: u64,
    u: Seq<char>,
)
    requires
        twins(a, b, db, table),
        changed_table(statement) == Some(u),
        executor::can_run(a, d, statement, now),
    ensures
        executor::can_run(b, d, statement, now),
        ({
            let y = executor::statement_outcome(a, d, statement, now).state;
            let z = executor::statement_outcome(b, d, statement, now).state;
            &&& y.numbers == z.numbers
            &&& y.catalog.databases == a.catalog.databases
            &&& z.catalog == bare(y.catalog, db, table)
            &&& y.storage.tables == z.storage.tables
            &&& y.storage.next_ids == z.storage.next_ids
        }),
{
    lemma_bare(a.catalog, db, table, d, u);
}

proof fn lemma_own_table_keeps_twins(
    a: ExecV,
    b: ExecV,
    db: Seq<char>,
    table: Seq<char>,
    statement: SqlStatement,
    now: u64,
)
    requires
        twins(a, b, db, table),
        changed_table(statement) == Some(table),
        executor::can_run(a, db, statement, now),
        durability::numbered(executor::statement_outcome(a, db, statement, now).state.storage),
    ensures
        executor::can_run(b, db, statement, now),
        twins(
            executor::statement_outcome(a, db, statement, now).state,
            executor::statement_outcome(b, db, statement, now).state,
            db,
            table,
        ),
{
    lemma_change_alike(a, b, db, table, db, statement, now, table);
    match statement {
        SqlStatement::Insert { table: t, columns, source } => {
            let names = model::views(columns@);
            if let Ok(t) = catalog::table_of(a.catalog, db, table) {
                if let Ok(rows) = insert::source_rows(a.numbers, source, names, t.columns) {
                    durability::read_rows_have_no_numbers(a.numbers, source, names, t.columns);
                    upkeep::insert_keeps_indexes(a, db, table, t.columns, rows, now);
                }
            }
        },
        SqlStatement::Update { table: t, assignments, selection } => {
            upkeep::update_keeps_indexes(a, db, table, assignments@, selection);
        },
        SqlStatement::Delete { tables, from, selection } => {
            upkeep::delete_keeps_indexes(a, db, table, selection);
        },
        _ => {},
    }
}

proof fn lemma_row_entered_elsewhere(
    data: Map<Seq<char>, IndexV>,
    u: Seq<char>,
    defs: Seq<IndexDefV>,
    columns: Seq<ColumnV>,
    row: RowV,
    name: Seq<char>,
)
    requires
        forall|n: Seq<char>| #[trigger] query::index_key(u, n) != name,
    ensures
        maintain::row_entered(data, u, defs, columns, row).contains_key(name)
            == data.contains_key(name),
        maintain::row_entered(data, u, defs, columns, row)[name] == data[name],
        maintain::row_left(data, u, defs, columns, row).contains_key(name) == data.contains_key(
            name,
        ),
        maintain::row_left(data, u, defs, columns, row)[name] == data[name],
    decreases defs.len(),
{
    if defs.len() > 0 {
        lemma_row_entered_elsewhere(data, u, defs.drop_last(), columns, row, name);
        assert(query::index_key(u, defs.last().name) != name);
    }
}

proof fn lemma_rows_entered_elsewhere(
    data: Map<Seq<char>, IndexV>,
    u: Seq<char>,
    defs: Seq<IndexDefV>,
    columns: Seq<ColumnV>,
    rows: Seq<RowV>,
    name: Seq<char>,
)
    requires
        forall|n: Seq<char>| #[trigger] query::index_key(u, n) != name,
    ensures
        maintain::rows_entered(data, u, defs, columns, rows).contains_key(name)
            == data.contains_key(name),
        maintain::rows_entered(data, u, defs, columns, rows)[name] == data[name],
    decreases rows.len(),
{
    if rows.len() > 0 {
        let before = rows.drop_last();
        lemma_rows_entered_elsewhere(data, u, defs, columns, before, name);
        lemma_row_entered_elsewhere(
            maintain::rows_entered(data, u, defs, columns, before),
            u,
            defs,
            columns,
            rows.last(),
            name,
        );
    }
}

proof fn lemma_rows_left_elsewhere(
    data: Map<Seq<char>, IndexV>,
    u: Seq<char>,
    defs: Seq<IndexDefV>,
    columns: Seq<ColumnV>,
    rows: Seq<RowV>,
    name: Seq<char>,
)
    requires
        forall|n: Seq<char>| #[trigger] query::index_key(u, n) != name,
    ensures
        maintain::rows_left(data, u, defs, columns, rows).contains_key(name)
            == data.contains_key(name),
        maintain::rows_left(data, u, defs, columns, rows)[name] == data[name],
    decreases rows.len(),
{
    if rows.len() > 0 {
        let before = rows.drop_last();
        lemma_rows_left_elsewhere(data, u, defs, columns, before, name);
        lemma_row_entered_elsewhere(
            maintain::rows_left(data, u, defs, columns, before),
            u,
            defs,
            columns,
            rows.last(),
            name,
        );
    }
}

/// What is stored under a name of an index is left by a statement on another table.
proof fn lemma_other_index_left(
    x: ExecV,
    d: Seq<char>,
    statement: SqlStatement,
    now: u64,
    u: Seq<char>,
    name: Seq<char>,
)
    requires
        changed_table(statement) == Some(u),
        forall|n: Seq<char>| #[trigger] query::index_key(u, n) != name,
    ensures
        ({
            let y = executor::statement_outcome(x, d, statement, now).state;
            &&& y.storage.index_data.contains_key(name) == x.storage.index_data.contains_key(name)
            &&& y.storage.index_data[name] == x.storage.index_data[name]
        }),
{
    let data = x.storage.index_data;
    if let Ok(t) = catalog::table_of(x.catalog, d, u) {
        let defs = catalog::indexes_of(x.catalog, d, u);
        let rows = storage::rows_of(x.storage, u);
        match statement {
            SqlStatement::Insert { table, columns, source } => {
                let names = model::views(columns@);
                if let Ok(read) = insert::source_rows(x.numbers, source, names, t.columns) {
                    let full = executor::insertion_of(x, u, t.columns, read, now);
                    let c = executor::after_numbers(x.catalog, u, full.given);
                    let s = storage::rows_inserted(x.storage, u, full.rows);
                    let ids = storage::insertion(x.storage, u, full.rows).ids;
                    lemma_rows_entered_elsewhere(
                        data,
                        u,
                        catalog::indexes_of(c, d, u),
                        t.columns,
                        executor::rows_numbered(s, u, ids),
                        name,
                    );
                }
            },
            SqlStatement::Update { table, assignments, selection } => {
                if let Ok(pairs) = change::assigned(x.numbers, assignments@, t.columns) {
                    let chosen = query::selected(rows, selection, t.columns, x.numbers);
                    lemma_rows_left_elsewhere(data, u, defs, t.columns, chosen, name);
                    lemma_rows_entered_elsewhere(
                        maintain::rows_left(data, u, defs, t.columns, chosen),
                        u,
                        defs,
                        t.columns,
                        change::rows_assigned(chosen, pairs),
                        name,
                    );
                }
            },
            SqlStatement::Delete { tables, from, selection } => {
                let gone = query::selected(rows, selection, t.columns, x.numbers);
                lemma_rows_left_elsewhere(data, u, defs, t.columns, gone, name);
            },
            _ => {},
        }
    }
}

/// What a statement that changes rows leaves: the databases, and the rows of the other
/// tables.
proof fn lemma_only_rows_change(
    x: ExecV,
    d: Seq<char>,
    statement: SqlStatement,
    now: u64,
    u: Seq<char>,
    table: Seq<char>,
)
    requires
        changed_table(statement) == Some(u),
        catalog::normal(u) != catalog::normal(table),
    ensures
        ({
            let y = executor::statement_outcome(x, d, statement, now).state;
            &&& y.catalog.databases == x.catalog.databases
            &&& storage::rows_of(y.storage, table) == storage::rows_of(x.storage, table)
        }),
{
}

/// The indexes of a table stay in step where its definition, its rows and what is
/// stored for its indexes stay.
proof fn lemma_step_kept(a: ExecV, y: ExecV, db: Seq<char>, table: Seq<char>)
    requires
        catalog::table_of(a.catalog, db, table) matches Ok(t) ==> upkeep::in_step(
            a.catalog,
            a.storage,
            db,
            table,
            t.columns,
        ),
        catalog::table_of(y.catalog, db, table) == catalog::table_of(a.catalog, db, table),
        catalog::indexes_of(y.catalog, db, table) == catalog::indexes_of(a.catalog, db, table),
        storage::rows_of(y.storage, table) == storage::rows_of(a.storage, table),
        forall|m: Seq<char>|
            a.storage.index_data.contains_key(#[trigger] query::index_key(table, m))
                ==> y.storage.index_data.contains_key(query::index_key(table, m))
                && y.storage.index_data[query::index_key(table, m)]
                == a.storage.index_data[query::index_key(table, m)],
    ensures
        catalog::table_of(y.catalog, db, table) matches Ok(t) ==> upkeep::in_step(
            y.catalog,
            y.storage,
            db,
            table,
            t.columns,
        ),
{
    if let Ok(t) = catalog::table_of(y.catalog, db, table) {
        let defs = catalog::indexes_of(a.catalog, db, table);
        assert forall|i: int| 0 <= i < defs.len() implies ({
            let name = query::index_key(table, (#[trigger] defs[i]).name);
            y.storage.index_data.contains_key(name) && mirror::mirrors(
                y.storage.index_data[name],
                storage::rows_of(y.storage, table).to_set(),
                defs[i],
                t.columns,
            )
        }) by {
            let name = query::index_key(table, defs[i].name);
            assert(a.storage.index_data.contains_key(name));
        }
    }
}

proof fn lemma_other_table_keeps_twins(
    a: ExecV,
    b: ExecV,
    db: Seq<char>,
    table: Seq<char>,
    c: CommandV,
    u: Seq<char>,
)
    requires
        twins(a, b, db, table),
        changed_table(c.statement) == Some(u),
        apart(u, table),
        executor::can_run(a, c.db, c.statement, c.now),
        durability::numbered(durability::after_command(a, c).storage),
    ensures
        executor::can_run(b, c.db, c.statement, c.now),
        twins(durability::after_command(a, c), durability::after_command(b, c), db, table),
{
    let y = durability::after_command(a, c);
    lemma_change_alike(a, b, db, table, c.db, c.statement, c.now, u);
    lemma_only_rows_change(a, c.db, c.statement, c.now, u, table);
    assert forall|m: Seq<char>|
        y.storage.index_data.contains_key(#[trigger] query::index_key(table, m))
            == a.storage.index_data.contains_key(query::index_key(table, m))
            && y.storage.index_data[query::index_key(table, m)]
            == a.storage.index_data[query::index_key(table, m)] by {
        let name = query::index_key(table, m);
        assert forall|n: Seq<char>| #[trigger] query::index_key(u, n) != name by {
            lemma_apart(u, table, n, m);
        }
        lemma_other_index_left(a, c.db, c.statement, c.now, u, name);
    }
    lemma_step_kept(a, y, db, table);
}

// ---------------------------------------------------------------------------
// Definitions
// ---------------------------------------------------------------------------

proof fn lemma_create_table_keeps_twins(
    a: ExecV,
    b: ExecV,
    db: Seq<char>,
    table: Seq<char>,
    c: CommandV,
)
    requires
        twins(a, b, db, table),
        c.statement is CreateTable,
    ensures
        twins(durability::after_command(a, c), durability::after_command(b, c), db, table),
{
    if let SqlStatement::CreateTable { name, if_not_exists, specs } = c.statement {
        let u = crate::sql::ast::path_text(name);
        let y = durability::after_command(a, c);
        let z = durability::after_command(b, c);
        lemma_bare(a.catalog, db, table, c.db, u);
        lemma_bare(a.catalog, db, table, db, table);
        let columns = schema::defined_columns(a.numbers, u, specs@);
        if let Ok(made) = catalog::table_created(a.catalog, c.db, u, columns) {
            if same_place(c.db, u, db, table) {
                assert(z.catalog.databases =~= bare(y.catalog, db, table).databases) by {
                    let key = catalog::normal(db);
                    assert(z.catalog.databases[key].indexes =~= bare(
                        y.catalog,
                        db,
                        table,
                    ).databases[key].indexes);
                }
                assert(catalog::indexes_of(y.catalog, db, table).len() == 0);
            } else {
                lemma_table_created_bare(a.catalog, db, table, c.db, u, columns);
                lemma_step_kept(a, y, db, table);
            }
        } else {
            lemma_step_kept(a, y, db, table);
        }
    }
}

proof fn lemma_table_created_bare(
    c: CatalogV,
    db: Seq<char>,
    table: Seq<char>,
    d: Seq<char>,
    u: Seq<char>,
    columns: Seq<ColumnV>,
)
    requires
        !same_place(d, u, db, table),
        catalog::table_created(c, d, u, columns) is Ok,
    ensures
        catalog::table_created(bare(c, db, table), d, u, columns) == Ok::<CatalogV, Seq<char>>(
            bare(catalog::table_created(c, d, u, columns)->Ok_0, db, table),
        ),
        catalog::table_of(catalog::table_created(c, d, u, columns)->Ok_0, db, table)
            == catalog::table_of(c, db, table),
        catalog::indexes_of(catalog::table_created(c, d, u, columns)->Ok_0, db, table)
            == catalog::indexes_of(c, db, table),
        listed(c, db, table) ==> listed(
            catalog::table_created(c, d, u, columns)->Ok_0,
            db,
            table,
        ),
{
    lemma_bare(c, db, table, d, u);
    let made = catalog::table_created(c, d, u, columns)->Ok_0;
    let other = catalog::table_created(bare(c, db, table), d, u, columns)->Ok_0;
    if catalog::normal(d) == catalog::normal(db) {
        assert(other.databases[catalog::normal(db)].indexes =~= bare(
            made,
            db,
            table,
        ).databases[catalog::normal(db)].indexes);
    }
    assert(other.databases =~= bare(made, db, table).databases);
}

proof fn lemma_drop_table_keeps_twins(
    a: ExecV,
    b: ExecV,
    db: Seq<char>,
    table: Seq<char>,
    d: Seq<char>,
    u: Seq<char>,
)
    requires
        twins(a, b, db, table),
        same_place(d, catalog::normal(u), db, table) || apart(catalog::normal(u), table),
    ensures
        twins(
            executor::drop_table_outcome(a, d, u).state,
            executor::drop_table_outcome(b, d, u).state,
            db,
            table,
        ),
{
    let t = catalog::normal(u);
    let y = executor::drop_table_outcome(a, d, u).state;
    let z = executor::drop_table_outcome(b, d, u).state;
    lemma_bare(a.catalog, db, table, d, t);
    if let Ok(c) = catalog::table_dropped(a.catalog, d, t) {
        if catalog::normal(d) == catalog::normal(db) {
            assert(z.catalog.databases[catalog::normal(db)].indexes =~= bare(
                y.catalog,
                db,
                table,
            ).databases[catalog::normal(db)].indexes);
        }
        assert(z.catalog.databases =~= bare(y.catalog, db, table).databases);
        assert(durability::numbered(y.storage)) by {
            assert forall|w: Seq<char>| durability::table_numbered(
                #[trigger] durability::stored(y.storage, w),
                durability::number_behind(y.storage, w),
            ) by {
                assert(durability::table_numbered(
                    durability::stored(a.storage, w),
                    durability::number_behind(a.storage, w),
                ));
            }
        }
        if !same_place(d, t, db, table) {
            assert forall|m: Seq<char>|
                a.storage.index_data.contains_key(
                    #[trigger] query::index_key(table, m),
                ) implies y.storage.index_data.contains_key(query::index_key(table, m))
                && y.storage.index_data[query::index_key(table, m)]
                == a.storage.index_data[query::index_key(table, m)] by {
                assert(!text::has_prefix(query::index_key(table, m), catalog::normal(t) + ":"@));
            }
            lemma_step_kept(a, y, db, table);
        }
    }
}

proof fn lemma_database_keeps_twins(
    a: ExecV,
    b: ExecV,
    db: Seq<char>,
    table: Seq<char>,
    name: Seq<char>,
)
    requires
        twins(a, b, db, table),
    ensures
        twins(
            executor::create_database_outcome(a, name).state,
            executor::create_database_outcome(b, name).state,
            db,
            table,
        ),
        twins(
            executor::drop_database_outcome(a, name).state,
            executor::drop_database_outcome(b, name).state,
            db,
            table,
        ),
{
    lemma_bare(a.catalog, db, table, name, table);
    lemma_bare(a.catalog, db, table, db, table);
    let y = executor::create_database_outcome(a, name).state;
    let z = executor::create_database_outcome(b, name).state;
    assert(z.catalog.databases =~= bare(y.catalog, db, table).databases);
    if catalog::table_of(y.catalog, db, table) is Ok {
        lemma_step_kept(a, y, db, table);
    }
    let v = executor::drop_database_outcome(a, name).state;
    let w = executor::drop_database_outcome(b, name).state;
    assert(w.catalog.databases =~= bare(v.catalog, db, table).databases);
    if catalog::table_of(v.catalog, db, table) is Ok {
        lemma_step_kept(a, v, db, table);
    }
}

proof fn lemma_index_created_bare(
    c: CatalogV,
    db: Seq<char>,
    table: Seq<char>,
    d: Seq<char>,
    def: IndexDefV,
)
    requires
        catalog::normal(def.table_name) != catalog::normal(table),
    ensures
        match catalog::index_created(c, d, def) {
            Ok(made) => catalog::index_created(bare(c, db, table), d, def) == Ok::<
                CatalogV,
                Seq<char>,
            >(bare(made, db, table)) && catalog::table_of(made, db, table) == catalog::table_of(
                c,
                db,
                table,
            ) && catalog::indexes_of(made, db, table) == catalog::indexes_of(c, db, table)
                && listed(made, db, table) == listed(c, db, table),
            Err(e) => catalog::index_created(bare(c, db, table), d, def) == Err::<
                CatalogV,
                Seq<char>,
            >(e),
        },
{
    lemma_bare(c, db, table, d, def.table_name);
    if let Ok(made) = catalog::index_created(c, d, def) {
        let other = catalog::index_created(bare(c, db, table), d, def)->Ok_0;
        if catalog::normal(d) == catalog::normal(db) {
            assert(other.databases[catalog::normal(db)].indexes =~= bare(
                made,
                db,
                table,
            ).databases[catalog::normal(db)].indexes);
        }
        assert(other.databases =~= bare(made, db, table).databases);
    }
}

proof fn lemma_create_index_keeps_twins(
    a: ExecV,
    b: ExecV,
    db: Seq<char>,
    table: Seq<char>,
    d: Seq<char>,
    u: Seq<char>,
    spec: IndexSpec,
)
    requires
        twins(a, b, db, table),
        apart(u, table),
    ensures
        twins(
            executor::create_index_outcome(a, d, u, spec).state,
            executor::create_index_outcome(b, d, u, spec).state,
            db,
            table,
        ),
{
    let def = executor::index_definition(u, spec);
    let y = executor::create_index_outcome(a, d, u, spec).state;
    lemma_index_created_bare(a.catalog, db, table, d, def);
    if def.columns.len() > 0 {
        if let Ok(made) = catalog::index_created(a.catalog, d, def) {
            lemma_bare(made, db, table, d, u);
            assert forall|m: Seq<char>|
                y.storage.index_data.contains_key(#[trigger] query::index_key(table, m))
                    == a.storage.index_data.contains_key(query::index_key(table, m))
                    && y.storage.index_data[query::index_key(table, m)]
                    == a.storage.index_data[query::index_key(table, m)] by {
                lemma_apart(u, table, def.name, m);
            }
            assert(durability::numbered(y.storage)) by {
                lemma_same_tables_numbered(a, y);
            }
            lemma_step_kept(a, y, db, table);
        }
    }
}

proof fn lemma_same_tables_numbered(a: ExecV, y: ExecV)
    requires
        durability::numbered(a.storage),
        y.storage.tables == a.storage.tables,
        y.storage.next_ids == a.storage.next_ids,
    ensures
        durability::numbered(y.storage),
{
    assert forall|w: Seq<char>| durability::table_numbered(
        #[trigger] durability::stored(y.storage, w),
        durability::number_behind(y.storage, w),
    ) by {
        assert(durability::table_numbered(
            durability::stored(a.storage, w),
            durability::number_behind(a.storage, w),
        ));
    }
}

/// Both catalogs find the same table for an index that is not on the table.
proof fn lemma_owner_alike(
    x: ExecV,
    db: Seq<char>,
    table: Seq<char>,
    d: Seq<char>,
    name: Seq<char>,
)
    requires
        can_drop_index(x, d, name, table),
    ensures
        executor::index_owner(bare(x.catalog, db, table), d, name) == executor::index_owner(
            x.catalog,
            d,
            name,
        ),
{
    let c = x.catalog;
    let e = bare(c, db, table);
    lemma_bare(c, db, table, d, table);
    if catalog::has_database(c, d) {
        let lists = catalog::database(c, d).indexes;
        let others = catalog::database(e, d).indexes;
        let list = names::listing(lists);
        let key = catalog::normal(table);
        assert forall|k: Seq<char>| #[trigger] others.contains_key(k) <==> list.contains(k) by {
            assert(lists.contains_key(k) <==> list.contains(k));
        }
        assert(names::lists(others, list));
        assert(names::lists(others, names::listing(others)));
        names::listing_is_unique(others, list, names::listing(others));
        let owns = |t: Seq<char>| catalog::index_place(lists[t], name) is Some;
        let owns_too = |t: Seq<char>| catalog::index_place(others[t], name) is Some;
        model::lemma_first(list, owns);
        model::lemma_first(Seq::<IndexDefV>::empty(), catalog::is_named(name));
        assert forall|k: Seq<char>| #[trigger] owns_too(k) implies owns(k) by {
        }
        match model::first(list, owns) {
            Some(i) => {
                let u = list[i];
                assert(executor::index_owner(c, d, name) == Some(u));
                assert(owns(u));
                assert(owns_too(u));
                assert forall|j: int| 0 <= j < i implies !owns_too(#[trigger] list[j]) by {
                    assert(!owns(list[j]));
                }
                model::lemma_first_is(list, owns_too, i);
            },
            None => {
                assert forall|j: int| 0 <= j < list.len() implies !owns_too(
                    #[trigger] list[j],
                ) by {
                    assert(!owns(list[j]));
                }
                model::lemma_first_none(list, owns_too);
            },
        }
    }
}

proof fn lemma_index_dropped_bare(
    c: CatalogV,
    db: Seq<char>,
    table: Seq<char>,
    d: Seq<char>,
    name: Seq<char>,
    u: Seq<char>,
)
    requires
        catalog::normal(u) != catalog::normal(table),
    ensures
        match catalog::index_dropped(c, d, name, u) {
            Ok((left, def)) => catalog::index_dropped(bare(c, db, table), d, name, u) == Ok::<
                (CatalogV, IndexDefV),
                Seq<char>,
            >((bare(left, db, table), def)) && catalog::table_of(left, db, table)
                == catalog::table_of(c, db, table) && catalog::indexes_of(left, db, table)
                == catalog::indexes_of(c, db, table) && listed(left, db, table) == listed(
                c,
                db,
                table,
            ),
            Err(e) => catalog::index_dropped(bare(c, db, table), d, name, u) == Err::<
                (CatalogV, IndexDefV),
                Seq<char>,
            >(e),
        },
{
    lemma_bare(c, db, table, d, u);
    if let Ok((left, def)) = catalog::index_dropped(c, d, name, u) {
        let other = (catalog::index_dropped(bare(c, db, table), d, name, u)->Ok_0).0;
        if catalog::normal(d) == catalog::normal(db) {
            assert(other.databases[catalog::normal(db)].indexes =~= bare(
                left,
                db,
                table,
            ).databases[catalog::normal(db)].indexes);
        }
        assert(other.databases =~= bare(left, db, table).databases);
    }
}

proof fn lemma_drop_index_keeps_twins(
    a: ExecV,
    b: ExecV,
    db: Seq<char>,
    table: Seq<char>,
    d: Seq<char>,
    name: Seq<char>,
    if_exists: bool,
)
    requires
        twins(a, b, db, table),
        can_drop_index(a, d, name, table),
    ensures
        twins(
            executor::drop_index_outcome(a, d, name, if_exists).state,
            executor::drop_index_outcome(b, d, name, if_exists).state,
            db,
            table,
        ),
{
    lemma_owner_alike(a, db, table, d, name);
    if let Some(u) = executor::index_owner(a.catalog, d, name) {
        lemma_index_dropped_bare(a.catalog, db, table, d, name, u);
        lemma_bare(a.catalog, db, table, d, u);
        let y = executor::drop_index_outcome(a, d, name, if_exists).state;
        assert forall|m: Seq<char>|
            y.storage.index_data.contains_key(#[trigger] query::index_key(table, m))
                == a.storage.index_data.contains_key(query::index_key(table, m))
                && y.storage.index_data[query::index_key(table, m)]
                == a.storage.index_data[query::index_key(table, m)] by {
            lemma_apart(u, table, name, m);
        }
        lemma_same_tables_numbered(a, y);
        lemma_step_kept(a, y, db, table);
    }
}

proof fn lemma_definition_keeps_twins(
    a: ExecV,
    b: ExecV,
    db: Seq<char>,
    table: Seq<char>,
    c: CommandV,
)
    requires
        twins(a, b, db, table),
        c.statement is Drop || c.statement is CreateIndex || c.statement is CreateDatabase,
        concerns(a, c, db, table),
    ensures
        twins(durability::after_command(a, c), durability::after_command(b, c), db, table),
{
    match c.statement {
        SqlStatement::Drop { kind, names, if_exists } => {
            let name = executor::first_name(names@);
            lemma_bare(a.catalog, db, table, c.db, name);
            match kind {
                DropKind::Table => {
                    lemma_drop_table_keeps_twins(a, b, db, table, c.db, name);
                },
                DropKind::Database => {
                    lemma_bare(a.catalog, db, table, name, table);
                    lemma_database_keeps_twins(a, b, db, table, name);
                },
                DropKind::Index => {
                    lemma_drop_index_keeps_twins(a, b, db, table, c.db, name, if_exists);
                },
                DropKind::Other => {},
            }
        },
        SqlStatement::CreateIndex(spec) => {
            let u = crate::sql::ast::path_text(spec.table);
            lemma_bare(a.catalog, db, table, c.db, u);
            lemma_create_index_keeps_twins(a, b, db, table, c.db, u, spec);
        },
        SqlStatement::CreateDatabase { name, if_not_exists } => {
            let n = crate::sql::ast::path_text(name);
            lemma_bare(a.catalog, db, table, n, table);
            lemma_database_keeps_twins(a, b, db, table, n);
        },
        _ => {},
    }
}

/// Twins stay twins when both run a command that changes rows, reads, or creates or
/// drops what is not about the table.
pub proof fn command_keeps_twins(
    a: ExecV,
    b: ExecV,
    db: Seq<char>,
    table: Seq<char>,
    c: CommandV,
)
    requires
        twins(a, b, db, table),
        concerns(a, c, db, table),
        executor::can_run(a, c.db, c.statement, c.now),
    ensures
        executor::can_run(b, c.db, c.statement, c.now),
        twins(durability::after_command(a, c), durability::after_command(b, c), db, table),
{
    match changed_table(c.statement) {
        Some(u) => {
            lemma_still_numbered(a, c.db, c.statement, c.now);
            if same_place(c.db, u, db, table) {
                lemma_same_place(a, b, db, table, c.db, u);
                lemma_own_table_keeps_twins(a, b, c.db, u, c.statement, c.now);
                lemma_same_place(
                    durability::after_command(a, c),
                    durability::after_command(b, c),
                    c.db,
                    u,
                    db,
                    table,
                );
            } else {
                lemma_other_table_keeps_twins(a, b, db, table, c, u);
            }
        },
        None => {
            if c.statement is CreateTable {
                lemma_create_table_keeps_twins(a, b, db, table, c);
            } else if c.statement is Drop || c.statement is CreateIndex
                || c.statement is CreateDatabase {
                lemma_definition_keeps_twins(a, b, db, table, c);
            }
        },
    }
}

// ---------------------------------------------------------------------------
// Indexes on the table
// ---------------------------------------------------------------------------

proof fn lemma_create_own_index(
    a: ExecV,
    b: ExecV,
    db: Seq<char>,
    table: Seq<char>,
    spec: IndexSpec,
)
    requires
        twins(a, b, db, table),
        executor::create_index_outcome(a, db, table, spec).result is Ok,
        forall|i: int|
            0 <= i < catalog::indexes_of(a.catalog, db, table).len() ==> catalog::normal(
                (#[trigger] catalog::indexes_of(a.catalog, db, table)[i]).name,
            ) != catalog::normal(executor::index_definition(table, spec).name),
    ensures
        twins(executor::create_index_outcome(a, db, table, spec).state, b, db, table),
{
    let y = executor::create_index_outcome(a, db, table, spec).state;
    let def = executor::index_definition(table, spec);
    let list = catalog::indexes_of(a.catalog, db, table);
    let key = catalog::normal(table);
    assert(durability::stored(a.storage, key) == storage::rows_of(a.storage, table));
    assert(durability::table_numbered(
        durability::stored(a.storage, key),
        durability::number_behind(a.storage, key),
    ));
    upkeep::created_index_holds_rows(a, db, table, spec);
    let defs = catalog::indexes_of(y.catalog, db, table);
    assert(defs == list.push(def));
    lemma_bare_again(a.catalog, y.catalog, db, table, defs);
    lemma_same_tables_numbered(a, y);
    let columns = (catalog::table_of(y.catalog, db, table)->Ok_0).columns;
    assert(mirror::distinct_names(table, list));
    assert forall|i: int| 0 <= i < list.len() implies query::index_key(
        table,
        (#[trigger] list[i]).name,
    ) != query::index_key(table, def.name) by {
        lemma_keys_differ(table, list[i].name, def.name);
    }
    assert forall|i: int, j: int| 0 <= i < j < defs.len() implies query::index_key(
        table,
        (#[trigger] defs[i]).name,
    ) != query::index_key(table, (#[trigger] defs[j]).name) by {
        assert(list[i] == defs[i]);
        if j < list.len() {
            assert(list[j] == defs[j]);
        }
    }
    assert forall|i: int| 0 <= i < defs.len() implies ({
        let name = query::index_key(table, (#[trigger] defs[i]).name);
        y.storage.index_data.contains_key(name) && mirror::mirrors(
            y.storage.index_data[name],
            storage::rows_of(y.storage, table).to_set(),
            defs[i],
            columns,
        )
    }) by {
        if i < list.len() {
            assert(list[i] == defs[i]);
        }
    }
}

proof fn lemma_keys_differ(table: Seq<char>, m: Seq<char>, n: Seq<char>)
    requires
        catalog::normal(m) != catalog::normal(n),
    ensures
        query::index_key(table, m) != query::index_key(table, n),
{
    let p = catalog::normal(table) + ":"@;
    assert(query::index_key(table, m).skip(p.len() as int) =~= catalog::normal(m));
    assert(query::index_key(table, n).skip(p.len() as int) =~= catalog::normal(n));
}

/// Another list of indexes on the table leaves the catalog without them.
proof fn lemma_bare_again(
    c: CatalogV,
    made: CatalogV,
    db: Seq<char>,
    table: Seq<char>,
    defs: Seq<IndexDefV>,
)
    requires
        catalog::has_database(c, db),
        catalog::database(c, db).indexes.contains_key(catalog::normal(table)),
        ({
            let d = catalog::database(c, db);
            made == catalog::with_database(
                c,
                db,
                DatabaseV { indexes: d.indexes.insert(catalog::normal(table), defs), ..d },
            )
        }),
    ensures
        bare(made, db, table) == bare(c, db, table),
{
    let d = catalog::database(c, db);
    let key = catalog::normal(table);
    assert(d.indexes.insert(key, defs).insert(key, Seq::empty()) =~= d.indexes.insert(
        key,
        Seq::empty(),
    ));
    assert(bare(made, db, table).databases =~= bare(c, db, table).databases);
}

proof fn lemma_drop_own_index(
    a: ExecV,
    b: ExecV,
    db: Seq<char>,
    table: Seq<char>,
    d: Seq<char>,
    name: Seq<char>,
    u: Seq<char>,
    i: int,
)
    requires
        twins(a, b, db, table),
        same_place(d, u, db, table),
        catalog::index_place(catalog::indexes_of(a.catalog, db, table), name) == Some(i),
        catalog::normal(catalog::indexes_of(a.catalog, db, table)[i].name) == catalog::normal(
            name,
        ),
        catalog::index_dropped(a.catalog, d, name, u) is Ok,
    ensures
        ({
            let y = ExecV {
                catalog: (catalog::index_dropped(a.catalog, d, name, u)->Ok_0).0,
                storage: wal::without_index(a.storage, u, name),
                ..a
            };
            twins(y, b, db, table)
        }),
{
    let y = ExecV {
        catalog: (catalog::index_dropped(a.catalog, d, name, u)->Ok_0).0,
        storage: wal::without_index(a.storage, u, name),
        ..a
    };
    let list = catalog::indexes_of(a.catalog, db, table);
    model::lemma_first(list, catalog::is_named(name));
    let defs = catalog::indexes_of(y.catalog, db, table);
    assert(defs == list.remove(i));
    lemma_bare_again(a.catalog, y.catalog, db, table, defs);
    lemma_same_tables_numbered(a, y);
    if let Ok(t) = catalog::table_of(y.catalog, db, table) {
        assert forall|j: int, k: int| 0 <= j < k < defs.len() implies query::index_key(
            table,
            (#[trigger] defs[j]).name,
        ) != query::index_key(table, (#[trigger] defs[k]).name) by {
            assert(defs[j] == list[if j < i { j } else { j + 1 }]);
            assert(defs[k] == list[if k < i { k } else { k + 1 }]);
        }
        assert forall|j: int| 0 <= j < defs.len() implies ({
            let key = query::index_key(table, (#[trigger] defs[j]).name);
            y.storage.index_data.contains_key(key) && mirror::mirrors(
                y.storage.index_data[key],
                storage::rows_of(y.storage, table).to_set(),
                defs[j],
                t.columns,
            )
        }) by {
            let k = if j < i { j } else { j + 1 };
            assert(defs[j] == list[k]);
            let (p, q) = if k < i { (k, i) } else { (i, k) };
            assert(query::index_key(table, list[p].name) != query::index_key(table, list[q].name));
            assert(query::index_key(u, name) == query::index_key(table, list[i].name));
        }
    }
}

proof fn lemma_drop_own_index_step(
    a: ExecV,
    b: ExecV,
    db: Seq<char>,
    table: Seq<char>,
    d: Seq<char>,
    name: Seq<char>,
    if_exists: bool,
    u: Seq<char>,
)
    requires
        twins(a, b, db, table),
        executor::index_owner(a.catalog, d, name) == Some(u),
        same_place(d, u, db, table),
        ({
            let list = catalog::indexes_of(a.catalog, db, table);
            ||| executor::drop_index_outcome(a, d, name, if_exists).state.catalog == a.catalog
            ||| catalog::index_place(list, name) matches Some(i) && catalog::normal(list[i].name)
                == catalog::normal(name)
        }),
    ensures
        twins(executor::drop_index_outcome(a, d, name, if_exists).state, b, db, table),
{
    let y = executor::drop_index_outcome(a, d, name, if_exists).state;
    let list = catalog::indexes_of(a.catalog, db, table);
    assert(catalog::indexes_of(a.catalog, d, u) == list);
    if let Ok((left, def)) = catalog::index_dropped(a.catalog, d, name, u) {
        let i = catalog::index_place(list, name)->Some_0;
        model::lemma_first(list, catalog::is_named(name));
        if left == a.catalog {
            assert(catalog::indexes_of(left, d, u) == list.remove(i));
            assert(list.remove(i).len() != list.len());
        }
        lemma_drop_own_index(a, b, db, table, d, name, u, i);
    }
}

/// An executor stays the twin of one without indexes on the table when it alone creates
/// or drops one.
pub proof fn index_command_keeps_twins(
    a: ExecV,
    b: ExecV,
    db: Seq<char>,
    table: Seq<char>,
    c: CommandV,
)
    requires
        twins(a, b, db, table),
        is_index_command(a, c, db, table),
        keeps_indexes(a, c, db, table),
    ensures
        twins(durability::after_command(a, c), b, db, table),
{
    let y = durability::after_command(a, c);
    match c.statement {
        SqlStatement::CreateIndex(spec) => {
            let u = crate::sql::ast::path_text(spec.table);
            if y.catalog != a.catalog {
                lemma_same_place(a, b, db, table, c.db, u);
                lemma_create_own_index(a, b, c.db, u, spec);
                lemma_same_place(y, b, c.db, u, db, table);
            } else {
                lemma_refused_index(a, c.db, u, spec);
            }
        },
        SqlStatement::Drop { kind, names, if_exists } => {
            let name = executor::first_name(names@);
            let u = executor::index_owner(a.catalog, c.db, name)->Some_0;
            lemma_drop_own_index_step(a, b, db, table, c.db, name, if_exists, u);
        },
        _ => {},
    }
}

/// Where no index is created nothing else changes.
proof fn lemma_refused_index(a: ExecV, db: Seq<char>, table: Seq<char>, spec: IndexSpec)
    requires
        executor::create_index_outcome(a, db, table, spec).state.catalog == a.catalog,
    ensures
        executor::create_index_outcome(a, db, table, spec).state == a,
{
    let def = executor::index_definition(table, spec);
    if def.columns.len() > 0 {
        if let Ok(made) = catalog::index_created(a.catalog, db, def) {
            let list = catalog::indexes_of(a.catalog, db, table);
            assert(catalog::indexes_of(made, db, table) == list.push(def));
        }
    }
}

/// The commands can be run one after the other, those on indexes of the table by one
/// executor alone.
pub open spec fn all_concern(
    x: ExecV,
    db: Seq<char>,
    table: Seq<char>,
    commands: Seq<CommandV>,
) -> bool
    decreases commands.len(),
{
    if commands.len() == 0 {
        true
    } else {
        let c = commands[0];
        &&& executor::can_run(x, c.db, c.statement, c.now)
        &&& if is_index_command(x, c, db, table) {
            keeps_indexes(x, c, db, table)
        } else {
            concerns(x, c, db, table)
        }
        &&& all_concern(durability::after_command(x, c), db, table, commands.drop_first())
    }
}

/// The commands without those that create or drop an index on the table.
pub open spec fn without_index_commands(
    x: ExecV,
    db: Seq<char>,
    table: Seq<char>,
    commands: Seq<CommandV>,
) -> Seq<CommandV>
    decreases commands.len(),
{
    if commands.len() == 0 {
        Seq::empty()
    } else {
        let c = commands[0];
        let rest = without_index_commands(
            durability::after_command(x, c),
            db,
            table,
            commands.drop_first(),
        );
        if is_index_command(x, c, db, table) {
            rest
        } else {
            seq![c] + rest
        }
    }
}

/// Twins stay twins when the first runs the commands and the second runs them without
/// those that create or drop an index on the table.
pub proof fn commands_keep_twins(
    a: ExecV,
    b: ExecV,
    db: Seq<char>,
    table: Seq<char>,
    commands: Seq<CommandV>,
)
    requires
        twins(a, b, db, table),
        all_concern(a, db, table, commands),
    ensures
        twins(
            durability::ran(a, commands),
            durability::ran(b, without_index_commands(a, db, table, commands)),
            db,
            table,
        ),
    decreases commands.len(),
{
    if commands.len() > 0 {
        let c = commands[0];
        let y = durability::after_command(a, c);
        let rest = without_index_commands(y, db, table, commands.drop_first());
        if is_index_command(a, c, db, table) {
            index_command_keeps_twins(a, b, db, table, c);
            commands_keep_twins(y, b, db, table, commands.drop_first());
        } else {
            command_keeps_twins(a, b, db, table, c);
            commands_keep_twins(
                y,
                durability::after_command(b, c),
                db,
                table,
                commands.drop_first(),
            );
            assert((seq![c] + rest).drop_first() =~= rest);
        }
    }
}

/// An executor without the indexes on a table.
pub open spec fn without_indexes(x: ExecV, db: Seq<char>, table: Seq<char>) -> ExecV {
    ExecV { catalog: bare(x.catalog, db, table), ..x }
}

/// The answer to a query is the same columns and the same rows, each as often.
pub open spec fn same_answer(a: ExecV, b: ExecV, db: Seq<char>, query: SelectQuery) -> bool {
    executor::query_outcome(a, db, query).result matches Ok(
        executor::ResultV::Rows { columns, list },
    ) && executor::query_outcome(b, db, query).result matches Ok(
        executor::ResultV::Rows { columns: other_columns, list: other_list },
    ) && columns == other_columns && list.to_multiset() == other_list.to_multiset()
}

/// The answer to a query holds the stored rows of a table that have a value in a
/// column, each as often.
pub open spec fn answers_equal_rows(
    x: ExecV,
    db: Seq<char>,
    table: Seq<char>,
    query: SelectQuery,
    column: Seq<char>,
    v: Val,
) -> bool {
    executor::query_outcome(x, db, query).result matches Ok(
        executor::ResultV::Rows { columns, list },
    ) && (catalog::table_of(x.catalog, db, table) matches Ok(t) && list.to_multiset()
        == query::result_rows(
        query.body->Select_projection@,
        t.columns,
        laws::equal_rows(storage::rows_of(x.storage, table), t.columns, column, v),
    ).to_multiset())
}

/// An executor starts with rows and indexes of a table in step, and can run commands.
pub open spec fn ready(
    x: ExecV,
    db: Seq<char>,
    table: Seq<char>,
    commands: Seq<CommandV>,
) -> bool {
    &&& durability::numbered(x.storage)
    &&& listed(x.catalog, db, table)
    &&& catalog::table_of(x.catalog, db, table) matches Ok(t) ==> upkeep::in_step(
        x.catalog,
        x.storage,
        db,
        table,
        t.columns,
    )
    &&& all_concern(x, db, table, commands)
}

/// A query asks for the rows of a table that have an integer or a text in a column, of
/// which the others are NULL or of the same kind.
pub open spec fn asks(
    x: ExecV,
    db: Seq<char>,
    table: Seq<char>,
    query: SelectQuery,
    column: Seq<char>,
    v: Val,
) -> bool {
    &&& query.body matches QueryBody::Select { projection, from, selection } && from@.len() > 0
        && crate::sql::ast::table_text(from@[0]) == table && (selection matches Some(e)
        && laws::is_equality(x.numbers, e, column, v))
    &&& query.offset is None
    &&& query.limit is None
    &&& catalog::table_of(x.catalog, db, table) matches Ok(t) && laws::folds(t.columns) && forall|
        row: RowV,
    |
        storage::rows_of(x.storage, table).contains(row) ==> laws::null_or_like(
            #[trigger] eval::column_value(t.columns, row.values, column),
            v,
        )
}

/// Such a query gives twins the same answer: the rows that it asks for.
pub proof fn twins_answer_alike(
    a: ExecV,
    b: ExecV,
    db: Seq<char>,
    table: Seq<char>,
    query: SelectQuery,
    column: Seq<char>,
    v: Val,
)
    requires
        twins(a, b, db, table),
        asks(a, db, table, query, column, v),
    ensures
        same_answer(a, b, db, query),
        answers_equal_rows(a, db, table, query, column, v),
{
    let key = catalog::normal(table);
    assert(durability::stored(a.storage, key) == storage::rows_of(a.storage, table));
    assert(durability::table_numbered(
        durability::stored(a.storage, key),
        durability::number_behind(a.storage, key),
    ));
    let columns = (catalog::table_of(a.catalog, db, table)->Ok_0).columns;
    let e = (query.body->Select_selection)->Some_0;
    lemma_bare(a.catalog, db, table, db, table);
    laws::index_does_not_change_the_answer(
        a.catalog,
        a.storage,
        b.catalog,
        b.storage,
        a.numbers,
        db,
        query,
        table,
        columns,
        e,
        column,
        v,
    );
}

/// Indexes on a table do not change the answer to such a query. An executor gives the
/// one that it gives where it has no index on the table and runs its commands without
/// those that create or drop one. The commands change rows, read, or create or drop
/// tables, databases and indexes.
pub proof fn indexes_do_not_change_answers(
    x: ExecV,
    db: Seq<char>,
    table: Seq<char>,
    commands: Seq<CommandV>,
    query: SelectQuery,
    column: Seq<char>,
    v: Val,
)
    requires
        ready(x, db, table, commands),
        asks(durability::ran(x, commands), db, table, query, column, v),
    ensures
        same_answer(
            durability::ran(x, commands),
            durability::ran(
                without_indexes(x, db, table),
                without_index_commands(x, db, table, commands),
            ),
            db,
            query,
        ),
        answers_equal_rows(durability::ran(x, commands), db, table, query, column, v),
{
    let b = without_indexes(x, db, table);
    commands_keep_twins(x, b, db, table, commands);
    twins_answer_alike(
        durability::ran(x, commands),
        durability::ran(b, without_index_commands(x, db, table, commands)),
        db,
        table,
        query,
        column,
        v,
    );
}

/// Two executors that ran the same commands, but for those that create or drop an index
/// on a table, give the same answer to such a query: the rows that it asks for.
pub proof fn index_commands_do_not_change_answers(
    x: ExecV,
    db: Seq<char>,
    table: Seq<char>,
    commands: Seq<CommandV>,
    others: Seq<CommandV>,
    query: SelectQuery,
    column: Seq<char>,
    v: Val,
)
    requires
        ready(x, db, table, commands),
        ready(x, db, table, others),
        without_index_commands(x, db, table, commands) == without_index_commands(
            x,
            db,
            table,
            others,
        ),
        asks(durability::ran(x, commands), db, table, query, column, v),
    ensures
        same_answer(durability::ran(x, commands), durability::ran(x, others), db, query),
        answers_equal_rows(durability::ran(x, commands), db, table, query, column, v),
{
    let b = without_indexes(x, db, table);
    commands_keep_twins(x, b, db, table, commands);
    commands_keep_twins(x, b, db, table, others);
    let y = durability::ran(x, commands);
    let z = durability::ran(x, others);
    let plain = durability::ran(b, without_index_commands(x, db, table, commands));
    lemma_bare(y.catalog, db, table, db, table);
    lemma_bare(z.catalog, db, table, db, table);
    twins_answer_alike(y, plain, db, table, query, column, v);
    twins_answer_alike(z, plain, db, table, query, column, v);
}

} // verus!
