//! What a restart gives back: the log repeats what statements did to the data.

use vstd::prelude::*;

use crate::engine::catalog;
use crate::engine::catalog::{Catalog, CatalogV};
use crate::engine::change;
use crate::engine::codec;
use crate::engine::codec::Coded;
use crate::engine::executor;
use crate::engine::executor::ExecV;
use crate::engine::insert;
use crate::engine::query;
use crate::engine::recovery;
use crate::engine::schema;
use crate::engine::storage;
use crate::engine::storage::{Filling, RowV, StorageV};
use crate::engine::types::{ColumnV, NumbersV, Val};
use crate::engine::wal;
use crate::engine::wal::{EntryV, ReplayV};
use crate::model;
use crate::names;
use crate::sql::ast::{DropKind, Expression, QueryBody, SelectQuery, SqlStatement};

verus! {

broadcast use crate::model::group_views;

// ---------------------------------------------------------------------------
// Row numbers
// ---------------------------------------------------------------------------

/// Rows are in the order of their numbers, which lie between zero and the next
/// number.
pub open spec fn table_numbered(rows: Seq<RowV>, next: nat) -> bool {
    &&& storage::sorted(rows)
    &&& next >= 1
    &&& forall|i: int| 0 <= i < rows.len() ==> 0 < (#[trigger] rows[i]).id < next
}

/// The next row number of a stored table.
pub open spec fn number_behind(s: StorageV, t: Seq<char>) -> nat {
    if s.next_ids.contains_key(t) {
        s.next_ids[t] as nat
    } else {
        1
    }
}

/// The rows that are stored under a name.
pub open spec fn stored(s: StorageV, t: Seq<char>) -> Seq<RowV> {
    if s.tables.contains_key(t) {
        s.tables[t]
    } else {
        Seq::empty()
    }
}

/// The rows of every table are in the order of their numbers, and the next number
/// of a table is above all of them.
pub open spec fn numbered(s: StorageV) -> bool {
    forall|t: Seq<char>| table_numbered(#[trigger] stored(s, t), number_behind(s, t))
}

/// The values of rows.
pub open spec fn values_of(rows: Seq<RowV>) -> Seq<Seq<Val>> {
    Seq::new(rows.len(), |i: int| rows[i].values)
}

/// Rows without numbers are appended, each with the next number.
pub proof fn rows_without_numbers_are_appended(f: Filling, rows: Seq<RowV>)
    requires
        table_numbered(f.rows, f.next),
        forall|i: int| 0 <= i < rows.len() ==> (#[trigger] rows[i]).id == 0,
        f.next + rows.len() <= u64::MAX,
    ensures
        ({
            let g = storage::filled(f, rows);
            &&& table_numbered(g.rows, g.next)
            &&& g.next == f.next + rows.len()
            &&& g.rows.len() == f.rows.len() + rows.len()
            &&& g.rows.take(f.rows.len() as int) == f.rows
            &&& forall|i: int|
                0 <= i < rows.len() ==> #[trigger] g.rows[f.rows.len() + i] == (RowV {
                    id: (f.next + i) as u64,
                    values: rows[i].values,
                })
            &&& values_of(g.rows) == values_of(f.rows) + values_of(rows)
        }),
    decreases rows.len(),
{
    if rows.len() == 0 {
        assert(f.rows.take(f.rows.len() as int) =~= f.rows);
        assert(values_of(f.rows) + values_of(rows) =~= values_of(f.rows));
    } else {
        let before = rows.drop_last();
        let last = rows.last();
        assert forall|i: int| 0 <= i < before.len() implies (#[trigger] before[i]).id == 0 by {
            assert(before[i] == rows[i]);
        }
        rows_without_numbers_are_appended(f, before);
        let g = storage::filled(f, before);
        assert(rows[rows.len() - 1] == last);
        let id = g.next as u64;
        let row = RowV { id, values: last.values };
        storage::lemma_place_is(g.rows, id, g.rows.len() as int);
        let h = storage::filled(f, rows);
        assert(h.rows =~= g.rows.push(row));
        assert(storage::sorted(h.rows)) by {
            storage::row_operations_keep_order(g.rows, row);
        }
        assert forall|i: int| 0 <= i < h.rows.len() implies 0 < (#[trigger] h.rows[i]).id
            < h.next by {
            if i < g.rows.len() {
                assert(h.rows[i] == g.rows[i]);
            }
        }
        assert(h.rows.take(f.rows.len() as int) =~= g.rows.take(f.rows.len() as int));
        assert forall|i: int| 0 <= i < rows.len() implies #[trigger] h.rows[f.rows.len() + i] == (
        RowV { id: (f.next + i) as u64, values: rows[i].values }) by {
            if i < before.len() {
                assert(h.rows[f.rows.len() + i] == g.rows[f.rows.len() + i]);
                assert(before[i] == rows[i]);
            }
        }
        assert(values_of(h.rows) =~= values_of(f.rows) + values_of(rows)) by {
            assert(values_of(before) =~= values_of(rows).drop_last());
            assert(values_of(h.rows) =~= values_of(g.rows).push(last.values));
        }
    }
}

/// Inserted rows without numbers stand behind all rows of the table, and the other
/// tables stay as they are.
pub proof fn inserted_rows_stand_behind(s: StorageV, table: Seq<char>, rows: Seq<RowV>)
    requires
        numbered(s),
        forall|i: int| 0 <= i < rows.len() ==> (#[trigger] rows[i]).id == 0,
        storage::can_insert(s, table, rows),
    ensures
        ({
            let s2 = storage::rows_inserted(s, table, rows);
            let t = catalog::normal(table);
            &&& numbered(s2)
            &&& values_of(stored(s2, t)) == values_of(stored(s, t)) + values_of(rows)
            &&& forall|u: Seq<char>| u != t ==> #[trigger] stored(s2, u) == stored(s, u)
        }),
{
    let s2 = storage::rows_inserted(s, table, rows);
    let t = catalog::normal(table);
    let f = Filling {
        rows: storage::rows_of(s, table),
        next: storage::next_id(s, table) as nat,
        ids: Seq::empty(),
    };
    assert(f.rows == stored(s, t));
    assert(f.next == number_behind(s, t));
    lemma_needed_numbers(f, rows);
    rows_without_numbers_are_appended(f, rows);
    assert forall|u: Seq<char>| table_numbered(#[trigger] stored(s2, u), number_behind(s2, u)) by {
        assert(table_numbered(stored(s, u), number_behind(s, u)));
    }
}

proof fn lemma_needed_numbers(f: Filling, rows: Seq<RowV>)
    requires
        forall|i: int| 0 <= i < rows.len() ==> (#[trigger] rows[i]).id == 0,
    ensures
        storage::filled(f, rows).next == f.next + rows.len(),
    decreases rows.len(),
{
    if rows.len() > 0 {
        let before = rows.drop_last();
        assert forall|i: int| 0 <= i < before.len() implies (#[trigger] before[i]).id == 0 by {
            assert(before[i] == rows[i]);
        }
        lemma_needed_numbers(f, before);
        assert(rows[rows.len() - 1] == rows.last());
    }
}

/// The rows that an insertion completes have no numbers yet.
pub proof fn completed_rows_have_no_numbers(
    rows: Seq<RowV>,
    columns: Seq<ColumnV>,
    start: u64,
    now: u64,
)
    requires
        forall|i: int| 0 <= i < rows.len() ==> (#[trigger] rows[i]).id == 0,
    ensures
        insert::rows_completed(rows, columns, start, now).rows.len() == rows.len(),
        forall|i: int|
            0 <= i < rows.len() ==> (#[trigger] insert::rows_completed(
                rows,
                columns,
                start,
                now,
            ).rows[i]).id == 0,
    decreases rows.len(),
{
    if rows.len() > 0 {
        let before = rows.drop_last();
        assert forall|i: int| 0 <= i < before.len() implies (#[trigger] before[i]).id == 0 by {
            assert(before[i] == rows[i]);
        }
        completed_rows_have_no_numbers(before, columns, start, now);
        assert(rows[rows.len() - 1] == rows.last());
    }
}

proof fn lemma_read_without_numbers(
    n: NumbersV,
    values: Seq<Vec<Expression>>,
    names: Seq<Seq<char>>,
    columns: Seq<ColumnV>,
)
    ensures
        insert::rows_of_values(n, values, names, columns) matches Ok(rows) ==> forall|i: int|
            0 <= i < rows.len() ==> (#[trigger] rows[i]).id == 0,
    decreases values.len(),
{
    if values.len() > 0 {
        lemma_read_without_numbers(n, values.drop_last(), names, columns);
    }
}

/// The rows that an `INSERT` writes have no numbers yet.
pub proof fn read_rows_have_no_numbers(
    n: NumbersV,
    source: Option<SelectQuery>,
    names: Seq<Seq<char>>,
    columns: Seq<ColumnV>,
)
    ensures
        insert::source_rows(n, source, names, columns) matches Ok(rows) ==> forall|i: int|
            0 <= i < rows.len() ==> (#[trigger] rows[i]).id == 0,
{
    if let Some(query) = source {
        if let QueryBody::Values(values) = query.body {
            lemma_read_without_numbers(n, values@, names, columns);
        }
    }
}

// ---------------------------------------------------------------------------
// The same data
// ---------------------------------------------------------------------------

/// Two states hold the same data: the same databases with their tables and indexes,
/// and in every table rows of the same values in the same order. Row numbers, and
/// what the indexes hold, may differ.
pub open spec fn same_data(c: CatalogV, s: StorageV, c2: CatalogV, s2: StorageV) -> bool {
    &&& c.databases == c2.databases
    &&& numbered(s)
    &&& numbered(s2)
    &&& forall|t: Seq<char>| values_of(#[trigger] stored(s, t)) == values_of(stored(s2, t))
}

/// The entry that a statement puts into the log, if it puts one there.
pub open spec fn logged_entry(
    x: ExecV,
    db: Seq<char>,
    statement: SqlStatement,
    now: u64,
) -> Option<EntryV> {
    match statement {
        SqlStatement::CreateTable { name, if_not_exists, specs } => {
            let table = crate::sql::ast::path_text(name);
            if if_not_exists && catalog::has_table(x.catalog, db, table) {
                None
            } else {
                Some(
                    EntryV::CreateTable {
                        table_name: table,
                        columns: schema::defined_columns(x.numbers, table, specs@),
                    },
                )
            }
        },
        SqlStatement::Insert { table, columns, source } => {
            let name = crate::sql::ast::table_text(table);
            match catalog::table_of(x.catalog, db, name) {
                Err(_) => None,
                Ok(t) => match insert::source_rows(
                    x.numbers,
                    source,
                    model::views(columns@),
                    t.columns,
                ) {
                    Err(_) => None,
                    Ok(rows) => Some(
                        EntryV::InsertRows {
                            table_name: name,
                            rows: executor::insertion_of(x, name, t.columns, rows, now).rows,
                        },
                    ),
                },
            }
        },
        SqlStatement::Delete { tables, from, selection } => {
            let name = executor::deleted_table(tables@, from@);
            match catalog::table_of(x.catalog, db, name) {
                Err(_) => None,
                Ok(t) => {
                    let rows = storage::rows_of(x.storage, name);
                    if query::selected(rows, selection, t.columns, x.numbers).len() == 0 {
                        None
                    } else {
                        Some(
                            EntryV::TableSnapshot {
                                table_name: name,
                                rows: change::unselected(rows, selection, t.columns, x.numbers),
                            },
                        )
                    }
                },
            }
        },
        SqlStatement::Update { table, assignments, selection } => {
            let name = crate::sql::ast::table_text(table);
            match catalog::table_of(x.catalog, db, name) {
                Err(_) => None,
                Ok(t) => match change::assigned(x.numbers, assignments@, t.columns) {
                    Err(_) => None,
                    Ok(pairs) => {
                        let rows = storage::rows_of(x.storage, name);
                        if query::selected(rows, selection, t.columns, x.numbers).len() == 0 {
                            None
                        } else {
                            Some(
                                EntryV::TableSnapshot {
                                    table_name: name,
                                    rows: change::selected_assigned(
                                        rows,
                                        pairs,
                                        selection,
                                        t.columns,
                                        x.numbers,
                                    ),
                                },
                            )
                        }
                    },
                },
            }
        },
        SqlStatement::Drop { kind, names, if_exists } => {
            let name = executor::first_name(names@);
            match kind {
                DropKind::Table => if if_exists && !catalog::has_table(x.catalog, db, name) {
                    None
                } else {
                    Some(EntryV::DropTable { table_name: catalog::normal(name) })
                },
                DropKind::Index => match executor::index_owner(x.catalog, db, name) {
                    None => None,
                    Some(table) => if if_exists && catalog::index_place(
                        catalog::indexes_of(x.catalog, db, table),
                        name,
                    ) is None {
                        None
                    } else if catalog::index_dropped(x.catalog, db, name, table) is Err {
                        None
                    } else {
                        Some(
                            EntryV::DropIndex { db_name: db, index_name: name, table_name: table },
                        )
                    },
                },
                _ => None,
            }
        },
        SqlStatement::CreateIndex(spec) => {
            let table = crate::sql::ast::path_text(spec.table);
            let def = executor::index_definition(table, spec);
            if !catalog::has_table(x.catalog, db, table) || def.columns.len() == 0
                || catalog::index_created(x.catalog, db, def) is Err {
                None
            } else {
                Some(EntryV::CreateIndex { db_name: db, index_def: def })
            }
        },
        _ => None,
    }
}

/// The state after an optional entry.
pub open spec fn followed(c: CatalogV, s: StorageV, e: Option<EntryV>) -> (CatalogV, StorageV) {
    match e {
        None => (c, s),
        Some(entry) => match wal::applied(c, s, entry) {
            Some(t) => t,
            None => (c, s),
        },
    }
}

/// The row numbers that an entry needs can be had in another state.
pub open spec fn has_numbers_for(s: StorageV, e: Option<EntryV>) -> bool {
    match e {
        Some(EntryV::InsertRows { table_name, rows }) => storage::can_insert(s, table_name, rows),
        _ => true,
    }
}

proof fn lemma_same_after_insert(
    x: ExecV,
    c2: CatalogV,
    s2: StorageV,
    db: Seq<char>,
    table: Seq<char>,
    columns: Seq<ColumnV>,
    rows: Seq<RowV>,
    now: u64,
)
    requires
        same_data(x.catalog, x.storage, c2, s2),
        executor::can_take_rows(x, table, columns, rows, now),
        forall|i: int| 0 <= i < rows.len() ==> (#[trigger] rows[i]).id == 0,
        storage::can_insert(
            s2,
            table,
            executor::insertion_of(x, table, columns, rows, now).rows,
        ),
    ensures
        ({
            let y = executor::inserted_outcome(x, db, table, columns, rows, now).state;
            let full = executor::insertion_of(x, table, columns, rows, now).rows;
            &&& same_data(y.catalog, y.storage, c2, storage::rows_inserted(s2, table, full))
            &&& y.wal == wal::logged(x.wal, EntryV::InsertRows { table_name: table, rows: full })
            &&& y.numbers == x.numbers
        }),
{
    let y = executor::inserted_outcome(x, db, table, columns, rows, now).state;
    let full = executor::insertion_of(x, table, columns, rows, now).rows;
    completed_rows_have_no_numbers(
        rows,
        columns,
        catalog::next_number(x.catalog, table),
        now,
    );
    inserted_rows_stand_behind(x.storage, table, full);
    inserted_rows_stand_behind(s2, table, full);
    let s = storage::rows_inserted(x.storage, table, full);
    let t2 = storage::rows_inserted(s2, table, full);
    assert(y.storage.tables == s.tables && y.storage.next_ids == s.next_ids);
    assert forall|t: Seq<char>| table_numbered(
        #[trigger] stored(y.storage, t),
        number_behind(y.storage, t),
    ) by {
        assert(stored(y.storage, t) == stored(s, t));
    }
    assert forall|t: Seq<char>| values_of(#[trigger] stored(y.storage, t)) == values_of(
        stored(t2, t),
    ) by {
        assert(stored(y.storage, t) == stored(s, t));
        assert(values_of(stored(x.storage, t)) == values_of(stored(s2, t)));
    }
}

/// The rows of a table changed in place: in order, with numbers that were there.
proof fn lemma_same_after_change(
    x: ExecV,
    c2: CatalogV,
    s2: StorageV,
    table: Seq<char>,
    rows: Seq<RowV>,
    data: Map<Seq<char>, crate::engine::index::IndexV>,
    count: nat,
)
    requires
        same_data(x.catalog, x.storage, c2, s2),
        table_numbered(rows, number_behind(x.storage, catalog::normal(table))),
        count == 0 ==> rows == storage::rows_of(x.storage, table),
    ensures
        ({
            let y = executor::table_changed(x, table, rows, data, count).state;
            let e = if count == 0 {
                None
            } else {
                Some(EntryV::TableSnapshot { table_name: table, rows })
            };
            let (c3, s3) = followed(c2, s2, e);
            &&& same_data(y.catalog, y.storage, c3, s3)
            &&& y.numbers == x.numbers
            &&& y.wal == (match e {
                Some(entry) => wal::logged(x.wal, entry),
                None => x.wal,
            })
        }),
{
    let y = executor::table_changed(x, table, rows, data, count).state;
    let t = catalog::normal(table);
    assert forall|u: Seq<char>| table_numbered(
        #[trigger] stored(y.storage, u),
        number_behind(y.storage, u),
    ) by {
        assert(table_numbered(stored(x.storage, u), number_behind(x.storage, u)));
    }
    if count == 0 {
        assert forall|u: Seq<char>| values_of(#[trigger] stored(y.storage, u)) == values_of(
            stored(s2, u),
        ) by {
            assert(values_of(stored(x.storage, u)) == values_of(stored(s2, u)));
            assert(stored(y.storage, u) == stored(x.storage, u));
        }
    } else {
        let cleared = storage::table_cleared(s2, table);
        let entry = EntryV::TableSnapshot { table_name: table, rows };
        if rows.len() > 0 {
            wal::ordered_rows_fill_a_table(rows);
            assert(storage::rows_of(cleared, table) == Seq::<RowV>::empty());
            assert(storage::insertion(cleared, table, rows) == wal::fresh_filling(rows));
            assert(rows[rows.len() - 1] == rows.last());
        }
        let (c3, s3) = followed(c2, s2, Some(entry));
        assert(stored(s3, t) == rows);
        assert forall|u: Seq<char>| table_numbered(#[trigger] stored(s3, u), number_behind(s3, u)) by {
            if u == t {
                if rows.len() > 0 {
                    assert forall|i: int| 0 <= i < rows.len() implies 0 < (#[trigger] rows[i]).id
                        < number_behind(s3, t) by {
                        assert(i < rows.len() - 1 ==> rows[i].id < rows[rows.len() - 1].id);
                    }
                }
            } else {
                assert(table_numbered(stored(s2, u), number_behind(s2, u)));
                assert(stored(s3, u) == stored(s2, u));
            }
        }
        assert forall|u: Seq<char>| values_of(#[trigger] stored(y.storage, u)) == values_of(
            stored(s3, u),
        ) by {
            if u != t {
                assert(values_of(stored(x.storage, u)) == values_of(stored(s2, u)));
                assert(stored(s3, u) == stored(s2, u));
            }
        }
    }
}

proof fn lemma_nothing_selected(
    rows: Seq<RowV>,
    selection: Option<Expression>,
    columns: Seq<ColumnV>,
    n: NumbersV,
    pairs: Seq<(int, change::NewV)>,
)
    requires
        query::selected(rows, selection, columns, n).len() == 0,
    ensures
        change::unselected(rows, selection, columns, n) == rows,
        change::selected_assigned(rows, pairs, selection, columns, n) == rows,
    decreases rows.len(),
{
    if rows.len() > 0 {
        let before = rows.drop_last();
        lemma_nothing_selected(before, selection, columns, n, pairs);
        assert(before.push(rows.last()) =~= rows);
        let all = change::selected_assigned(rows, pairs, selection, columns, n);
        assert forall|i: int| 0 <= i < rows.len() implies all[i] == rows[i] by {
            if i < before.len() {
                assert(change::selected_assigned(before, pairs, selection, columns, n)[i]
                    == before[i]);
            }
        }
        assert(all =~= rows);
    } else {
        assert(change::selected_assigned(rows, pairs, selection, columns, n) =~= rows);
    }
}

proof fn lemma_kept_numbered(
    rows: Seq<RowV>,
    next: nat,
    selection: Option<Expression>,
    columns: Seq<ColumnV>,
    n: NumbersV,
)
    requires
        table_numbered(rows, next),
    ensures
        table_numbered(change::unselected(rows, selection, columns, n), next),
        forall|i: int|
            0 <= i < change::unselected(rows, selection, columns, n).len() && rows.len() > 0
                ==> (#[trigger] change::unselected(rows, selection, columns, n)[i]).id
                <= rows.last().id,
    decreases rows.len(),
{
    if rows.len() > 0 {
        let before = rows.drop_last();
        assert forall|i: int| 0 <= i < before.len() implies 0 < (#[trigger] before[i]).id < next by {
            assert(before[i] == rows[i]);
        }
        assert(storage::sorted(before)) by {
            assert forall|i: int, j: int| 0 <= i < j < before.len() implies (#[trigger] before[i]).id
                < (#[trigger] before[j]).id by {
                assert(rows[i].id < rows[j].id);
            }
        }
        lemma_kept_numbered(before, next, selection, columns, n);
        let kept = change::unselected(before, selection, columns, n);
        assert(rows[rows.len() - 1] == rows.last());
        assert forall|i: int| 0 <= i < kept.len() implies (#[trigger] kept[i]).id
            < rows.last().id by {
            assert(before.len() > 0) by {
                if before.len() == 0 {
                    assert(kept.len() == 0);
                }
            }
            assert(before.last() == rows[rows.len() - 2]);
            assert(rows[rows.len() - 2].id < rows[rows.len() - 1].id);
        }
    }
}

proof fn lemma_changed_numbered(
    rows: Seq<RowV>,
    next: nat,
    pairs: Seq<(int, change::NewV)>,
    selection: Option<Expression>,
    columns: Seq<ColumnV>,
    n: NumbersV,
)
    requires
        table_numbered(rows, next),
    ensures
        table_numbered(change::selected_assigned(rows, pairs, selection, columns, n), next),
{
    let all = change::selected_assigned(rows, pairs, selection, columns, n);
    assert forall|i: int| 0 <= i < all.len() implies 0 < (#[trigger] all[i]).id < next by {
        assert(all[i].id == rows[i].id);
    }
    assert forall|i: int, j: int| 0 <= i < j < all.len() implies (#[trigger] all[i]).id < (
    #[trigger] all[j]).id by {
        assert(rows[i].id < rows[j].id);
    }
}

proof fn lemma_same_after_dml(
    x: ExecV,
    c2: CatalogV,
    s2: StorageV,
    db: Seq<char>,
    statement: SqlStatement,
    now: u64,
)
    requires
        same_data(x.catalog, x.storage, c2, s2),
        executor::can_run(x, db, statement, now),
        has_numbers_for(s2, logged_entry(x, db, statement, now)),
        statement is Insert || statement is Delete || statement is Update,
    ensures
        ({
            let y = executor::statement_outcome(x, db, statement, now).state;
            let e = logged_entry(x, db, statement, now);
            let (c3, s3) = followed(c2, s2, e);
            &&& same_data(y.catalog, y.storage, c3, s3)
            &&& y.numbers == x.numbers
            &&& y.wal == (match e {
                Some(entry) => wal::logged(x.wal, entry),
                None => x.wal,
            })
        }),
{
    match statement {
        SqlStatement::Insert { table, columns, source } => {
            let name = crate::sql::ast::table_text(table);
            if let Ok(t) = catalog::table_of(x.catalog, db, name) {
                let read = insert::source_rows(
                    x.numbers,
                    source,
                    model::views(columns@),
                    t.columns,
                );
                if let Ok(rows) = read {
                    assert(source is Some);
                    match source->0.body {
                        crate::sql::ast::QueryBody::Values(values) => {
                            lemma_read_without_numbers(
                                x.numbers,
                                values@,
                                model::views(columns@),
                                t.columns,
                            );
                        },
                        _ => {},
                    }
                    lemma_same_after_insert(x, c2, s2, db, name, t.columns, rows, now);
                }
            }
        },
        SqlStatement::Delete { tables, from, selection } => {
            let name = executor::deleted_table(tables@, from@);
            if let Ok(t) = catalog::table_of(x.catalog, db, name) {
                let rows = storage::rows_of(x.storage, name);
                let gone = query::selected(rows, selection, t.columns, x.numbers);
                assert(rows == stored(x.storage, catalog::normal(name)));
                if x.storage.tables.contains_key(catalog::normal(name)) {
                    lemma_kept_numbered(
                        rows,
                        number_behind(x.storage, catalog::normal(name)),
                        selection,
                        t.columns,
                        x.numbers,
                    );
                    if gone.len() == 0 {
                        lemma_nothing_selected(
                            rows,
                            selection,
                            t.columns,
                            x.numbers,
                            Seq::empty(),
                        );
                    }
                    let data = crate::engine::maintain::rows_left(
                        x.storage.index_data,
                        name,
                        catalog::indexes_of(x.catalog, db, name),
                        t.columns,
                        gone,
                    );
                    lemma_same_after_change(
                        x,
                        c2,
                        s2,
                        name,
                        change::unselected(rows, selection, t.columns, x.numbers),
                        data,
                        gone.len(),
                    );
                }
            }
        },
        SqlStatement::Update { table, assignments, selection } => {
            let name = crate::sql::ast::table_text(table);
            if let Ok(t) = catalog::table_of(x.catalog, db, name) {
                if let Ok(pairs) = change::assigned(x.numbers, assignments@, t.columns) {
                    let rows = storage::rows_of(x.storage, name);
                    let chosen = query::selected(rows, selection, t.columns, x.numbers);
                    assert(rows == stored(x.storage, catalog::normal(name)));
                    if x.storage.tables.contains_key(catalog::normal(name)) {
                        lemma_changed_numbered(
                            rows,
                            number_behind(x.storage, catalog::normal(name)),
                            pairs,
                            selection,
                            t.columns,
                            x.numbers,
                        );
                        if chosen.len() == 0 {
                            lemma_nothing_selected(rows, selection, t.columns, x.numbers, pairs);
                        }
                        let defs = catalog::indexes_of(x.catalog, db, name);
                        let without = crate::engine::maintain::rows_left(
                            x.storage.index_data,
                            name,
                            defs,
                            t.columns,
                            chosen,
                        );
                        let data = crate::engine::maintain::rows_entered(
                            without,
                            name,
                            defs,
                            t.columns,
                            change::rows_assigned(chosen, pairs),
                        );
                        lemma_same_after_change(
                            x,
                            c2,
                            s2,
                            name,
                            change::selected_assigned(
                                rows,
                                pairs,
                                selection,
                                t.columns,
                                x.numbers,
                            ),
                            data,
                            chosen.len(),
                        );
                    }
                }
            }
        },
        _ => {},
    }
}

/// States whose rows are the same are numbered alike.
proof fn lemma_same_tables(s: StorageV, t: StorageV)
    requires
        s.tables == t.tables,
        s.next_ids == t.next_ids,
        numbered(s),
    ensures
        numbered(t),
        forall|u: Seq<char>| #[trigger] stored(t, u) == stored(s, u),
{
    assert forall|u: Seq<char>| table_numbered(#[trigger] stored(t, u), number_behind(t, u)) by {
        assert(table_numbered(stored(s, u), number_behind(s, u)));
    }
}

proof fn lemma_cleared(s: StorageV, table: Seq<char>)
    requires
        numbered(s),
    ensures
        numbered(storage::table_cleared(s, table)),
        forall|u: Seq<char>|
            #[trigger] stored(storage::table_cleared(s, table), u) == (if u == catalog::normal(
                table,
            ) {
                Seq::empty()
            } else {
                stored(s, u)
            }),
{
    let t = storage::table_cleared(s, table);
    assert forall|u: Seq<char>| table_numbered(#[trigger] stored(t, u), number_behind(t, u)) by {
        assert(table_numbered(stored(s, u), number_behind(s, u)));
    }
}

proof fn lemma_same_after_ddl(
    x: ExecV,
    c2: CatalogV,
    s2: StorageV,
    db: Seq<char>,
    statement: SqlStatement,
    now: u64,
)
    requires
        same_data(x.catalog, x.storage, c2, s2),
        !recovery::is_beyond_log(db, statement),
        !(statement is Insert || statement is Delete || statement is Update),
    ensures
        ({
            let y = executor::statement_outcome(x, db, statement, now).state;
            let e = logged_entry(x, db, statement, now);
            let (c3, s3) = followed(c2, s2, e);
            &&& same_data(y.catalog, y.storage, c3, s3)
            &&& y.numbers == x.numbers
            &&& y.wal == (match e {
                Some(entry) => wal::logged(x.wal, entry),
                None => x.wal,
            })
        }),
{
    let y = executor::statement_outcome(x, db, statement, now).state;
    let e = logged_entry(x, db, statement, now);
    let (c3, s3) = followed(c2, s2, e);
    match statement {
        SqlStatement::CreateTable { .. } => {
            assert(y.storage == x.storage);
            assert(s3 == s2);
        },
        SqlStatement::Drop { kind, names, if_exists } => {
            let name = executor::first_name(names@);
            match kind {
                DropKind::Table => {
                    lemma_cleared(x.storage, catalog::normal(name));
                    lemma_cleared(s2, catalog::normal(name));
                    assert forall|t: Seq<char>| values_of(#[trigger] stored(y.storage, t))
                        == values_of(stored(s3, t)) by {
                        assert(values_of(stored(x.storage, t)) == values_of(stored(s2, t)));
                    }
                },
                DropKind::Index => {
                    lemma_same_tables(x.storage, y.storage);
                    lemma_same_tables(s2, s3);
                    assert forall|t: Seq<char>| values_of(#[trigger] stored(y.storage, t))
                        == values_of(stored(s3, t)) by {
                        assert(values_of(stored(x.storage, t)) == values_of(stored(s2, t)));
                    }
                },
                _ => {},
            }
        },
        SqlStatement::CreateIndex(spec) => {
            lemma_same_tables(x.storage, y.storage);
            assert(s3 == s2);
            assert forall|t: Seq<char>| values_of(#[trigger] stored(y.storage, t)) == values_of(
                stored(s3, t),
            ) by {
                assert(values_of(stored(x.storage, t)) == values_of(stored(s2, t)));
            }
        },
        _ => {
            assert(y == x);
        },
    }
}

/// The entry that a statement logs does to a state with the same data what the
/// statement did: the data stay the same. It is all that the statement adds to the
/// log.
pub proof fn replay_follows_execution(
    x: ExecV,
    c2: CatalogV,
    s2: StorageV,
    db: Seq<char>,
    statement: SqlStatement,
    now: u64,
)
    requires
        same_data(x.catalog, x.storage, c2, s2),
        executor::can_run(x, db, statement, now),
        !recovery::is_beyond_log(db, statement),
        has_numbers_for(s2, logged_entry(x, db, statement, now)),
    ensures
        ({
            let y = executor::statement_outcome(x, db, statement, now).state;
            let e = logged_entry(x, db, statement, now);
            let (c3, s3) = followed(c2, s2, e);
            &&& same_data(y.catalog, y.storage, c3, s3)
            &&& y.numbers == x.numbers
            &&& y.wal == (match e {
                Some(entry) => wal::logged(x.wal, entry),
                None => x.wal,
            })
        }),
{
    if statement is Insert || statement is Delete || statement is Update {
        lemma_same_after_dml(x, c2, s2, db, statement, now);
    } else {
        lemma_same_after_ddl(x, c2, s2, db, statement, now);
    }
}

// ---------------------------------------------------------------------------
// Runs of statements
// ---------------------------------------------------------------------------

/// A statement, the database it is for, and the time of its execution.
pub struct CommandV {
    pub db: Seq<char>,
    pub statement: SqlStatement,
    pub now: u64,
}

pub open spec fn after_command(x: ExecV, c: CommandV) -> ExecV {
    executor::statement_outcome(x, c.db, c.statement, c.now).state
}

pub open spec fn command_entry(x: ExecV, c: CommandV) -> Option<EntryV> {
    logged_entry(x, c.db, c.statement, c.now)
}

/// The state after commands, one after the other.
pub open spec fn ran(x: ExecV, commands: Seq<CommandV>) -> ExecV
    decreases commands.len(),
{
    if commands.len() == 0 {
        x
    } else {
        ran(after_command(x, commands[0]), commands.drop_first())
    }
}

/// The entries that commands put into the log.
pub open spec fn entries_of(x: ExecV, commands: Seq<CommandV>) -> Seq<EntryV>
    decreases commands.len(),
{
    if commands.len() == 0 {
        Seq::empty()
    } else {
        let rest = entries_of(after_command(x, commands[0]), commands.drop_first());
        match command_entry(x, commands[0]) {
            Some(e) => seq![e] + rest,
            None => rest,
        }
    }
}

/// Commands can be executed, and the log can repeat them on another state.
pub open spec fn repeatable(
    x: ExecV,
    c2: CatalogV,
    s2: StorageV,
    commands: Seq<CommandV>,
) -> bool
    decreases commands.len(),
{
    if commands.len() == 0 {
        true
    } else {
        let c = commands[0];
        let (c3, s3) = followed(c2, s2, command_entry(x, c));
        &&& executor::can_run(x, c.db, c.statement, c.now)
        &&& !recovery::is_beyond_log(c.db, c.statement)
        &&& has_numbers_for(s2, command_entry(x, c))
        &&& repeatable(after_command(x, c), c3, s3, commands.drop_first())
    }
}

/// The entries of commands do to a state with the same data what the commands did.
pub proof fn replay_follows_commands(
    x: ExecV,
    r: ReplayV,
    commands: Seq<CommandV>,
)
    requires
        same_data(x.catalog, x.storage, r.catalog, r.storage),
        repeatable(x, r.catalog, r.storage, commands),
    ensures
        ({
            let y = ran(x, commands);
            let q = wal::stepped(r, entries_of(x, commands));
            same_data(y.catalog, y.storage, q.catalog, q.storage)
        }),
    decreases commands.len(),
{
    if commands.len() > 0 {
        let c = commands[0];
        replay_follows_execution(x, r.catalog, r.storage, c.db, c.statement, c.now);
        let y = after_command(x, c);
        let rest = entries_of(y, commands.drop_first());
        match command_entry(x, c) {
            Some(e) => {
                let q = wal::step(r, e);
                replay_follows_commands(y, q, commands.drop_first());
                assert((seq![e] + rest).drop_first() =~= rest);
                assert((seq![e] + rest)[0] == e);
            },
            None => {
                replay_follows_commands(y, r, commands.drop_first());
            },
        }
    }
}

/// An open log gets the entries of commands appended, and nothing else.
pub proof fn log_holds_commands(x: ExecV, r: ReplayV, commands: Seq<CommandV>)
    requires
        same_data(x.catalog, x.storage, r.catalog, r.storage),
        repeatable(x, r.catalog, r.storage, commands),
        x.wal.open,
    ensures
        ran(x, commands).wal.open,
        ran(x, commands).wal.pending == x.wal.pending + wal::log_bytes(entries_of(x, commands)),
    decreases commands.len(),
{
    if commands.len() == 0 {
        assert(x.wal.pending + wal::log_bytes(entries_of(x, commands)) =~= x.wal.pending);
    } else {
        let c = commands[0];
        replay_follows_execution(x, r.catalog, r.storage, c.db, c.statement, c.now);
        let y = after_command(x, c);
        let rest = entries_of(y, commands.drop_first());
        match command_entry(x, c) {
            Some(e) => {
                log_holds_commands(y, wal::step(r, e), commands.drop_first());
                let all = seq![e] + rest;
                assert(all.drop_first() =~= rest);
                assert(all[0] == e);
                assert(x.wal.pending + wal::entry_bytes(e) + wal::log_bytes(rest)
                    =~= x.wal.pending + (wal::entry_bytes(e) + wal::log_bytes(rest)));
            },
            None => {
                log_holds_commands(y, r, commands.drop_first());
            },
        }
    }
}

// ---------------------------------------------------------------------------
// Restarts
// ---------------------------------------------------------------------------

/// Rows are in the order of their numbers, which lie from one number up to another.
spec fn ids_between(rows: Seq<RowV>, low: nat, next: nat) -> bool {
    &&& storage::sorted(rows)
    &&& low <= next
    &&& forall|i: int| 0 <= i < rows.len() ==> low <= (#[trigger] rows[i]).id < next
}

proof fn lemma_filled_between(f: Filling, rows: Seq<RowV>, low: nat)
    requires
        ids_between(f.rows, low, f.next),
        low <= 1,
        storage::filled(f, rows).next <= u64::MAX,
    ensures
        ids_between(storage::filled(f, rows).rows, low, storage::filled(f, rows).next),
    decreases rows.len(),
{
    if rows.len() > 0 {
        let last = rows.last();
        let g = storage::filled(f, rows.drop_last());
        let h = storage::filled(f, rows);
        assert(g.next <= h.next);
        lemma_filled_between(f, rows.drop_last(), low);
        let row = if last.id == 0 {
            RowV { id: g.next as u64, values: last.values }
        } else {
            last
        };
        assert(h.rows == storage::row_put(g.rows, row));
        storage::row_operations_keep_order(g.rows, row);
        assert forall|i: int| 0 <= i < h.rows.len() implies low <= (#[trigger] h.rows[i]).id
            < h.next by {
            let id = h.rows[i].id;
            storage::lemma_found(h.rows, i);
            storage::put_row_is_found(g.rows, row, id);
            if id != row.id {
                assert(storage::row_at(g.rows, id) == Some(h.rows[i]));
                storage::lemma_found_iff(g.rows, id);
                let j = choose|j: int| 0 <= j < g.rows.len() && (#[trigger] g.rows[j]).id == id;
                assert(low <= g.rows[j].id < g.next);
            }
        }
    }
}

proof fn lemma_filled_numbered(f: Filling, rows: Seq<RowV>)
    requires
        table_numbered(f.rows, f.next),
        storage::filled(f, rows).next <= u64::MAX,
    ensures
        table_numbered(storage::filled(f, rows).rows, storage::filled(f, rows).next),
{
    lemma_filled_between(f, rows, 1);
}

proof fn lemma_insertion_numbered(s: StorageV, table: Seq<char>, rows: Seq<RowV>)
    requires
        numbered(s),
        storage::can_insert(s, table, rows),
    ensures
        numbered(storage::rows_inserted(s, table, rows)),
{
    let s2 = storage::rows_inserted(s, table, rows);
    let t = catalog::normal(table);
    assert(storage::rows_of(s, table) == stored(s, t));
    assert(storage::next_id(s, table) as nat == number_behind(s, t));
    assert(table_numbered(stored(s, t), number_behind(s, t)));
    lemma_filled_numbered(
        Filling {
            rows: storage::rows_of(s, table),
            next: storage::next_id(s, table) as nat,
            ids: Seq::empty(),
        },
        rows,
    );
    assert forall|u: Seq<char>| table_numbered(#[trigger] stored(s2, u), number_behind(s2, u)) by {
        assert(table_numbered(stored(s, u), number_behind(s, u)));
    }
}

/// The values of rows by their numbers.
pub open spec fn by_number(rows: Seq<RowV>) -> Map<u64, Seq<Val>> {
    Map::new(
        |id: u64| storage::has_row(rows, id),
        |id: u64| rows[storage::place(rows, id)].values,
    )
}

/// Values by numbers, after those of each row were put under the number at its place.
/// Where a number occurs twice, the later row counts.
pub open spec fn put_by_number(
    kept: Map<u64, Seq<Val>>,
    ids: Seq<u64>,
    rows: Seq<RowV>,
) -> Map<u64, Seq<Val>>
    decreases rows.len(),
{
    if rows.len() == 0 {
        kept
    } else {
        put_by_number(kept, ids.drop_last(), rows.drop_last()).insert(
            ids.last(),
            rows.last().values,
        )
    }
}

/// Each row has the number that it came with, or one that no row had before.
pub open spec fn numbers_given(old_next: nat, ids: Seq<u64>, rows: Seq<RowV>) -> bool {
    &&& ids.len() == rows.len()
    &&& forall|i: int| 0 <= i < rows.len() && rows[i].id != 0 ==> #[trigger] ids[i] == rows[i].id
    &&& forall|i: int| 0 <= i < rows.len() && rows[i].id == 0 ==> #[trigger] ids[i] >= old_next
    &&& forall|i: int, j: int|
        0 <= j < i < rows.len() && rows[i].id == 0 ==> #[trigger] ids[i] != #[trigger] ids[j]
}

/// Rows are in the order of their numbers, which lie below the next number.
pub open spec fn ids_below(rows: Seq<RowV>, next: nat) -> bool {
    storage::sorted(rows) && forall|i: int| 0 <= i < rows.len() ==> (#[trigger] rows[i]).id < next
}

proof fn lemma_filled_below(f: Filling, rows: Seq<RowV>)
    requires
        ids_below(f.rows, f.next),
        storage::filled(f, rows).next <= u64::MAX,
    ensures
        ids_below(storage::filled(f, rows).rows, storage::filled(f, rows).next),
{
    lemma_filled_between(f, rows, 0);
}

proof fn lemma_filled_by_number(f: Filling, rows: Seq<RowV>)
    requires
        ids_below(f.rows, f.next),
        storage::filled(f, rows).next <= u64::MAX,
        f.ids.len() == 0,
    ensures
        ({
            let g = storage::filled(f, rows);
            &&& f.next <= g.next
            &&& numbers_given(f.next, g.ids, rows)
            &&& forall|i: int| 0 <= i < rows.len() ==> (#[trigger] g.ids[i]) < g.next
            &&& by_number(g.rows) == put_by_number(by_number(f.rows), g.ids, rows)
        }),
    decreases rows.len(),
{
    if rows.len() > 0 {
        let before = rows.drop_last();
        let last = rows.last();
        let g = storage::filled(f, before);
        let h = storage::filled(f, rows);
        assert(g.next <= h.next);
        lemma_filled_by_number(f, before);
        lemma_filled_below(f, before);
        let row = if last.id == 0 {
            RowV { id: g.next as u64, values: last.values }
        } else {
            last
        };
        assert(h.rows == storage::row_put(g.rows, row));
        assert(h.ids == g.ids.push(row.id));
        assert(rows[rows.len() - 1] == last);
        assert forall|i: int| 0 <= i < before.len() implies #[trigger] h.ids[i] == g.ids[i]
            && rows[i] == before[i] && h.ids[i] < g.next by {
        }
        assert(h.ids.drop_last() =~= g.ids);
        assert(by_number(h.rows) =~= by_number(g.rows).insert(row.id, row.values)) by {
            assert forall|id: u64| #[trigger] storage::row_at(h.rows, id) == (if id == row.id {
                Some(row)
            } else {
                storage::row_at(g.rows, id)
            }) by {
                storage::put_row_is_found(g.rows, row, id);
            }
            assert forall|id: u64| #[trigger]
                by_number(h.rows).contains_key(id) == by_number(g.rows).insert(
                    row.id,
                    row.values,
                ).contains_key(id) by {
                assert(storage::row_at(h.rows, id) == storage::row_at(h.rows, id));
            }
            assert forall|id: u64| #[trigger]
                by_number(h.rows).contains_key(id) implies by_number(h.rows)[id] == by_number(
                g.rows,
            ).insert(row.id, row.values)[id] by {
                assert(storage::row_at(h.rows, id) == storage::row_at(h.rows, id));
            }
        }
    }
}

/// An insertion gives each row a number: the one that it came with, or one above all
/// that the table had, which no row before it in the insertion got. The table then
/// holds the values of each row under its number, the later ones where a number
/// occurs twice, and otherwise what it held; all numbers lie below the next one. The
/// other tables and the indexes stay as they are.
pub proof fn insertion_numbers_rows(s: StorageV, table: Seq<char>, rows: Seq<RowV>)
    requires
        ids_below(stored(s, catalog::normal(table)), number_behind(s, catalog::normal(table))),
        storage::can_insert(s, table, rows),
    ensures
        ({
            let t = catalog::normal(table);
            let ids = storage::insertion(s, table, rows).ids;
            let s2 = storage::rows_inserted(s, table, rows);
            &&& numbers_given(number_behind(s, t), ids, rows)
            &&& by_number(stored(s2, t)) == put_by_number(by_number(stored(s, t)), ids, rows)
            &&& ids_below(stored(s2, t), s2.next_ids[t] as nat)
            &&& s2.next_ids.contains_key(t)
            &&& forall|u: Seq<char>| u != t ==> #[trigger] stored(s2, u) == stored(s, u)
            &&& s2.index_data == s.index_data
        }),
{
    let t = catalog::normal(table);
    let f = Filling {
        rows: storage::rows_of(s, table),
        next: storage::next_id(s, table) as nat,
        ids: Seq::empty(),
    };
    assert(f.rows == stored(s, t));
    assert(f.next == number_behind(s, t));
    lemma_filled_below(f, rows);
    lemma_filled_by_number(f, rows);
}

proof fn lemma_applied_numbered(c: CatalogV, s: StorageV, e: EntryV)
    requires
        numbered(s),
    ensures
        wal::applied(c, s, e) matches Some((_, s2)) ==> numbered(s2),
{
    match e {
        EntryV::InsertRows { table_name, rows } => {
            if storage::can_insert(s, table_name, rows) {
                lemma_insertion_numbered(s, table_name, rows);
            }
        },
        EntryV::TableSnapshot { table_name, rows } => {
            lemma_cleared(s, table_name);
            let cleared = storage::table_cleared(s, table_name);
            if storage::can_insert(cleared, table_name, rows) {
                lemma_insertion_numbered(cleared, table_name, rows);
            }
        },
        EntryV::DropTable { table_name } => {
            lemma_cleared(s, table_name);
        },
        EntryV::DropIndex { db_name, index_name, table_name } => {
            lemma_same_tables(s, wal::without_index(s, table_name, index_name));
        },
        _ => {},
    }
}

proof fn lemma_replayed_numbered(r: ReplayV, bytes: Seq<u8>)
    requires
        numbered(r.storage),
    ensures
        numbered(wal::replayed(r, bytes).storage),
    decreases bytes.len(),
{
    if wal::starts_with_frame(bytes) {
        let n = wal::frame_length(bytes) as int;
        match wal::read_entry(bytes[6], bytes.subrange(7, n)) {
            wal::ReadV::Entry(e) => {
                lemma_applied_numbered(r.catalog, r.storage, e);
                lemma_replayed_numbered(wal::step(r, e), bytes.skip(n));
            },
            wal::ReadV::Unknown => {
                lemma_replayed_numbered(
                    ReplayV { count: r.count + 1, ..r },
                    bytes.skip(n),
                );
            },
            wal::ReadV::Malformed => {},
        }
    }
}

proof fn lemma_tables_numbered(n: nat, bytes: Seq<u8>, s: StorageV)
    requires
        numbered(s),
    ensures
        wal::tables_read(n, bytes, s) matches Ok(s2) ==> numbered(s2),
    decreases n,
{
    if n > 0 && bytes.len() > 0 {
        if let Some((name, after_name)) = String::dec(bytes) {
            if let Some((rows, rest)) = codec::dec_list::<storage::Row>(after_name) {
                if storage::can_insert(s, name, rows) {
                    lemma_insertion_numbered(s, name, rows);
                    lemma_tables_numbered(
                        (n - 1) as nat,
                        rest,
                        storage::rows_inserted(s, name, rows),
                    );
                }
            }
        }
    }
}

proof fn lemma_checkpoint_numbered(bytes: Seq<u8>)
    ensures
        wal::checkpoint_read(bytes) matches Ok((_, s)) ==> numbered(s),
{
    let none = wal::nothing_stored();
    assert(numbered(none)) by {
        assert forall|t: Seq<char>| table_numbered(#[trigger] stored(none, t), number_behind(none, t)) by {
        }
    }
    let payload = wal::first_payload(bytes);
    if let Some((c, _)) = Catalog::dec(payload) {
        let behind = payload.skip(Catalog::enc(c).len() as int);
        if let Some((n, rest)) = codec::dec_le(behind, 8) {
            lemma_tables_numbered(n, rest, none);
        }
    }
}

/// Whatever the log holds, the rows of every table are in the order of their
/// numbers after a restart, if they are in the files.
pub proof fn recovery_keeps_numbers(bytes: Seq<u8>, c: CatalogV, s: StorageV)
    requires
        numbered(s),
    ensures
        numbered(recovery::recovered(bytes, c, s).storage),
{
    lemma_checkpoint_numbered(bytes);
    match wal::checkpoint_read(bytes) {
        Ok((c2, s2)) => {
            lemma_replayed_numbered(
                ReplayV { catalog: c2, storage: s2, count: 0 },
                recovery::behind_first(bytes),
            );
        },
        Err(_) => {
            lemma_replayed_numbered(ReplayV { catalog: c, storage: s, count: 0 }, bytes);
        },
    }
}

/// A state can be written as a checkpoint.
pub open spec fn can_checkpoint(c: CatalogV, s: StorageV) -> bool {
    &&& Catalog::listed(c)
    &&& names::lists(s.tables, names::listing(s.tables))
    &&& forall|name: Seq<char>| #[trigger] s.tables.contains_key(name) ==> wal::is_kept(s.tables, name)
    &&& wal::checkpoint_bytes(c, s).len() < 0x1_0000_0000
}

/// What a checkpoint of a state gives back.
pub open spec fn restored(c: CatalogV, s: StorageV) -> ReplayV {
    match wal::checkpoint_read(wal::checkpoint_bytes(c, s)) {
        Ok((c2, s2)) => ReplayV { catalog: c2, storage: s2, count: 0 },
        Err(_) => ReplayV { catalog: c, storage: s, count: 0 },
    }
}

proof fn lemma_restored(c: CatalogV, s: StorageV, rest: Seq<u8>)
    requires
        can_checkpoint(c, s),
        numbered(s),
    ensures
        wal::checkpoint_read(wal::checkpoint_bytes(c, s) + rest) == Ok::<
            (CatalogV, StorageV),
            wal::CheckpointError,
        >((restored(c, s).catalog, restored(c, s).storage)),
        recovery::behind_first(wal::checkpoint_bytes(c, s) + rest) == rest,
        same_data(c, s, restored(c, s).catalog, restored(c, s).storage),
{
    let bytes = wal::checkpoint_bytes(c, s);
    let none = Seq::<u8>::empty();
    wal::checkpoint_restores_state(c, s, rest);
    wal::checkpoint_restores_state(c, s, none);
    assert(bytes + none =~= bytes);
    assert((bytes + rest).skip(bytes.len() as int) =~= rest);
    wal::checkpoint_is_read_whole(c, s, rest);
    lemma_checkpoint_numbered(bytes);
    let s2 = restored(c, s).storage;
    assert forall|t: Seq<char>| values_of(#[trigger] stored(s, t)) == values_of(stored(s2, t)) by {
        assert(stored(s, t) == stored(s2, t));
    }
}

/// After a crash nothing is lost that was logged. A log that starts with a
/// checkpoint of a state, goes on with what commands logged and ends within an
/// entry gives back the data that the commands left, whatever the files hold.
pub proof fn crash_loses_nothing_logged(
    x: ExecV,
    commands: Seq<CommandV>,
    cut: EntryV,
    n: int,
    c: CatalogV,
    s: StorageV,
)
    requires
        can_checkpoint(x.catalog, x.storage),
        numbered(x.storage),
        repeatable(
            x,
            restored(x.catalog, x.storage).catalog,
            restored(x.catalog, x.storage).storage,
            commands,
        ),
        forall|i: int|
            0 <= i < entries_of(x, commands).len() ==> wal::entry_fits(
                #[trigger] entries_of(x, commands)[i],
            ),
        wal::entry_fits(cut),
        0 <= n < wal::entry_bytes(cut).len(),
    ensures
        ({
            let bytes = wal::checkpoint_bytes(x.catalog, x.storage) + (wal::log_bytes(
                entries_of(x, commands),
            ) + wal::entry_bytes(cut).take(n));
            let r = recovery::recovered(bytes, c, s);
            let y = ran(x, commands);
            same_data(y.catalog, y.storage, r.catalog, r.storage)
        }),
{
    let entries = entries_of(x, commands);
    let rest = wal::log_bytes(entries) + wal::entry_bytes(cut).take(n);
    lemma_restored(x.catalog, x.storage, rest);
    let r = restored(x.catalog, x.storage);
    replay_follows_commands(x, r, commands);
    wal::cut_log_is_replayed(r, entries, cut, n);
}

} // verus!
