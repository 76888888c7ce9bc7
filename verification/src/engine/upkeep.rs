//! Statements keep the indexes in step with the rows.

use vstd::prelude::*;

use crate::engine::catalog;
use crate::engine::catalog::{CatalogV, DatabaseV};
use crate::engine::change;
use crate::engine::durability;
use crate::engine::executor;
use crate::engine::executor::ExecV;
use crate::engine::index;
use crate::engine::index::{IndexDefV, IndexV};
use crate::engine::maintain;
use crate::engine::mirror;
use crate::engine::query;
use crate::engine::storage;
use crate::engine::storage::{Filling, RowV, StorageV};
use crate::engine::types::{ColumnV, NumbersV, Val};
use crate::names;
use crate::sql::ast::{AssignmentSpec, Expression, IndexSpec};

verus! {

/// The indexes of a table are stored under different names and hold its rows.
pub open spec fn in_step(
    c: CatalogV,
    s: StorageV,
    db: Seq<char>,
    table: Seq<char>,
    columns: Seq<ColumnV>,
) -> bool {
    let defs = catalog::indexes_of(c, db, table);
    &&& mirror::distinct_names(table, defs)
    &&& mirror::all_mirror(
        s.index_data,
        table,
        defs,
        columns,
        storage::rows_of(s, table).to_set(),
    )
}

proof fn lemma_ids(f: Filling, rows: Seq<RowV>)
    requires
        forall|i: int| 0 <= i < rows.len() ==> (#[trigger] rows[i]).id == 0,
    ensures
        storage::filled(f, rows).next == f.next + rows.len(),
        storage::filled(f, rows).ids.len() == f.ids.len() + rows.len(),
        forall|i: int|
            0 <= i < rows.len() ==> #[trigger] storage::filled(f, rows).ids[f.ids.len() + i] == (
            f.next + i) as u64,
    decreases rows.len(),
{
    if rows.len() > 0 {
        let before = rows.drop_last();
        assert forall|i: int| 0 <= i < before.len() implies (#[trigger] before[i]).id == 0 by {
            assert(before[i] == rows[i]);
        }
        lemma_ids(f, before);
        assert(rows[rows.len() - 1] == rows.last());
        let g = storage::filled(f, before);
        let h = storage::filled(f, rows);
        assert forall|i: int| 0 <= i < rows.len() implies #[trigger] h.ids[f.ids.len() + i] == (
        f.next + i) as u64 by {
            if i < before.len() {
                assert(h.ids[f.ids.len() + i] == g.ids[f.ids.len() + i]);
            }
        }
    }
}

proof fn lemma_inserted_rows(s: StorageV, table: Seq<char>, rows: Seq<RowV>)
    requires
        durability::numbered(s),
        forall|i: int| 0 <= i < rows.len() ==> (#[trigger] rows[i]).id == 0,
        storage::can_insert(s, table, rows),
    ensures
        ({
            let s2 = storage::rows_inserted(s, table, rows);
            let ids = storage::insertion(s, table, rows).ids;
            &&& storage::rows_of(s2, table).to_set() == mirror::with_rows(
                storage::rows_of(s, table).to_set(),
                executor::rows_numbered(s2, table, ids),
            )
            &&& mirror::new_ids(
                storage::rows_of(s, table).to_set(),
                executor::rows_numbered(s2, table, ids),
            )
        }),
{
    let f = Filling {
        rows: storage::rows_of(s, table),
        next: storage::next_id(s, table) as nat,
        ids: Seq::empty(),
    };
    let t = catalog::normal(table);
    assert(durability::stored(s, t) == f.rows);
    assert(durability::number_behind(s, t) == f.next);
    assert(durability::table_numbered(durability::stored(s, t), durability::number_behind(s, t)));
    lemma_ids(f, rows);
    durability::rows_without_numbers_are_appended(f, rows);
    let g = storage::filled(f, rows);
    let s2 = storage::rows_inserted(s, table, rows);
    assert(storage::rows_of(s2, table) == g.rows);
    let more = executor::rows_numbered(s2, table, g.ids);
    let n = f.rows.len() as int;
    assert forall|i: int| 0 <= i < rows.len() implies more[i] == g.rows[n + i] by {
        assert(g.ids[f.ids.len() + i] == (f.next + i) as u64);
        assert(g.rows[f.rows.len() + i].id == g.ids[i]);
        storage::lemma_found(g.rows, n + i);
    }
    assert forall|r: RowV| g.rows.to_set().contains(r) <==> #[trigger] mirror::with_rows(
        f.rows.to_set(),
        more,
    ).contains(r) by {
        mirror::lemma_with_rows(f.rows.to_set(), more, r);
        if g.rows.contains(r) {
            let i = choose|i: int| 0 <= i < g.rows.len() && g.rows[i] == r;
            if i < n {
                assert(g.rows.take(n)[i] == r);
                assert(f.rows[i] == r);
            } else {
                assert(more[i - n] == g.rows[n + (i - n)]);
            }
        }
        if f.rows.contains(r) {
            let i = choose|i: int| 0 <= i < f.rows.len() && f.rows[i] == r;
            assert(g.rows.take(n)[i] == g.rows[i]);
        }
        if more.contains(r) {
            let i = choose|i: int| 0 <= i < more.len() && more[i] == r;
            assert(g.rows[n + i] == r);
        }
    }
    assert(g.rows.to_set() =~= mirror::with_rows(f.rows.to_set(), more));
    assert forall|r: RowV, i: int| 0 <= i < more.len() && #[trigger] f.rows.to_set().contains(
        r,
    ) implies r.id != (#[trigger] more[i]).id by {
        let j = choose|j: int| 0 <= j < f.rows.len() && f.rows[j] == r;
        assert(g.rows.take(n)[j] == g.rows[j]);
        assert(g.rows[j].id < g.rows[n + i].id);
        assert(more[i] == g.rows[n + i]);
    }
    assert forall|i: int, j: int| 0 <= i < j < more.len() implies (#[trigger] more[i]).id != (
    #[trigger] more[j]).id by {
        assert(g.rows[n + i].id < g.rows[n + j].id);
    }
}

/// An `INSERT` keeps the indexes of its table in step.
pub proof fn insert_keeps_indexes(
    x: ExecV,
    db: Seq<char>,
    table: Seq<char>,
    columns: Seq<ColumnV>,
    rows: Seq<RowV>,
    now: u64,
)
    requires
        durability::numbered(x.storage),
        in_step(x.catalog, x.storage, db, table, columns),
        executor::can_take_rows(x, table, columns, rows, now),
        forall|i: int| 0 <= i < rows.len() ==> (#[trigger] rows[i]).id == 0,
    ensures
        ({
            let y = executor::inserted_outcome(x, db, table, columns, rows, now).state;
            in_step(y.catalog, y.storage, db, table, columns)
        }),
{
    let full = executor::insertion_of(x, table, columns, rows, now);
    durability::completed_rows_have_no_numbers(
        rows,
        columns,
        catalog::next_number(x.catalog, table),
        now,
    );
    lemma_inserted_rows(x.storage, table, full.rows);
    let s = storage::rows_inserted(x.storage, table, full.rows);
    let ids = storage::insertion(x.storage, table, full.rows).ids;
    mirror::entering_keeps_indexes(
        s.index_data,
        table,
        catalog::indexes_of(x.catalog, db, table),
        columns,
        storage::rows_of(x.storage, table).to_set(),
        executor::rows_numbered(s, table, ids),
    );
    let y = executor::inserted_outcome(x, db, table, columns, rows, now).state;
    assert(catalog::indexes_of(y.catalog, db, table) == catalog::indexes_of(
        x.catalog,
        db,
        table,
    ));
    assert(storage::rows_of(y.storage, table) == storage::rows_of(s, table));
}

/// Selected rows are in the order of the rows.
proof fn lemma_selected_sorted(
    rows: Seq<RowV>,
    selection: Option<Expression>,
    columns: Seq<ColumnV>,
    n: NumbersV,
)
    requires
        storage::sorted(rows),
    ensures
        storage::sorted(query::selected(rows, selection, columns, n)),
        forall|i: int|
            0 <= i < query::selected(rows, selection, columns, n).len() ==> rows.contains(
                #[trigger] query::selected(rows, selection, columns, n)[i],
            ),
    decreases rows.len(),
{
    if rows.len() > 0 {
        let before = rows.drop_last();
        assert(storage::sorted(before)) by {
            assert forall|i: int, j: int| 0 <= i < j < before.len() implies (#[trigger] before[i]).id
                < (#[trigger] before[j]).id by {
                assert(rows[i].id < rows[j].id);
            }
        }
        lemma_selected_sorted(before, selection, columns, n);
        let chosen = query::selected(before, selection, columns, n);
        let all = query::selected(rows, selection, columns, n);
        assert forall|i: int| 0 <= i < chosen.len() implies (#[trigger] chosen[i]).id
            < rows.last().id && rows.contains(chosen[i]) by {
            assert(before.contains(chosen[i]));
            let j = choose|j: int| 0 <= j < before.len() && before[j] == chosen[i];
            assert(rows[j] == chosen[i]);
            assert(rows[j].id < rows[rows.len() - 1].id);
        }
        assert forall|i: int| 0 <= i < all.len() implies rows.contains(#[trigger] all[i]) by {
            if i < chosen.len() {
                assert(all[i] == chosen[i]);
            } else {
                assert(rows[rows.len() - 1] == all[i]);
            }
        }
    }
}

proof fn lemma_sorted_unique(rows: Seq<RowV>)
    requires
        storage::sorted(rows),
    ensures
        rows.no_duplicates(),
        mirror::unique_ids(rows.to_set()),
{
    assert forall|i: int, j: int| 0 <= i < rows.len() && 0 <= j < rows.len() && i != j implies rows[i]
        != rows[j] by {
        if i < j {
            assert(rows[i].id < rows[j].id);
        } else {
            assert(rows[j].id < rows[i].id);
        }
    }
    assert forall|a: RowV, b: RowV|
        #[trigger] rows.to_set().contains(a) && #[trigger] rows.to_set().contains(b) && a.id
            == b.id implies a == b by {
        let i = choose|i: int| 0 <= i < rows.len() && rows[i] == a;
        let j = choose|j: int| 0 <= j < rows.len() && rows[j] == b;
        storage::lemma_found(rows, i);
        storage::lemma_found(rows, j);
    }
}

proof fn lemma_unselected_set(
    rows: Seq<RowV>,
    selection: Option<Expression>,
    columns: Seq<ColumnV>,
    n: NumbersV,
)
    ensures
        change::unselected(rows, selection, columns, n).to_set() == mirror::without_rows(
            rows.to_set(),
            query::selected(rows, selection, columns, n),
        ),
{
    let gone = query::selected(rows, selection, columns, n);
    let kept = change::unselected(rows, selection, columns, n);
    assert forall|r: RowV| kept.to_set().contains(r) <==> #[trigger] mirror::without_rows(
        rows.to_set(),
        gone,
    ).contains(r) by {
        mirror::lemma_without_rows(rows.to_set(), gone, r);
        change::selection_splits_rows(rows, selection, columns, n, r);
    }
    assert(kept.to_set() =~= mirror::without_rows(rows.to_set(), gone));
}

/// A `DELETE` keeps the indexes of its table in step.
pub proof fn delete_keeps_indexes(
    x: ExecV,
    db: Seq<char>,
    table: Seq<char>,
    selection: Option<Expression>,
)
    requires
        durability::numbered(x.storage),
        catalog::table_of(x.catalog, db, table) matches Ok(t) ==> in_step(
            x.catalog,
            x.storage,
            db,
            table,
            t.columns,
        ),
    ensures
        ({
            let y = executor::delete_outcome(x, db, table, selection).state;
            catalog::table_of(x.catalog, db, table) matches Ok(t) ==> in_step(
                y.catalog,
                y.storage,
                db,
                table,
                t.columns,
            )
        }),
{
    if let Ok(t) = catalog::table_of(x.catalog, db, table) {
        if x.storage.tables.contains_key(catalog::normal(table)) {
            let rows = storage::rows_of(x.storage, table);
            let key = catalog::normal(table);
            assert(durability::stored(x.storage, key) == rows);
            lemma_selected_sorted(rows, selection, t.columns, x.numbers);
            let gone = query::selected(rows, selection, t.columns, x.numbers);
            lemma_sorted_unique(rows);
            lemma_sorted_unique(gone);
            lemma_unselected_set(rows, selection, t.columns, x.numbers);
            mirror::leaving_keeps_indexes(
                x.storage.index_data,
                table,
                catalog::indexes_of(x.catalog, db, table),
                t.columns,
                rows.to_set(),
                gone,
            );
        }
    }
}

proof fn lemma_assigned_set(
    rows: Seq<RowV>,
    pairs: Seq<(int, change::NewV)>,
    selection: Option<Expression>,
    columns: Seq<ColumnV>,
    n: NumbersV,
)
    ensures
        ({
            let chosen = query::selected(rows, selection, columns, n);
            change::selected_assigned(rows, pairs, selection, columns, n).to_set()
                == mirror::with_rows(
                mirror::without_rows(rows.to_set(), chosen),
                change::rows_assigned(chosen, pairs),
            )
        }),
{
    let chosen = query::selected(rows, selection, columns, n);
    let left = mirror::without_rows(rows.to_set(), chosen);
    let more = change::rows_assigned(chosen, pairs);
    let all = change::selected_assigned(rows, pairs, selection, columns, n);
    assert forall|r: RowV| all.to_set().contains(r) <==> #[trigger] mirror::with_rows(
        left,
        more,
    ).contains(r) by {
        mirror::lemma_with_rows(left, more, r);
        mirror::lemma_without_rows(rows.to_set(), chosen, r);
        change::selection_splits_rows(rows, selection, columns, n, r);
        if all.contains(r) {
            let i = choose|i: int| 0 <= i < all.len() && all[i] == r;
            assert(rows.contains(rows[i]));
            if query::is_selected(rows[i], selection, columns, n) {
                change::selection_splits_rows(rows, selection, columns, n, rows[i]);
                let j = choose|j: int| 0 <= j < chosen.len() && chosen[j] == rows[i];
                assert(more[j] == r);
            }
        }
        if left.contains(r) {
            let i = choose|i: int| 0 <= i < rows.len() && rows[i] == r;
            assert(all[i] == r);
        }
        if more.contains(r) {
            let j = choose|j: int| 0 <= j < more.len() && more[j] == r;
            assert(chosen.contains(chosen[j]));
            change::selection_splits_rows(rows, selection, columns, n, chosen[j]);
            let i = choose|i: int| 0 <= i < rows.len() && rows[i] == chosen[j];
            assert(all[i] == r);
        }
    }
    assert(all.to_set() =~= mirror::with_rows(left, more));
}

/// Changed rows keep their numbers, which no other row has.
proof fn lemma_assigned_ids(
    rows: Seq<RowV>,
    chosen: Seq<RowV>,
    pairs: Seq<(int, change::NewV)>,
)
    requires
        storage::sorted(rows),
        storage::sorted(chosen),
        forall|i: int| 0 <= i < chosen.len() ==> rows.contains(#[trigger] chosen[i]),
    ensures
        mirror::new_ids(
            mirror::without_rows(rows.to_set(), chosen),
            change::rows_assigned(chosen, pairs),
        ),
{
    let left = mirror::without_rows(rows.to_set(), chosen);
    let more = change::rows_assigned(chosen, pairs);
    lemma_sorted_unique(rows);
    assert forall|r: RowV, i: int| 0 <= i < more.len() && #[trigger] left.contains(r) implies r.id
        != (#[trigger] more[i]).id by {
        mirror::lemma_without_rows(rows.to_set(), chosen, r);
        assert(rows.contains(chosen[i]));
        assert(rows.to_set().contains(chosen[i]));
        assert(rows.to_set().contains(r));
    }
    assert forall|i: int, j: int| 0 <= i < j < more.len() implies (#[trigger] more[i]).id != (
    #[trigger] more[j]).id by {
        assert(chosen[i].id < chosen[j].id);
    }
}

/// An `UPDATE` keeps the indexes of its table in step.
pub proof fn update_keeps_indexes(
    x: ExecV,
    db: Seq<char>,
    table: Seq<char>,
    assignments: Seq<AssignmentSpec>,
    selection: Option<Expression>,
)
    requires
        durability::numbered(x.storage),
        catalog::table_of(x.catalog, db, table) matches Ok(t) ==> in_step(
            x.catalog,
            x.storage,
            db,
            table,
            t.columns,
        ),
    ensures
        ({
            let y = executor::update_outcome(x, db, table, assignments, selection).state;
            catalog::table_of(x.catalog, db, table) matches Ok(t) ==> in_step(
                y.catalog,
                y.storage,
                db,
                table,
                t.columns,
            )
        }),
{
    if let Ok(t) = catalog::table_of(x.catalog, db, table) {
        if let Ok(pairs) = change::assigned(x.numbers, assignments, t.columns) {
            if x.storage.tables.contains_key(catalog::normal(table)) {
                let rows = storage::rows_of(x.storage, table);
                let key = catalog::normal(table);
                assert(durability::stored(x.storage, key) == rows);
                lemma_selected_sorted(rows, selection, t.columns, x.numbers);
                let chosen = query::selected(rows, selection, t.columns, x.numbers);
                lemma_sorted_unique(rows);
                lemma_sorted_unique(chosen);
                lemma_assigned_set(rows, pairs, selection, t.columns, x.numbers);
                let defs = catalog::indexes_of(x.catalog, db, table);
                lemma_assigned_ids(rows, chosen, pairs);
                mirror::leaving_keeps_indexes(
                    x.storage.index_data,
                    table,
                    defs,
                    t.columns,
                    rows.to_set(),
                    chosen,
                );
                mirror::entering_keeps_indexes(
                    maintain::rows_left(
                        x.storage.index_data,
                        table,
                        defs,
                        t.columns,
                        chosen,
                    ),
                    table,
                    defs,
                    t.columns,
                    mirror::without_rows(rows.to_set(), chosen),
                    change::rows_assigned(chosen, pairs),
                );
            }
        }
    }
}

/// A `CREATE INDEX` that succeeds gives an index that holds the rows of its table.
pub proof fn created_index_holds_rows(
    x: ExecV,
    db: Seq<char>,
    table: Seq<char>,
    spec: IndexSpec,
)
    requires
        storage::sorted(storage::rows_of(x.storage, table)),
        executor::create_index_outcome(x, db, table, spec).result is Ok,
    ensures
        ({
            let y = executor::create_index_outcome(x, db, table, spec).state;
            let def = executor::index_definition(table, spec);
            let name = query::index_key(table, def.name);
            &&& catalog::table_of(y.catalog, db, table) matches Ok(t) && y.storage.index_data.contains_key(
                name,
            ) && mirror::mirrors(
                y.storage.index_data[name],
                storage::rows_of(y.storage, table).to_set(),
                def,
                t.columns,
            )
        }),
{
    let def = executor::index_definition(table, spec);
    let c = catalog::index_created(x.catalog, db, def)->Ok_0;
    let t = catalog::table_of(c, db, table)->Ok_0;
    mirror::built_index_mirrors(
        storage::rows_of(x.storage, table),
        def.index_type,
        def,
        def.unique,
        t.columns,
    );
}

/// Every index of a table is stored and was built from the rows.
pub open spec fn all_built(
    data: Map<Seq<char>, IndexV>,
    table: Seq<char>,
    defs: Seq<IndexDefV>,
    columns: Seq<ColumnV>,
    rows: Seq<RowV>,
) -> bool {
    forall|i: int|
        0 <= i < defs.len() ==> {
            let name = query::index_key(table, (#[trigger] defs[i]).name);
            data.contains_key(name) && data[name] == maintain::index_of_rows(rows, defs[i], columns)
        }
}

proof fn lemma_table_built(
    data: Map<Seq<char>, IndexV>,
    s: StorageV,
    table: Seq<char>,
    columns: Seq<ColumnV>,
    defs: Seq<IndexDefV>,
)
    requires
        mirror::distinct_names(table, defs),
    ensures
        all_built(
            maintain::table_rebuilt(data, s, table, columns, defs),
            table,
            defs,
            columns,
            storage::rows_of(s, table),
        ),
    decreases defs.len(),
{
    if defs.len() > 0 {
        let before = defs.drop_last();
        assert(mirror::distinct_names(table, before)) by {
            assert forall|i: int, j: int| 0 <= i < j < before.len() implies query::index_key(
                table,
                (#[trigger] before[i]).name,
            ) != query::index_key(table, (#[trigger] before[j]).name) by {
                assert(query::index_key(table, defs[i].name) != query::index_key(
                    table,
                    defs[j].name,
                ));
            }
        }
        lemma_table_built(data, s, table, columns, before);
        let rows = storage::rows_of(s, table);
        let def = defs.last();
        let first = maintain::table_rebuilt(data, s, table, columns, before);
        let after = maintain::table_rebuilt(data, s, table, columns, defs);
        assert forall|i: int| 0 <= i < defs.len() implies ({
            let name = query::index_key(table, (#[trigger] defs[i]).name);
            after.contains_key(name) && after[name] == maintain::index_of_rows(rows, defs[i], columns)
        }) by {
            let own = query::index_key(table, def.name);
            assert(defs[defs.len() - 1] == def);
            if i < before.len() {
                assert(before[i] == defs[i]);
                assert(query::index_key(table, defs[i].name) != query::index_key(
                    table,
                    defs[defs.len() - 1].name,
                ));
            }
        }
    }
}

/// The index definitions of a table in a database.
pub open spec fn defs_of(d: DatabaseV, table: Seq<char>) -> Seq<IndexDefV> {
    if d.indexes.contains_key(table) {
        d.indexes[table]
    } else {
        Seq::empty()
    }
}

/// An index of a table is stored under a name.
pub open spec fn is_named(d: DatabaseV, table: Seq<char>, i: int, name: Seq<char>) -> bool {
    &&& d.tables.contains_key(table)
    &&& 0 <= i < defs_of(d, table).len()
    &&& query::index_key(table, defs_of(d, table)[i].name) == name
}

/// Different indexes of a catalog are stored under different names.
pub open spec fn all_names_differ(c: CatalogV) -> bool {
    forall|a: Seq<char>, t: Seq<char>, i: int, b: Seq<char>, u: Seq<char>, j: int, name: Seq<char>|
        c.databases.contains_key(a) && c.databases.contains_key(b) && #[trigger] is_named(
            c.databases[a],
            t,
            i,
            name,
        ) && #[trigger] is_named(c.databases[b], u, j, name) ==> a == b && t == u && i == j
}

/// The databases and tables of a catalog can be listed, and the names of the
/// databases are in lower case.
pub open spec fn is_listed(c: CatalogV) -> bool {
    &&& names::lists(c.databases, names::listing(c.databases))
    &&& forall|a: Seq<char>| #[trigger]
        c.databases.contains_key(a) ==> catalog::normal(a) == a && names::lists(
            c.databases[a].tables,
            names::listing(c.databases[a].tables),
        )
}

proof fn lemma_table_keeps(
    data: Map<Seq<char>, IndexV>,
    s: StorageV,
    table: Seq<char>,
    columns: Seq<ColumnV>,
    defs: Seq<IndexDefV>,
    name: Seq<char>,
)
    requires
        forall|i: int|
            0 <= i < defs.len() ==> query::index_key(table, (#[trigger] defs[i]).name) != name,
    ensures
        maintain::table_rebuilt(data, s, table, columns, defs).contains_key(name)
            == data.contains_key(name),
        maintain::table_rebuilt(data, s, table, columns, defs)[name] == data[name],
    decreases defs.len(),
{
    if defs.len() > 0 {
        let before = defs.drop_last();
        assert forall|i: int| 0 <= i < before.len() implies query::index_key(
            table,
            (#[trigger] before[i]).name,
        ) != name by {
            assert(query::index_key(table, defs[i].name) != name);
        }
        lemma_table_keeps(data, s, table, columns, before, name);
        assert(query::index_key(table, defs[defs.len() - 1].name) != name);
    }
}

/// Rebuilding other tables leaves what is stored under a name.
proof fn lemma_tables_keep(
    data: Map<Seq<char>, IndexV>,
    s: StorageV,
    d: DatabaseV,
    tables: Seq<Seq<char>>,
    name: Seq<char>,
)
    requires
        forall|k: int|
            0 <= k < tables.len() ==> d.tables.contains_key(#[trigger] tables[k]),
        forall|k: int, i: int|
            0 <= k < tables.len() ==> !(#[trigger] is_named(d, tables[k], i, name)),
    ensures
        maintain::tables_rebuilt(data, s, d, tables).contains_key(name) == data.contains_key(name),
        maintain::tables_rebuilt(data, s, d, tables)[name] == data[name],
    decreases tables.len(),
{
    if tables.len() > 0 {
        let before = tables.drop_last();
        assert forall|k: int, i: int| 0 <= k < before.len() implies !(#[trigger] is_named(
            d,
            before[k],
            i,
            name,
        )) by {
            assert(before[k] == tables[k]);
            assert(!is_named(d, tables[k], i, name));
        }
        assert forall|k: int| 0 <= k < before.len() implies d.tables.contains_key(
            #[trigger] before[k],
        ) by {
            assert(before[k] == tables[k]);
        }
        lemma_tables_keep(data, s, d, before, name);
        let t = tables[tables.len() - 1];
        let defs = defs_of(d, t);
        assert forall|i: int| 0 <= i < defs.len() implies query::index_key(
            t,
            (#[trigger] defs[i]).name,
        ) != name by {
            assert(!is_named(d, t, i, name));
        }
        lemma_table_keeps(
            maintain::tables_rebuilt(data, s, d, before),
            s,
            t,
            d.tables[t].columns,
            defs,
            name,
        );
    }
}

proof fn lemma_tables_built(
    data: Map<Seq<char>, IndexV>,
    s: StorageV,
    c: CatalogV,
    a: Seq<char>,
    tables: Seq<Seq<char>>,
    t: Seq<char>,
)
    requires
        all_names_differ(c),
        c.databases.contains_key(a),
        forall|k: int|
            0 <= k < tables.len() ==> c.databases[a].tables.contains_key(#[trigger] tables[k]),
        tables.contains(t),
    ensures
        all_built(
            maintain::tables_rebuilt(data, s, c.databases[a], tables),
            t,
            defs_of(c.databases[a], t),
            c.databases[a].tables[t].columns,
            storage::rows_of(s, t),
        ),
    decreases tables.len(),
{
    let d = c.databases[a];
    let before = tables.drop_last();
    let first = maintain::tables_rebuilt(data, s, d, before);
    let u = tables[tables.len() - 1];
    let defs = defs_of(d, t);
    if u == t {
        assert forall|i: int, j: int| 0 <= i < j < defs.len() implies query::index_key(
            t,
            (#[trigger] defs[i]).name,
        ) != query::index_key(t, (#[trigger] defs[j]).name) by {
            let name = query::index_key(t, defs[i].name);
            assert(is_named(d, t, i, name));
            assert(!is_named(d, t, j, name));
        }
        lemma_table_built(first, s, t, d.tables[t].columns, defs);
    } else {
        let k = choose|k: int| 0 <= k < tables.len() && tables[k] == t;
        assert(before[k] == t);
        assert forall|k: int| 0 <= k < before.len() implies d.tables.contains_key(
            #[trigger] before[k],
        ) by {
            assert(before[k] == tables[k]);
        }
        lemma_tables_built(data, s, c, a, before, t);
        let after = maintain::tables_rebuilt(data, s, d, tables);
        assert forall|i: int| 0 <= i < defs.len() implies ({
            let name = query::index_key(t, (#[trigger] defs[i]).name);
            after.contains_key(name) && after[name] == maintain::index_of_rows(
                storage::rows_of(s, t),
                defs[i],
                d.tables[t].columns,
            )
        }) by {
            let name = query::index_key(t, defs[i].name);
            assert(is_named(d, t, i, name));
            let other = defs_of(d, u);
            assert forall|j: int| 0 <= j < other.len() implies query::index_key(
                u,
                (#[trigger] other[j]).name,
            ) != name by {
                assert(!is_named(d, u, j, name));
            }
            lemma_table_keeps(first, s, u, d.tables[u].columns, other, name);
        }
    }
}

proof fn lemma_databases_built(
    data: Map<Seq<char>, IndexV>,
    s: StorageV,
    c: CatalogV,
    databases: Seq<Seq<char>>,
    a: Seq<char>,
    t: Seq<char>,
)
    requires
        all_names_differ(c),
        is_listed(c),
        forall|k: int| 0 <= k < databases.len() ==> c.databases.contains_key(#[trigger] databases[k]),
        databases.contains(a),
        c.databases[a].tables.contains_key(t),
    ensures
        all_built(
            maintain::databases_rebuilt(data, s, c, databases),
            t,
            defs_of(c.databases[a], t),
            c.databases[a].tables[t].columns,
            storage::rows_of(s, t),
        ),
    decreases databases.len(),
{
    let before = databases.drop_last();
    let first = maintain::databases_rebuilt(data, s, c, before);
    let b = databases[databases.len() - 1];
    let e = c.databases[b];
    let tables = names::listing(e.tables);
    assert(c.databases.contains_key(b));
    assert forall|k: int| 0 <= k < tables.len() implies e.tables.contains_key(
        #[trigger] tables[k],
    ) by {
        assert(tables.contains(tables[k]));
    }
    if b == a {
        assert(tables.contains(t));
        lemma_tables_built(first, s, c, a, tables, t);
    } else {
        let k = choose|k: int| 0 <= k < databases.len() && databases[k] == a;
        assert(before[k] == a);
        assert forall|k: int| 0 <= k < before.len() implies c.databases.contains_key(
            #[trigger] before[k],
        ) by {
            assert(before[k] == databases[k]);
        }
        lemma_databases_built(data, s, c, before, a, t);
        assert(c.databases.contains_key(databases[k]));
        let d = c.databases[a];
        let defs = defs_of(d, t);
        let after = maintain::databases_rebuilt(data, s, c, databases);
        assert forall|i: int| 0 <= i < defs.len() implies ({
            let name = query::index_key(t, (#[trigger] defs[i]).name);
            after.contains_key(name) && after[name] == maintain::index_of_rows(
                storage::rows_of(s, t),
                defs[i],
                d.tables[t].columns,
            )
        }) by {
            let name = query::index_key(t, defs[i].name);
            assert(is_named(d, t, i, name));
            assert forall|k: int, j: int| 0 <= k < tables.len() implies !(#[trigger] is_named(
                e,
                tables[k],
                j,
                name,
            )) by {
                assert(!is_named(c.databases[b], tables[k], j, name));
            }
            lemma_tables_keep(first, s, e, tables, name);
        }
    }
}

/// The numbers of the rows with a key, in the order of the rows.
pub open spec fn numbers_with_key(
    rows: Seq<RowV>,
    key: Seq<Val>,
    def: IndexDefV,
    columns: Seq<ColumnV>,
) -> Seq<u64>
    decreases rows.len(),
{
    if rows.len() == 0 {
        Seq::empty()
    } else {
        let before = numbers_with_key(rows.drop_last(), key, def, columns);
        if maintain::row_key(rows.last().values, def, columns) == key {
            before.push(rows.last().id)
        } else {
            before
        }
    }
}

/// An index that was built from rows gives for a key that it can find the numbers of
/// the rows with the key, in the order of the rows.
pub proof fn built_index_lists_rows(
    rows: Seq<RowV>,
    key: Seq<Val>,
    def: IndexDefV,
    columns: Seq<ColumnV>,
)
    ensures
        maintain::index_of_rows(rows, def, columns).kind == def.index_type,
        index::can_find(def.index_type, key) ==> index::ids_at(
            maintain::index_of_rows(rows, def, columns).map,
            key,
        ) == numbers_with_key(rows, key, def, columns),
    decreases rows.len(),
{
    if rows.len() > 0 {
        built_index_lists_rows(rows.drop_last(), key, def, columns);
        maintain::index_can_be_built(rows.drop_last(), def.index_type, def, columns);
    }
}

/// The numbers of the rows with a key ascend.
pub proof fn numbers_with_key_ascend(
    rows: Seq<RowV>,
    key: Seq<Val>,
    def: IndexDefV,
    columns: Seq<ColumnV>,
)
    requires
        storage::sorted(rows),
    ensures
        ({
            let ids = numbers_with_key(rows, key, def, columns);
            &&& forall|i: int, j: int|
                0 <= i < j < ids.len() ==> (#[trigger] ids[i]) < (#[trigger] ids[j])
            &&& forall|i: int| 0 <= i < ids.len() ==> (#[trigger] ids[i]) <= rows.last().id
        }),
    decreases rows.len(),
{
    if rows.len() > 0 {
        let before = rows.drop_last();
        assert(storage::sorted(before)) by {
            assert forall|i: int, j: int| 0 <= i < j < before.len() implies (#[trigger] before[i]).id
                < (#[trigger] before[j]).id by {
                assert(rows[i].id < rows[j].id);
            }
        }
        numbers_with_key_ascend(before, key, def, columns);
        let first = numbers_with_key(before, key, def, columns);
        let ids = numbers_with_key(rows, key, def, columns);
        assert forall|i: int| 0 <= i < first.len() implies (#[trigger] first[i])
            < rows.last().id by {
            assert(before.len() > 0);
            assert(before.last() == rows[rows.len() - 2]);
            assert(rows[rows.len() - 2].id < rows[rows.len() - 1].id);
        }
        assert forall|i: int| 0 <= i < first.len() implies #[trigger] ids[i] == first[i] by {
        }
        assert(forall|i: int| first.len() <= i < ids.len() ==> #[trigger] ids[i] == rows.last().id);
    }
}

/// After the indexes were rebuilt, every index of every table gives for a key that it
/// can find the numbers of the rows with the key, in ascending order, as long as
/// different indexes are stored under different names.
pub proof fn rebuilt_indexes_list_rows(
    c: CatalogV,
    s: StorageV,
    a: Seq<char>,
    t: Seq<char>,
    i: int,
    key: Seq<Val>,
)
    requires
        is_listed(c),
        all_names_differ(c),
        c.databases.contains_key(a),
        c.databases[a].tables.contains_key(t),
        0 <= i < defs_of(c.databases[a], t).len(),
        storage::sorted(storage::rows_of(s, t)),
        index::can_find(defs_of(c.databases[a], t)[i].index_type, key),
    ensures
        ({
            let def = defs_of(c.databases[a], t)[i];
            let columns = c.databases[a].tables[t].columns;
            let name = query::index_key(t, def.name);
            let data = maintain::indexes_rebuilt(c, s);
            let ids = index::ids_at(data[name].map, key);
            &&& data.contains_key(name)
            &&& ids == numbers_with_key(storage::rows_of(s, t), key, def, columns)
            &&& forall|i: int, j: int|
                0 <= i < j < ids.len() ==> (#[trigger] ids[i]) < (#[trigger] ids[j])
        }),
{
    let def = defs_of(c.databases[a], t)[i];
    let columns = c.databases[a].tables[t].columns;
    lemma_all_built(c, s, a, t);
    built_index_lists_rows(storage::rows_of(s, t), key, def, columns);
    numbers_with_key_ascend(storage::rows_of(s, t), key, def, columns);
}

/// What is stored under a name is written in both cases, or left in both.
spec fn written_alike(
    data: Map<Seq<char>, IndexV>,
    after: Map<Seq<char>, IndexV>,
    data2: Map<Seq<char>, IndexV>,
    after2: Map<Seq<char>, IndexV>,
    name: Seq<char>,
) -> bool {
    ||| after.contains_key(name) && after2.contains_key(name) && after[name] == after2[name]
    ||| after.contains_key(name) == data.contains_key(name) && after[name] == data[name]
        && after2.contains_key(name) == data2.contains_key(name) && after2[name] == data2[name]
}

proof fn lemma_table_again(
    data: Map<Seq<char>, IndexV>,
    s: StorageV,
    data2: Map<Seq<char>, IndexV>,
    s2: StorageV,
    table: Seq<char>,
    columns: Seq<ColumnV>,
    defs: Seq<IndexDefV>,
    name: Seq<char>,
)
    requires
        s.tables == s2.tables,
    ensures
        written_alike(
            data,
            maintain::table_rebuilt(data, s, table, columns, defs),
            data2,
            maintain::table_rebuilt(data2, s2, table, columns, defs),
            name,
        ),
    decreases defs.len(),
{
    if defs.len() > 0 {
        lemma_table_again(data, s, data2, s2, table, columns, defs.drop_last(), name);
    }
}

proof fn lemma_tables_again(
    data: Map<Seq<char>, IndexV>,
    s: StorageV,
    data2: Map<Seq<char>, IndexV>,
    s2: StorageV,
    d: DatabaseV,
    tables: Seq<Seq<char>>,
    name: Seq<char>,
)
    requires
        s.tables == s2.tables,
    ensures
        written_alike(
            data,
            maintain::tables_rebuilt(data, s, d, tables),
            data2,
            maintain::tables_rebuilt(data2, s2, d, tables),
            name,
        ),
    decreases tables.len(),
{
    if tables.len() > 0 {
        let before = tables.drop_last();
        let t = tables.last();
        lemma_tables_again(data, s, data2, s2, d, before, name);
        lemma_table_again(
            maintain::tables_rebuilt(data, s, d, before),
            s,
            maintain::tables_rebuilt(data2, s2, d, before),
            s2,
            t,
            d.tables[t].columns,
            defs_of(d, t),
            name,
        );
    }
}

proof fn lemma_databases_again(
    data: Map<Seq<char>, IndexV>,
    s: StorageV,
    data2: Map<Seq<char>, IndexV>,
    s2: StorageV,
    c: CatalogV,
    databases: Seq<Seq<char>>,
    name: Seq<char>,
)
    requires
        s.tables == s2.tables,
    ensures
        written_alike(
            data,
            maintain::databases_rebuilt(data, s, c, databases),
            data2,
            maintain::databases_rebuilt(data2, s2, c, databases),
            name,
        ),
    decreases databases.len(),
{
    if databases.len() > 0 {
        let before = databases.drop_last();
        let b = databases.last();
        lemma_databases_again(data, s, data2, s2, c, before, name);
        if catalog::has_database(c, b) {
            let d = catalog::database(c, b);
            lemma_tables_again(
                maintain::databases_rebuilt(data, s, c, before),
                s,
                maintain::databases_rebuilt(data2, s2, c, before),
                s2,
                d,
                names::listing(d.tables),
                name,
            );
        }
    }
}

/// Rebuilding the indexes a second time changes nothing.
pub proof fn second_rebuild_changes_nothing(c: CatalogV, s: StorageV)
    ensures
        ({
            let once = StorageV { index_data: maintain::indexes_rebuilt(c, s), ..s };
            maintain::indexes_rebuilt(c, once) == once.index_data
        }),
{
    let first = maintain::indexes_rebuilt(c, s);
    let once = StorageV { index_data: first, ..s };
    let second = maintain::indexes_rebuilt(c, once);
    assert forall|name: Seq<char>| #[trigger] second.contains_key(name) == first.contains_key(name)
        && second[name] == first[name] by {
        lemma_databases_again(
            s.index_data,
            s,
            first,
            once,
            c,
            names::listing(c.databases),
            name,
        );
    }
    assert(second =~= first);
}

proof fn lemma_all_built(c: CatalogV, s: StorageV, a: Seq<char>, t: Seq<char>)
    requires
        is_listed(c),
        all_names_differ(c),
        c.databases.contains_key(a),
        c.databases[a].tables.contains_key(t),
    ensures
        all_built(
            maintain::indexes_rebuilt(c, s),
            t,
            defs_of(c.databases[a], t),
            c.databases[a].tables[t].columns,
            storage::rows_of(s, t),
        ),
{
    let databases = names::listing(c.databases);
    assert forall|k: int| 0 <= k < databases.len() implies c.databases.contains_key(
        #[trigger] databases[k],
    ) by {
        assert(databases.contains(databases[k]));
    }
    assert(databases.contains(a));
    lemma_databases_built(s.index_data, s, c, databases, a, t);
}

/// After the indexes were rebuilt, the indexes of every table hold its rows, as long
/// as different indexes are stored under different names.
pub proof fn rebuilt_indexes_hold_all_rows(c: CatalogV, s: StorageV, a: Seq<char>, t: Seq<char>)
    requires
        is_listed(c),
        all_names_differ(c),
        c.databases.contains_key(a),
        c.databases[a].tables.contains_key(t),
        storage::sorted(storage::rows_of(s, t)),
    ensures
        mirror::all_mirror(
            maintain::indexes_rebuilt(c, s),
            t,
            defs_of(c.databases[a], t),
            c.databases[a].tables[t].columns,
            storage::rows_of(s, t).to_set(),
        ),
{
    let defs = defs_of(c.databases[a], t);
    let columns = c.databases[a].tables[t].columns;
    let rows = storage::rows_of(s, t);
    let data = maintain::indexes_rebuilt(c, s);
    lemma_all_built(c, s, a, t);
    assert forall|i: int| 0 <= i < defs.len() implies ({
        let name = query::index_key(t, (#[trigger] defs[i]).name);
        data.contains_key(name) && mirror::mirrors(data[name], rows.to_set(), defs[i], columns)
    }) by {
        maintain::index_can_be_built(rows, defs[i].index_type, defs[i], columns);
        mirror::built_index_mirrors(rows, defs[i].index_type, defs[i], false, columns);
    }
}

} // verus!
