//! What the indexes promise: they hold the rows of their table, no more and no
//! less.

use vstd::prelude::*;

use crate::engine::change;
use crate::engine::eval;
use crate::engine::index;
use crate::engine::index::{IndexDefV, IndexType, IndexV};
use crate::engine::maintain;
use crate::engine::query;
use crate::engine::storage;
use crate::engine::storage::RowV;
use crate::engine::types::{ColumnV, NumbersV, Val};
use crate::sql::ast::Expression;

verus! {

/// One of the rows has the key and the number.
pub open spec fn has_entry(
    rows: Set<RowV>,
    key: Seq<Val>,
    id: u64,
    def: IndexDefV,
    columns: Seq<ColumnV>,
) -> bool {
    exists|row: RowV|
        #[trigger] rows.contains(row) && row.id == id && maintain::row_key(
            row.values,
            def,
            columns,
        ) == key
}

/// The index holds the rows: under a key that it can find stand the numbers of
/// those rows that have the key, each once, and no others.
pub open spec fn mirrors(
    v: IndexV,
    rows: Set<RowV>,
    def: IndexDefV,
    columns: Seq<ColumnV>,
) -> bool {
    &&& forall|key: Seq<Val>, id: u64|
        #[trigger] index::ids_at(v.map, key).contains(id) <==> index::can_find(v.kind, key)
            && has_entry(rows, key, id, def, columns)
    &&& forall|key: Seq<Val>| (#[trigger] index::ids_at(v.map, key)).no_duplicates()
}

/// Rows with the same number are the same.
pub open spec fn unique_ids(rows: Set<RowV>) -> bool {
    forall|a: RowV, b: RowV|
        #[trigger] rows.contains(a) && #[trigger] rows.contains(b) && a.id == b.id ==> a == b
}

pub proof fn lemma_push<T>(s: Seq<T>, x: T, y: T)
    ensures
        s.push(x).contains(y) <==> s.contains(y) || x == y,
{
    if s.contains(y) {
        let i = choose|i: int| 0 <= i < s.len() && s[i] == y;
        assert(s.push(x)[i] == y);
    }
    if x == y {
        assert(s.push(x)[s.len() as int] == y);
    }
    if s.push(x).contains(y) {
        let i = choose|i: int| 0 <= i < s.push(x).len() && s.push(x)[i] == y;
        if i < s.len() {
            assert(s[i] == y);
        }
    }
}

proof fn lemma_without(ids: Seq<u64>, id: u64, other: u64)
    ensures
        index::without(ids, id).contains(other) <==> ids.contains(other) && other != id,
        ids.no_duplicates() ==> index::without(ids, id).no_duplicates(),
    decreases ids.len(),
{
    if ids.len() > 0 {
        let before = ids.drop_last();
        lemma_without(before, id, other);
        lemma_without(before, id, ids.last());
        if ids.no_duplicates() {
            assert(!before.contains(ids.last()));
        }
        lemma_push(before, ids.last(), other);
        assert(before.push(ids.last()) =~= ids);
        lemma_push(index::without(before, id), ids.last(), other);
    }
}

/// An index that holds rows holds one more after it was entered.
proof fn lemma_enter(
    v: IndexV,
    rows: Set<RowV>,
    def: IndexDefV,
    columns: Seq<ColumnV>,
    row: RowV,
)
    requires
        mirrors(v, rows, def, columns),
        forall|r: RowV| #[trigger] rows.contains(r) ==> r.id != row.id,
    ensures
        mirrors(
            index::entered(v, maintain::row_key(row.values, def, columns), row.id),
            rows.insert(row),
            def,
            columns,
        ),
{
    let k = maintain::row_key(row.values, def, columns);
    let w = index::entered(v, k, row.id);
    let more = rows.insert(row);
    assert forall|key: Seq<Val>, id: u64| #[trigger] index::ids_at(w.map, key).contains(id)
        <==> index::can_find(w.kind, key) && has_entry(more, key, id, def, columns) by {
        lemma_push(index::ids_at(v.map, k), row.id, id);
        assert(index::ids_at(v.map, key).contains(id) <==> index::can_find(v.kind, key)
            && has_entry(rows, key, id, def, columns));
        if has_entry(rows, key, id, def, columns) {
            let r = choose|r: RowV|
                #[trigger] rows.contains(r) && r.id == id && maintain::row_key(
                    r.values,
                    def,
                    columns,
                ) == key;
            assert(more.contains(r));
        }
        if has_entry(more, key, id, def, columns) {
            let r = choose|r: RowV|
                #[trigger] more.contains(r) && r.id == id && maintain::row_key(
                    r.values,
                    def,
                    columns,
                ) == key;
            assert(r == row || rows.contains(r));
        }
        assert(more.contains(row));
    }
    assert forall|key: Seq<Val>| (#[trigger] index::ids_at(w.map, key)).no_duplicates() by {
        assert(index::ids_at(v.map, key).no_duplicates());
        if key == k && index::ids_at(v.map, k).contains(row.id) {
            assert(has_entry(rows, k, row.id, def, columns));
        }
    }
}

/// An index that holds rows holds one less after it was removed.
proof fn lemma_leave(
    v: IndexV,
    rows: Set<RowV>,
    def: IndexDefV,
    columns: Seq<ColumnV>,
    row: RowV,
)
    requires
        mirrors(v, rows, def, columns),
        unique_ids(rows),
        rows.contains(row),
    ensures
        mirrors(
            index::removed(v, maintain::row_key(row.values, def, columns), row.id),
            rows.remove(row),
            def,
            columns,
        ),
{
    let k = maintain::row_key(row.values, def, columns);
    let w = index::removed(v, k, row.id);
    let less = rows.remove(row);
    assert forall|key: Seq<Val>, id: u64| #[trigger] index::ids_at(w.map, key).contains(id)
        <==> index::can_find(w.kind, key) && has_entry(less, key, id, def, columns) by {
        lemma_without(index::ids_at(v.map, k), row.id, id);
        assert(index::ids_at(v.map, key).contains(id) <==> index::can_find(v.kind, key)
            && has_entry(rows, key, id, def, columns));
        if has_entry(less, key, id, def, columns) {
            let r = choose|r: RowV|
                #[trigger] less.contains(r) && r.id == id && maintain::row_key(
                    r.values,
                    def,
                    columns,
                ) == key;
            assert(rows.contains(r));
            assert(rows.contains(row));
            assert(key == k ==> id != row.id);
        }
        if has_entry(rows, key, id, def, columns) {
            let r = choose|r: RowV|
                #[trigger] rows.contains(r) && r.id == id && maintain::row_key(
                    r.values,
                    def,
                    columns,
                ) == key;
            if r != row {
                assert(less.contains(r));
            }
        }
    }
    assert forall|key: Seq<Val>| (#[trigger] index::ids_at(w.map, key)).no_duplicates() by {
        assert(index::ids_at(v.map, key).no_duplicates());
        lemma_without(index::ids_at(v.map, k), row.id, row.id);
    }
}

/// An index that was built from rows holds them.
pub proof fn built_index_mirrors(
    rows: Seq<RowV>,
    kind: IndexType,
    def: IndexDefV,
    unique: bool,
    columns: Seq<ColumnV>,
)
    requires
        storage::sorted(rows),
    ensures
        maintain::index_built(rows, kind, def, unique, columns) matches Ok(v) ==> mirrors(
            v,
            rows.to_set(),
            def,
            columns,
        ) && v.kind == kind,
    decreases rows.len(),
{
    if rows.len() == 0 {
        let v = maintain::fresh_index(kind);
        assert forall|key: Seq<Val>, id: u64| #[trigger] index::ids_at(v.map, key).contains(id)
            <==> index::can_find(v.kind, key) && has_entry(rows.to_set(), key, id, def, columns) by {
            assert(forall|r: RowV| !#[trigger] rows.to_set().contains(r));
        }
    } else {
        let first = rows.drop_last();
        assert(storage::sorted(first)) by {
            assert forall|i: int, j: int| 0 <= i < j < first.len() implies (#[trigger] first[i]).id
                < (#[trigger] first[j]).id by {
                assert(rows[i].id < rows[j].id);
            }
        }
        built_index_mirrors(first, kind, def, unique, columns);
        assert forall|r: RowV| #[trigger] first.to_set().contains(r) implies r.id
            != rows.last().id by {
            let i = choose|i: int| 0 <= i < first.len() && first[i] == r;
            assert(rows[i].id < rows[rows.len() - 1].id);
        }
        if let Ok(before) = maintain::index_built(rows.drop_last(), kind, def, unique, columns) {
            lemma_enter(before, rows.drop_last().to_set(), def, columns, rows.last());
            lemma_set_push(rows.drop_last(), rows.last());
            assert(rows.drop_last().push(rows.last()) =~= rows);
        }
    }
}

proof fn lemma_set_push(rows: Seq<RowV>, row: RowV)
    ensures
        rows.push(row).to_set() == rows.to_set().insert(row),
{
    assert forall|r: RowV| rows.push(row).to_set().contains(r) <==> #[trigger] rows.to_set().insert(
        row,
    ).contains(r) by {
        lemma_push(rows, row, r);
    }
    assert(rows.push(row).to_set() =~= rows.to_set().insert(row));
}

/// An index is asked by its key: it gives the rows that have the key.
pub proof fn index_finds_rows_by_key(
    v: IndexV,
    rows: Seq<RowV>,
    def: IndexDefV,
    columns: Seq<ColumnV>,
    key: Seq<Val>,
    row: RowV,
)
    requires
        storage::sorted(rows),
        mirrors(v, rows.to_set(), def, columns),
        index::can_find(v.kind, key),
    ensures
        query::rows_by_ids(rows, index::ids_at(v.map, key)).contains(row) <==> rows.contains(row)
            && maintain::row_key(row.values, def, columns) == key,
{
    let ids = index::ids_at(v.map, key);
    lemma_rows_by_ids(rows, ids, row);
    assert(ids.contains(row.id) <==> has_entry(rows.to_set(), key, row.id, def, columns));
    if rows.contains(row) {
        let i = choose|i: int| 0 <= i < rows.len() && rows[i] == row;
        storage::lemma_found(rows, i);
        if maintain::row_key(row.values, def, columns) == key {
            assert(rows.to_set().contains(row));
        }
        if ids.contains(row.id) {
            let r = choose|r: RowV|
                #[trigger] rows.to_set().contains(r) && r.id == row.id && maintain::row_key(
                    r.values,
                    def,
                    columns,
                ) == key;
            let j = choose|j: int| 0 <= j < rows.len() && rows[j] == r;
            storage::lemma_found(rows, j);
        }
    }
}

proof fn lemma_rows_by_ids(rows: Seq<RowV>, ids: Seq<u64>, row: RowV)
    requires
        storage::sorted(rows),
    ensures
        query::rows_by_ids(rows, ids).contains(row) <==> rows.contains(row) && ids.contains(row.id),
    decreases ids.len(),
{
    if ids.len() > 0 {
        let before = ids.drop_last();
        lemma_rows_by_ids(rows, before, row);
        lemma_push(before, ids.last(), row.id);
        assert(before.push(ids.last()) =~= ids);
        match storage::row_at(rows, ids.last()) {
            Some(found) => {
                lemma_push(query::rows_by_ids(rows, before), found, row);
                let p = storage::place(rows, ids.last());
                storage::lemma_place(rows, ids.last());
                assert(rows[p] == found);
                if rows.contains(row) && row.id == ids.last() {
                    let i = choose|i: int| 0 <= i < rows.len() && rows[i] == row;
                    storage::lemma_found(rows, i);
                }
            },
            None => {
                if rows.contains(row) && row.id == ids.last() {
                    let i = choose|i: int| 0 <= i < rows.len() && rows[i] == row;
                    storage::lemma_found(rows, i);
                }
            },
        }
    }
}

/// A query that uses an index finds no row that a walk through the table would
/// not find.
pub proof fn index_finds_only_selected_rows(
    s: storage::StorageV,
    table: Seq<char>,
    selection: Option<Expression>,
    columns: Seq<ColumnV>,
    indexes: Seq<IndexDefV>,
    n: NumbersV,
    row: RowV,
)
    requires
        storage::sorted(storage::rows_of(s, table)),
        query::found_rows(s, table, selection, columns, indexes, n).contains(row),
    ensures
        query::selected(storage::rows_of(s, table), selection, columns, n).contains(row),
{
    let rows = storage::rows_of(s, table);
    change::selection_splits_rows(rows, selection, columns, n, row);
    let answer = match selection {
        Some(e) => query::index_answer(
            s.index_data,
            table,
            eval::demands(n, e, Map::empty()),
            indexes,
        ),
        None => None,
    };
    if let Some(ids) = answer {
        change::selection_splits_rows(query::rows_by_ids(rows, ids), selection, columns, n, row);
        lemma_rows_by_ids(rows, ids, row);
    }
}

// ---------------------------------------------------------------------------
// All indexes of a table
// ---------------------------------------------------------------------------

/// The names under which the indexes of a table are stored differ.
pub open spec fn distinct_names(table: Seq<char>, defs: Seq<IndexDefV>) -> bool {
    forall|i: int, j: int|
        0 <= i < j < defs.len() ==> query::index_key(table, (#[trigger] defs[i]).name)
            != query::index_key(table, (#[trigger] defs[j]).name)
}

/// Every index of a table is stored and holds the rows.
pub open spec fn all_mirror(
    data: Map<Seq<char>, IndexV>,
    table: Seq<char>,
    defs: Seq<IndexDefV>,
    columns: Seq<ColumnV>,
    rows: Set<RowV>,
) -> bool {
    forall|i: int|
        0 <= i < defs.len() ==> {
            let name = query::index_key(table, (#[trigger] defs[i]).name);
            data.contains_key(name) && mirrors(data[name], rows, defs[i], columns)
        }
}

proof fn lemma_row_entered(
    data: Map<Seq<char>, IndexV>,
    table: Seq<char>,
    defs: Seq<IndexDefV>,
    columns: Seq<ColumnV>,
    row: RowV,
    n: int,
)
    requires
        0 <= n <= defs.len(),
        distinct_names(table, defs),
        forall|i: int|
            0 <= i < defs.len() ==> data.contains_key(
                query::index_key(table, (#[trigger] defs[i]).name),
            ),
    ensures
        forall|i: int|
            0 <= i < defs.len() ==> {
                let name = query::index_key(table, (#[trigger] defs[i]).name);
                let after = maintain::row_entered(data, table, defs.take(n), columns, row);
                &&& after.contains_key(name)
                &&& after[name] == (if i < n {
                    index::entered(
                        data[name],
                        maintain::row_key(row.values, defs[i], columns),
                        row.id,
                    )
                } else {
                    data[name]
                })
            },
    decreases n,
{
    if n > 0 {
        lemma_row_entered(data, table, defs, columns, row, n - 1);
        let now = defs.take(n);
        assert(now.drop_last() =~= defs.take(n - 1));
        assert(now.last() == defs[n - 1]);
        assert forall|i: int| 0 <= i < defs.len() implies ({
            let name = query::index_key(table, (#[trigger] defs[i]).name);
            let after = maintain::row_entered(data, table, now, columns, row);
            &&& after.contains_key(name)
            &&& after[name] == (if i < n {
                index::entered(
                    data[name],
                    maintain::row_key(row.values, defs[i], columns),
                    row.id,
                )
            } else {
                data[name]
            })
        }) by {
            let own = query::index_key(table, defs[n - 1].name);
            let name = query::index_key(table, defs[i].name);
            if i < n - 1 {
                assert(name != own);
            } else if i > n - 1 {
                assert(own != name);
            }
        }
    } else {
        assert(defs.take(0) =~= Seq::<IndexDefV>::empty());
    }
}

proof fn lemma_row_left(
    data: Map<Seq<char>, IndexV>,
    table: Seq<char>,
    defs: Seq<IndexDefV>,
    columns: Seq<ColumnV>,
    row: RowV,
    n: int,
)
    requires
        0 <= n <= defs.len(),
        distinct_names(table, defs),
        forall|i: int|
            0 <= i < defs.len() ==> data.contains_key(
                query::index_key(table, (#[trigger] defs[i]).name),
            ),
    ensures
        forall|i: int|
            0 <= i < defs.len() ==> {
                let name = query::index_key(table, (#[trigger] defs[i]).name);
                let after = maintain::row_left(data, table, defs.take(n), columns, row);
                &&& after.contains_key(name)
                &&& after[name] == (if i < n {
                    index::removed(
                        data[name],
                        maintain::row_key(row.values, defs[i], columns),
                        row.id,
                    )
                } else {
                    data[name]
                })
            },
    decreases n,
{
    if n > 0 {
        lemma_row_left(data, table, defs, columns, row, n - 1);
        let now = defs.take(n);
        assert(now.drop_last() =~= defs.take(n - 1));
        assert(now.last() == defs[n - 1]);
        assert forall|i: int| 0 <= i < defs.len() implies ({
            let name = query::index_key(table, (#[trigger] defs[i]).name);
            let after = maintain::row_left(data, table, now, columns, row);
            &&& after.contains_key(name)
            &&& after[name] == (if i < n {
                index::removed(
                    data[name],
                    maintain::row_key(row.values, defs[i], columns),
                    row.id,
                )
            } else {
                data[name]
            })
        }) by {
            let own = query::index_key(table, defs[n - 1].name);
            let name = query::index_key(table, defs[i].name);
            if i < n - 1 {
                assert(name != own);
            } else if i > n - 1 {
                assert(own != name);
            }
        }
    } else {
        assert(defs.take(0) =~= Seq::<IndexDefV>::empty());
    }
}

/// Rows of a sequence were added to a set.
pub open spec fn with_rows(rows: Set<RowV>, more: Seq<RowV>) -> Set<RowV>
    decreases more.len(),
{
    if more.len() == 0 {
        rows
    } else {
        with_rows(rows, more.drop_last()).insert(more.last())
    }
}

/// Rows of a sequence were taken out of a set.
pub open spec fn without_rows(rows: Set<RowV>, gone: Seq<RowV>) -> Set<RowV>
    decreases gone.len(),
{
    if gone.len() == 0 {
        rows
    } else {
        without_rows(rows, gone.drop_last()).remove(gone.last())
    }
}

/// No two of the rows to be added have the same number, nor has one the number of a
/// row of the set.
pub open spec fn new_ids(rows: Set<RowV>, more: Seq<RowV>) -> bool {
    &&& forall|r: RowV, i: int|
        0 <= i < more.len() && #[trigger] rows.contains(r) ==> r.id != (#[trigger] more[i]).id
    &&& forall|i: int, j: int|
        0 <= i < j < more.len() ==> (#[trigger] more[i]).id != (#[trigger] more[j]).id
}

/// Entering rows into all indexes of a table keeps the indexes in step.
pub proof fn entering_keeps_indexes(
    data: Map<Seq<char>, IndexV>,
    table: Seq<char>,
    defs: Seq<IndexDefV>,
    columns: Seq<ColumnV>,
    rows: Set<RowV>,
    more: Seq<RowV>,
)
    requires
        distinct_names(table, defs),
        all_mirror(data, table, defs, columns, rows),
        new_ids(rows, more),
    ensures
        all_mirror(
            maintain::rows_entered(data, table, defs, columns, more),
            table,
            defs,
            columns,
            with_rows(rows, more),
        ),
    decreases more.len(),
{
    if more.len() > 0 {
        let before = more.drop_last();
        let row = more.last();
        assert(more[more.len() - 1] == row);
        assert(new_ids(rows, before)) by {
            assert forall|r: RowV, i: int| 0 <= i < before.len() && #[trigger] rows.contains(
                r,
            ) implies r.id != (#[trigger] before[i]).id by {
                assert(before[i] == more[i]);
            }
            assert forall|i: int, j: int| 0 <= i < j < before.len() implies (#[trigger] before[i]).id
                != (#[trigger] before[j]).id by {
                assert(more[i].id != more[j].id);
            }
        }
        entering_keeps_indexes(data, table, defs, columns, rows, before);
        assert forall|r: RowV| #[trigger] with_rows(rows, before).contains(r) implies r.id
            != row.id by {
            lemma_with_rows(rows, before, r);
            if rows.contains(r) {
                assert(r.id != more[more.len() - 1].id);
            } else {
                let i = choose|i: int| 0 <= i < before.len() && before[i] == r;
                assert(more[i].id != more[more.len() - 1].id);
            }
        }
        let d = maintain::rows_entered(data, table, defs, columns, before);
        lemma_row_entered(d, table, defs, columns, row, defs.len() as int);
        assert(defs.take(defs.len() as int) =~= defs);
        let after = maintain::rows_entered(data, table, defs, columns, more);
        assert forall|i: int| 0 <= i < defs.len() implies ({
            let name = query::index_key(table, (#[trigger] defs[i]).name);
            after.contains_key(name) && mirrors(
                after[name],
                with_rows(rows, more),
                defs[i],
                columns,
            )
        }) by {
            let name = query::index_key(table, defs[i].name);
            lemma_enter(d[name], with_rows(rows, before), defs[i], columns, row);
        }
    }
}

pub proof fn lemma_without_rows(rows: Set<RowV>, gone: Seq<RowV>, row: RowV)
    ensures
        without_rows(rows, gone).contains(row) <==> rows.contains(row) && !gone.contains(row),
    decreases gone.len(),
{
    if gone.len() > 0 {
        let before = gone.drop_last();
        lemma_without_rows(rows, before, row);
        lemma_push(before, gone.last(), row);
        assert(before.push(gone.last()) =~= gone);
    }
}

pub proof fn lemma_with_rows(rows: Set<RowV>, more: Seq<RowV>, row: RowV)
    ensures
        with_rows(rows, more).contains(row) <==> rows.contains(row) || more.contains(row),
    decreases more.len(),
{
    if more.len() > 0 {
        let before = more.drop_last();
        lemma_with_rows(rows, before, row);
        lemma_push(before, more.last(), row);
        assert(before.push(more.last()) =~= more);
    }
}

/// Removing rows from all indexes of a table keeps the indexes in step.
pub proof fn leaving_keeps_indexes(
    data: Map<Seq<char>, IndexV>,
    table: Seq<char>,
    defs: Seq<IndexDefV>,
    columns: Seq<ColumnV>,
    rows: Set<RowV>,
    gone: Seq<RowV>,
)
    requires
        distinct_names(table, defs),
        all_mirror(data, table, defs, columns, rows),
        unique_ids(rows),
        gone.no_duplicates(),
        forall|i: int| 0 <= i < gone.len() ==> rows.contains(#[trigger] gone[i]),
    ensures
        all_mirror(
            maintain::rows_left(data, table, defs, columns, gone),
            table,
            defs,
            columns,
            without_rows(rows, gone),
        ),
    decreases gone.len(),
{
    if gone.len() > 0 {
        let before = gone.drop_last();
        let row = gone.last();
        assert forall|i: int| 0 <= i < before.len() implies rows.contains(#[trigger] before[i]) by {
            assert(before[i] == gone[i]);
        }
        leaving_keeps_indexes(data, table, defs, columns, rows, before);
        let d = maintain::rows_left(data, table, defs, columns, before);
        let left = without_rows(rows, before);
        lemma_row_left(d, table, defs, columns, row, defs.len() as int);
        assert(defs.take(defs.len() as int) =~= defs);
        assert(left.contains(row)) by {
            lemma_without_rows(rows, before, row);
            assert(gone[gone.len() - 1] == row);
            if before.contains(row) {
                let i = choose|i: int| 0 <= i < before.len() && before[i] == row;
                assert(gone[i] == gone[gone.len() - 1]);
            }
        }
        assert(unique_ids(left)) by {
            assert forall|a: RowV, b: RowV|
                #[trigger] left.contains(a) && #[trigger] left.contains(b) && a.id
                    == b.id implies a == b by {
                lemma_without_rows(rows, before, a);
                lemma_without_rows(rows, before, b);
            }
        }
        let after = maintain::rows_left(data, table, defs, columns, gone);
        assert forall|i: int| 0 <= i < defs.len() implies ({
            let name = query::index_key(table, (#[trigger] defs[i]).name);
            after.contains_key(name) && mirrors(
                after[name],
                without_rows(rows, gone),
                defs[i],
                columns,
            )
        }) by {
            let name = query::index_key(table, defs[i].name);
            lemma_leave(d[name], left, defs[i], columns, row);
        }
    }
}

} // verus!
