//! What queries answer: which rows, in which order, which of them and what of them.

use vstd::prelude::*;

use crate::engine::amounts;
use crate::engine::catalog;
use crate::engine::change;
use crate::engine::eval;
use crate::engine::eval::Line;
use crate::engine::executor;
use crate::engine::executor::{ExecV, ResultV};
use crate::engine::laws;
use crate::engine::query;
use crate::engine::storage;
use crate::engine::storage::{RowV, StorageV};
use crate::engine::types::{ColumnV, NumbersV, Val};
use crate::model;
use crate::order;
use crate::sql::ast::{
    Expression, Literal, Node, OrderSpec, Projection, QueryBody, SelectQuery, SqlStatement,
};
use crate::text;

verus! {

// ---------------------------------------------------------------------------
// Which rows
// ---------------------------------------------------------------------------

/// A query reads a table that is there, with a condition or without.
pub open spec fn reads(
    x: ExecV,
    db: Seq<char>,
    q: SelectQuery,
    table: Seq<char>,
    columns: Seq<ColumnV>,
    selection: Option<Expression>,
) -> bool {
    &&& q.body matches QueryBody::Select { projection, from, selection: s } && s == selection
        && from@.len() > 0 && crate::sql::ast::table_text(from@[0]) == table
    &&& catalog::table_of(x.catalog, db, table) matches Ok(t) && t.columns == columns
}

/// The rows for which a condition holds, in the order in which they are stored.
pub open spec fn rows_with(
    x: ExecV,
    table: Seq<char>,
    columns: Seq<ColumnV>,
    selection: Option<Expression>,
) -> Seq<RowV> {
    storage::rows_of(x.storage, table).filter(
        |row: RowV|
            eval::is_selected(
                Line { numbers: x.numbers, columns, values: row.values },
                selection,
            ),
    )
}

/// What a `SELECT` gives, where it does not fail.
pub open spec fn answer(x: ExecV, db: Seq<char>, q: SelectQuery, now: u64) -> Option<
    (Seq<ColumnV>, Seq<RowV>),
> {
    match executor::statement_outcome(x, db, SqlStatement::Select(q), now).result {
        Ok(ResultV::Rows { columns, list }) => Some((columns, list)),
        _ => None,
    }
}

/// The rows that a condition selects are those for which it holds, in their order.
pub proof fn selected_rows_satisfy(
    rows: Seq<RowV>,
    columns: Seq<ColumnV>,
    selection: Option<Expression>,
    n: NumbersV,
)
    ensures
        query::selected(rows, selection, columns, n) == rows.filter(
            |row: RowV|
                eval::is_selected(Line { numbers: n, columns, values: row.values }, selection),
        ),
    decreases rows.len(),
{
    reveal(Seq::filter);
    if rows.len() > 0 {
        selected_rows_satisfy(rows.drop_last(), columns, selection, n);
    }
}

/// The query puts out all columns, in the order of the table.
pub open spec fn puts_out_all(q: SelectQuery) -> bool {
    q.body matches QueryBody::Select { projection, from, selection } && projection@.len() == 1
        && projection@[0] is Wildcard
}

proof fn lemma_all_put_out(items: Seq<Projection>, columns: Seq<ColumnV>, table: Seq<char>)
    requires
        items.len() == 1,
        items[0] is Wildcard,
    ensures
        query::result_columns(items, columns, table) == columns,
        forall|values: Seq<Val>| #[trigger] query::result_values(items, columns, values) == values,
{
    reveal_with_fuel(query::result_columns, 2);
    reveal_with_fuel(query::result_values, 2);
    assert(items.drop_last() =~= Seq::<Projection>::empty());
    assert(items.last() == items[0]);
    assert(Seq::<ColumnV>::empty() + columns =~= columns);
    assert forall|values: Seq<Val>| #[trigger]
        query::result_values(items, columns, values) == values by {
        assert(Seq::<Val>::empty() + values =~= values);
    }
}

/// `SELECT * FROM t WHERE ..` on a table without an index gives the stored rows for which
/// the condition holds, each with all its values, in the order in which they are stored.
pub proof fn select_gives_rows_that_satisfy(
    x: ExecV,
    db: Seq<char>,
    q: SelectQuery,
    now: u64,
    table: Seq<char>,
    columns: Seq<ColumnV>,
    selection: Option<Expression>,
)
    requires
        reads(x, db, q, table, columns, selection),
        puts_out_all(q),
        q.order_by@.len() == 0,
        q.offset is None,
        q.limit is None,
        catalog::indexes_of(x.catalog, db, table).len() == 0 || selection is None,
    ensures
        answer(x, db, q, now) matches Some((out, list)) && out == columns && list.len()
            == rows_with(x, table, columns, selection).len() && forall|i: int|
            0 <= i < list.len() ==> (#[trigger] list[i]).values == rows_with(
                x,
                table,
                columns,
                selection,
            )[i].values,
{
    let rows = storage::rows_of(x.storage, table);
    let indexes = catalog::indexes_of(x.catalog, db, table);
    selected_rows_satisfy(rows, columns, selection, x.numbers);
    if let Some(e) = selection {
        model::lemma_first(
            indexes,
            query::answers(
                x.storage.index_data,
                table,
                eval::demands(x.numbers, e, Map::empty()),
            ),
        );
    }
    if let QueryBody::Select { projection, from, selection: s } = q.body {
        lemma_all_put_out(projection@, columns, table);
        let found = query::found_rows(
            x.storage,
            table,
            selection,
            columns,
            indexes,
            x.numbers,
        );
        assert(found == rows_with(x, table, columns, selection));
        assert(query::ordered(found, q.order_by@, columns) == found);
        let out = query::result_rows(projection@, columns, found);
        assert(query::page(out, None, None) =~= out);
    }
}

/// Whether or not an index is used, a `SELECT * FROM t WHERE ..` gives only stored rows
/// for which the condition holds.
pub proof fn select_gives_only_rows_that_satisfy(
    x: ExecV,
    db: Seq<char>,
    q: SelectQuery,
    now: u64,
    table: Seq<char>,
    columns: Seq<ColumnV>,
    selection: Option<Expression>,
    i: int,
)
    requires
        reads(x, db, q, table, columns, selection),
        puts_out_all(q),
        storage::sorted(storage::rows_of(x.storage, table)),
        answer(x, db, q, now) matches Some((out, list)) && 0 <= i < list.len(),
    ensures
        answer(x, db, q, now) matches Some((out, list)) && eval::is_selected(
            Line { numbers: x.numbers, columns, values: list[i].values },
            selection,
        ) && exists|row: RowV| #[trigger]
            storage::rows_of(x.storage, table).contains(row) && row.values == list[i].values,
{
    lemma_answer(x, db, q, now, table, columns, selection);
    let all = gathered(x, db, q, table, columns, selection);
    let items = q.body->Select_projection@;
    lemma_all_put_out(items, columns, table);
    laws::page_is_a_run_of_rows(query::result_rows(items, columns, all), q.offset, q.limit);
    let start = match q.offset {
        Some(e) => query::count_of(e),
        None => 0,
    };
    lemma_gathered(x, db, q, table, columns, selection, start + i);
    assert(storage::rows_of(x.storage, table).contains(all[start + i]));
}

proof fn lemma_found(
    s: StorageV,
    table: Seq<char>,
    selection: Option<Expression>,
    columns: Seq<ColumnV>,
    indexes: Seq<crate::engine::index::IndexDefV>,
    n: NumbersV,
    row: RowV,
)
    requires
        storage::sorted(storage::rows_of(s, table)),
        query::found_rows(s, table, selection, columns, indexes, n).contains(row),
    ensures
        storage::rows_of(s, table).contains(row),
        query::is_selected(row, selection, columns, n),
{
    let rows = storage::rows_of(s, table);
    let answer = match selection {
        Some(e) => query::index_answer(
            s.index_data,
            table,
            eval::demands(n, e, Map::empty()),
            indexes,
        ),
        None => None,
    };
    match answer {
        Some(ids) => {
            change::selection_splits_rows(
                query::rows_by_ids(rows, ids),
                selection,
                columns,
                n,
                row,
            );
            lemma_rows_by_ids(rows, ids, row);
        },
        None => {
            change::selection_splits_rows(rows, selection, columns, n, row);
        },
    }
}

proof fn lemma_rows_by_ids(rows: Seq<RowV>, ids: Seq<u64>, row: RowV)
    requires
        storage::sorted(rows),
        query::rows_by_ids(rows, ids).contains(row),
    ensures
        rows.contains(row),
    decreases ids.len(),
{
    if ids.len() > 0 {
        let before = query::rows_by_ids(rows, ids.drop_last());
        storage::lemma_place(rows, ids.last());
        let all = query::rows_by_ids(rows, ids);
        let i = choose|i: int| 0 <= i < all.len() && all[i] == row;
        if i < before.len() {
            assert(before[i] == row);
            lemma_rows_by_ids(rows, ids.drop_last(), row);
        } else {
            assert(row == rows[storage::place(rows, ids.last())]);
        }
    }
}

/// The rows of a query, in order, before anything is put out of them.
#[verifier::opaque]
spec fn gathered(
    x: ExecV,
    db: Seq<char>,
    q: SelectQuery,
    table: Seq<char>,
    columns: Seq<ColumnV>,
    selection: Option<Expression>,
) -> Seq<RowV> {
    query::ordered(
        query::found_rows(
            x.storage,
            table,
            selection,
            columns,
            catalog::indexes_of(x.catalog, db, table),
            x.numbers,
        ),
        q.order_by@,
        columns,
    )
}

proof fn lemma_answer(
    x: ExecV,
    db: Seq<char>,
    q: SelectQuery,
    now: u64,
    table: Seq<char>,
    columns: Seq<ColumnV>,
    selection: Option<Expression>,
)
    requires
        reads(x, db, q, table, columns, selection),
    ensures
        answer(x, db, q, now) == Some(
            (
                query::result_columns(q.body->Select_projection@, columns, table),
                query::page(
                    query::result_rows(
                        q.body->Select_projection@,
                        columns,
                        gathered(x, db, q, table, columns, selection),
                    ),
                    q.offset,
                    q.limit,
                ),
            ),
        ),
{
    reveal(gathered);
}

proof fn lemma_gathered(
    x: ExecV,
    db: Seq<char>,
    q: SelectQuery,
    table: Seq<char>,
    columns: Seq<ColumnV>,
    selection: Option<Expression>,
    i: int,
)
    requires
        storage::sorted(storage::rows_of(x.storage, table)),
        0 <= i < gathered(x, db, q, table, columns, selection).len(),
    ensures
        ({
            let row = gathered(x, db, q, table, columns, selection)[i];
            storage::rows_of(x.storage, table).contains(row) && query::is_selected(
                row,
                selection,
                columns,
                x.numbers,
            )
        }),
{
    broadcast use vstd::seq_lib::group_to_multiset_ensures;

    reveal(gathered);
    let indexes = catalog::indexes_of(x.catalog, db, table);
    let found = query::found_rows(x.storage, table, selection, columns, indexes, x.numbers);
    let rows = query::ordered(found, q.order_by@, columns);
    let row = rows[i];
    laws::ordering_keeps_rows(found, q.order_by@, columns);
    assert(rows.contains(row));
    assert(found.contains(row)) by {
        assert(found.to_multiset().count(row) > 0);
    }
    lemma_found(x.storage, table, selection, columns, indexes, x.numbers, row);
}

// ---------------------------------------------------------------------------
// What of them
// ---------------------------------------------------------------------------

/// What stands at some places, in the order of the places.
pub open spec fn picked<T>(s: Seq<T>, places: Seq<int>) -> Seq<T> {
    Seq::new(places.len(), |k: int| s[places[k]])
}

/// The items of a query are names of columns at the given places.
pub open spec fn names_places(
    items: Seq<Projection>,
    columns: Seq<ColumnV>,
    places: Seq<int>,
) -> bool {
    &&& items.len() == places.len()
    &&& forall|k: int|
        0 <= k < items.len() ==> 0 <= places[k] < columns.len() && (#[trigger] items[k] matches Projection::Plain(
            e,
        ) && (e.node matches Node::Identifier(name) && text::same_name(
            columns[places[k]].name,
            name@,
        ) && forall|j: int|
            0 <= j < places[k] ==> !text::same_name((#[trigger] columns[j]).name, name@)))
}

/// A name means the first column that has it.
pub proof fn name_means_first_column(columns: Seq<ColumnV>, name: Seq<char>, p: int)
    requires
        0 <= p < columns.len(),
        text::same_name(columns[p].name, name),
        forall|j: int| 0 <= j < p ==> !text::same_name((#[trigger] columns[j]).name, name),
    ensures
        eval::column_place(columns, name) == Some(p),
{
    let named = eval::has_name(name);
    assert(named(columns[p]));
    assert forall|j: int| 0 <= j < p implies !named(#[trigger] columns[j]) by {
    }
    model::lemma_first_is(columns, named, p);
}

proof fn lemma_named_items(
    items: Seq<Projection>,
    columns: Seq<ColumnV>,
    places: Seq<int>,
    table: Seq<char>,
    values: Seq<Val>,
)
    requires
        names_places(items, columns, places),
        values.len() == columns.len(),
    ensures
        query::result_columns(items, columns, table) == picked(columns, places),
        query::result_values(items, columns, values) == picked(values, places),
    decreases items.len(),
{
    if items.len() > 0 {
        let before = items.drop_last();
        let k = items.len() - 1;
        assert(names_places(before, columns, places.drop_last())) by {
            assert forall|m: int| 0 <= m < before.len() implies 0 <= places.drop_last()[m]
                < columns.len() && (#[trigger] before[m] matches Projection::Plain(e) && (e.node matches Node::Identifier(
                name,
            ) && text::same_name(columns[places.drop_last()[m]].name, name@) && forall|j: int|
                0 <= j < places.drop_last()[m] ==> !text::same_name(
                    (#[trigger] columns[j]).name,
                    name@,
                ))) by {
                assert(items[m] == before[m]);
            }
        }
        lemma_named_items(before, columns, places.drop_last(), table, values);
        assert(items[k] == items.last());
        if let Projection::Plain(e) = items[k] {
            if let Node::Identifier(name) = e.node {
                name_means_first_column(columns, name@, places[k]);
            }
        }
    }
    assert(query::result_columns(items, columns, table) =~= picked(columns, places));
    assert(query::result_values(items, columns, values) =~= picked(values, places));
}

proof fn lemma_named_rows(
    items: Seq<Projection>,
    columns: Seq<ColumnV>,
    places: Seq<int>,
    table: Seq<char>,
    rows: Seq<RowV>,
)
    requires
        names_places(items, columns, places),
        forall|i: int| 0 <= i < rows.len() ==> (#[trigger] rows[i]).values.len() == columns.len(),
    ensures
        query::result_columns(items, columns, table) == picked(columns, places),
        forall|i: int|
            0 <= i < rows.len() ==> (#[trigger] query::result_rows(items, columns, rows)[i]).values
                == picked(rows[i].values, places),
{
    lemma_named_items(items, columns, places, table, Seq::new(columns.len(), |i: int| Val::Null));
    assert forall|i: int| 0 <= i < rows.len() implies (
    #[trigger] query::result_rows(items, columns, rows)[i]).values == picked(
        rows[i].values,
        places,
    ) by {
        lemma_named_items(items, columns, places, table, rows[i].values);
    }
}

/// A query that names columns gives what the same query gives with all columns, but of
/// each row the values of the named columns, in the order in which they are named.
pub proof fn named_columns_are_put_out(
    x: ExecV,
    db: Seq<char>,
    q: SelectQuery,
    whole: SelectQuery,
    now: u64,
    table: Seq<char>,
    columns: Seq<ColumnV>,
    selection: Option<Expression>,
    places: Seq<int>,
)
    requires
        reads(x, db, q, table, columns, selection),
        reads(x, db, whole, table, columns, selection),
        puts_out_all(whole),
        names_places(q.body->Select_projection@, columns, places),
        q.order_by@ == whole.order_by@,
        q.offset is None,
        q.limit is None,
        whole.offset is None,
        whole.limit is None,
        storage::sorted(storage::rows_of(x.storage, table)),
        forall|row: RowV| #[trigger]
            storage::rows_of(x.storage, table).contains(row) ==> row.values.len()
                == columns.len(),
    ensures
        answer(x, db, q, now) matches Some((out, list)) && answer(x, db, whole, now) matches Some(
            (all_out, all),
        ) && all_out == columns && out == picked(columns, places) && list.len() == all.len()
            && forall|i: int|
            0 <= i < list.len() ==> (#[trigger] list[i]).values == picked(all[i].values, places),
{
    let items = q.body->Select_projection@;
    let star = whole.body->Select_projection@;
    lemma_answer(x, db, q, now, table, columns, selection);
    lemma_answer(x, db, whole, now, table, columns, selection);
    lemma_all_put_out(star, columns, table);
    let rows = gathered(x, db, q, table, columns, selection);
    assert(rows == gathered(x, db, whole, table, columns, selection)) by {
        reveal(gathered);
    }
    assert forall|i: int| 0 <= i < rows.len() implies (#[trigger] rows[i]).values.len()
        == columns.len() by {
        lemma_gathered(x, db, q, table, columns, selection, i);
    }
    lemma_named_rows(items, columns, places, table, rows);
    let some = query::result_rows(items, columns, rows);
    let full = query::result_rows(star, columns, rows);
    assert(query::page(some, None, None) =~= some);
    assert(query::page(full, None, None) =~= full);
}

// ---------------------------------------------------------------------------
// In which order
// ---------------------------------------------------------------------------

/// A value comes before another: a number before a greater one, a text before one that
/// is greater by the first byte in which they differ.
pub open spec fn precedes(a: Val, b: Val) -> bool {
    match (amounts::amount(a), amounts::amount(b)) {
        (Some(x), Some(y)) => x < y,
        _ => match (a, b) {
            (Val::Text(s), Val::Text(t)) => order::come_before(
                vstd::utf8::encode_utf8(s),
                vstd::utf8::encode_utf8(t),
            ),
            _ => false,
        },
    }
}

/// All rows have numbers of a known amount in a column, or all have texts.
pub open spec fn of_one_kind(rows: Seq<RowV>, p: int) -> bool {
    ||| forall|i: int|
        0 <= i < rows.len() ==> 0 <= p < (#[trigger] rows[i]).values.len() && amounts::amount(
            rows[i].values[p],
        ) is Some
    ||| forall|i: int|
        0 <= i < rows.len() ==> 0 <= p < (#[trigger] rows[i]).values.len() && rows[i].values[p]
            is Text
}

/// The expressions of an `ORDER BY` are names of columns at the given places, and ascend
/// unless they are marked as descending.
pub open spec fn orders_by(
    specs: Seq<OrderSpec>,
    columns: Seq<ColumnV>,
    keys: Seq<(int, bool)>,
) -> bool {
    &&& specs.len() == keys.len()
    &&& forall|k: int|
        0 <= k < specs.len() ==> 0 <= keys[k].0 < columns.len() && keys[k].1 == !((
        #[trigger] specs[k]).ascending == Some(false)) && (specs[k].expr.node matches Node::Identifier(
            name,
        ) && text::same_name(columns[keys[k].0].name, name@) && forall|j: int|
            0 <= j < keys[k].0 ==> !text::same_name((#[trigger] columns[j]).name, name@))
}

/// A row comes before another by some keys: by the first in which one value comes before
/// the other; where the key descends, by that the other value comes first.
pub open spec fn precedes_by(a: Seq<Val>, b: Seq<Val>, keys: Seq<(int, bool)>) -> bool
    decreases keys.len(),
{
    if keys.len() == 0 {
        false
    } else {
        let (p, up) = keys[0];
        let first = if up {
            precedes(a[p], b[p])
        } else {
            precedes(b[p], a[p])
        };
        let second = if up {
            precedes(b[p], a[p])
        } else {
            precedes(a[p], b[p])
        };
        first || (!second && precedes_by(a, b, keys.drop_first()))
    }
}

/// What it means that a row must stand behind another in the order of one column.
pub proof fn rows_stand_by_value(a: RowV, b: RowV, p: int, up: bool)
    requires
        0 <= p < a.values.len(),
        0 <= p < b.values.len(),
        (amounts::amount(a.values[p]) is Some && amounts::amount(b.values[p]) is Some) || (
        a.values[p] is Text && b.values[p] is Text),
    ensures
        query::behind(a, b, p, up) <==> if up {
            precedes(b.values[p], a.values[p])
        } else {
            precedes(a.values[p], b.values[p])
        },
{
    let n = NumbersV { literals: Map::empty(), doubles: Map::empty(), singles: Map::empty() };
    match (a.values[p], b.values[p]) {
        (Val::Text(s), Val::Text(t)) => {
            amounts::texts_compare_by_bytes(n, s, t, 0);
        },
        _ => {
            amounts::numbers_compare_by_amount(n, a.values[p], b.values[p]);
        },
    }
}

proof fn lemma_kinds_order(rows: Seq<RowV>, p: int, up: bool)
    requires
        of_one_kind(rows, p),
    ensures
        laws::orders(|r: RowV| rows.contains(r), p, up),
{
    let kind = |r: RowV| rows.contains(r);
    if forall|i: int|
        0 <= i < rows.len() ==> 0 <= p < (#[trigger] rows[i]).values.len() && rows[i].values[p]
            is Text {
        laws::texts_have_order(rows, p, up);
    } else {
        assert forall|a: RowV| #[trigger] kind(a) implies 0 <= p < a.values.len()
            && amounts::amount(a.values[p]) is Some by {
            let i = choose|i: int| 0 <= i < rows.len() && rows[i] == a;
        }
        assert forall|a: RowV, b: RowV|
            kind(a) && kind(b) && #[trigger] query::behind(a, b, p, up) implies !query::behind(
            b,
            a,
            p,
            up,
        ) by {
            rows_stand_by_value(a, b, p, up);
            rows_stand_by_value(b, a, p, up);
        }
        assert forall|a: RowV, b: RowV, c: RowV|
            kind(a) && kind(b) && kind(c) && !(#[trigger] query::behind(a, b, p, up)) && !(
            #[trigger] query::behind(b, c, p, up)) implies !query::behind(a, c, p, up) by {
            rows_stand_by_value(a, b, p, up);
            rows_stand_by_value(b, c, p, up);
            rows_stand_by_value(a, c, p, up);
        }
    }
}

proof fn lemma_key(specs: Seq<OrderSpec>, columns: Seq<ColumnV>, keys: Seq<(int, bool)>, k: int)
    requires
        orders_by(specs, columns, keys),
        0 <= k < specs.len(),
    ensures
        laws::key_of(specs[k], columns) == Some(keys[k]),
{
    if let Node::Identifier(name) = specs[k].expr.node {
        name_means_first_column(columns, name@, keys[k].0);
    }
}

proof fn lemma_comes_after(
    rows: Seq<RowV>,
    specs: Seq<OrderSpec>,
    columns: Seq<ColumnV>,
    keys: Seq<(int, bool)>,
    a: RowV,
    b: RowV,
)
    requires
        orders_by(specs, columns, keys),
        rows.contains(a),
        rows.contains(b),
        forall|k: int| 0 <= k < keys.len() ==> of_one_kind(rows, (#[trigger] keys[k]).0),
    ensures
        laws::comes_after(a, b, specs, columns) <==> precedes_by(b.values, a.values, keys),
    decreases specs.len(),
{
    if specs.len() > 0 {
        lemma_key(specs, columns, keys, 0);
        let (p, up) = keys[0];
        assert(of_one_kind(rows, keys[0].0));
        let i = choose|i: int| 0 <= i < rows.len() && rows[i] == a;
        let j = choose|j: int| 0 <= j < rows.len() && rows[j] == b;
        assert(0 <= p < rows[i].values.len() && 0 <= p < rows[j].values.len());
        rows_stand_by_value(a, b, p, up);
        rows_stand_by_value(b, a, p, up);
        let tail = keys.drop_first();
        assert(orders_by(specs.drop_first(), columns, tail)) by {
            assert forall|k: int| 0 <= k < tail.len() implies 0 <= tail[k].0 < columns.len()
                && tail[k].1 == !((#[trigger] specs.drop_first()[k]).ascending == Some(false)) && (
            specs.drop_first()[k].expr.node matches Node::Identifier(name) && text::same_name(
                columns[tail[k].0].name,
                name@,
            ) && forall|j: int|
                0 <= j < tail[k].0 ==> !text::same_name((#[trigger] columns[j]).name, name@)) by {
                assert(specs[k + 1] == specs.drop_first()[k]);
                assert(keys[k + 1] == tail[k]);
            }
        }
        assert forall|k: int| 0 <= k < tail.len() implies of_one_kind(
            rows,
            (#[trigger] tail[k]).0,
        ) by {
            assert(keys[k + 1] == tail[k]);
        }
        lemma_comes_after(rows, specs.drop_first(), columns, tail, a, b);
    }
}

proof fn lemma_gathered_in_order(
    x: ExecV,
    db: Seq<char>,
    q: SelectQuery,
    table: Seq<char>,
    columns: Seq<ColumnV>,
    selection: Option<Expression>,
    keys: Seq<(int, bool)>,
    i: int,
    j: int,
)
    requires
        orders_by(q.order_by@, columns, keys),
        storage::sorted(storage::rows_of(x.storage, table)),
        forall|k: int|
            0 <= k < keys.len() ==> of_one_kind(
                storage::rows_of(x.storage, table),
                (#[trigger] keys[k]).0,
            ),
        0 <= i < j < gathered(x, db, q, table, columns, selection).len(),
    ensures
        ({
            let all = gathered(x, db, q, table, columns, selection);
            !precedes_by(all[j].values, all[i].values, keys)
        }),
{
    let rows = storage::rows_of(x.storage, table);
    let indexes = catalog::indexes_of(x.catalog, db, table);
    let found = query::found_rows(x.storage, table, selection, columns, indexes, x.numbers);
    let specs = q.order_by@;
    assert forall|k: int| 0 <= k < found.len() implies rows.contains(#[trigger] found[k]) by {
        assert(found.contains(found[k]));
        lemma_found(x.storage, table, selection, columns, indexes, x.numbers, found[k]);
    }
    assert forall|k: int| 0 <= k < keys.len() implies of_one_kind(
        found,
        (#[trigger] keys[k]).0,
    ) by {
        lemma_part_of_one_kind(rows, found, keys[k].0);
    }
    assert(laws::keys_have_order(found, specs, columns)) by {
        assert forall|k: int| 0 <= k < specs.len() implies (laws::key_of(
            #[trigger] specs[k],
            columns,
        ) matches Some((p, up)) ==> laws::orders(|r: RowV| found.contains(r), p, up)) by {
            lemma_key(specs, columns, keys, k);
            assert(of_one_kind(found, keys[k].0));
            lemma_kinds_order(found, keys[k].0, keys[k].1);
        }
    }
    let all = gathered(x, db, q, table, columns, selection);
    assert(all == query::ordered(found, specs, columns)) by {
        reveal(gathered);
    }
    lemma_ordered_found(found, specs, columns, keys, i, j, all);
}

proof fn lemma_ordered_found(
    found: Seq<RowV>,
    specs: Seq<OrderSpec>,
    columns: Seq<ColumnV>,
    keys: Seq<(int, bool)>,
    i: int,
    j: int,
    all: Seq<RowV>,
)
    requires
        all == query::ordered(found, specs, columns),
        orders_by(specs, columns, keys),
        forall|k: int| 0 <= k < keys.len() ==> of_one_kind(found, (#[trigger] keys[k]).0),
        laws::keys_have_order(found, specs, columns),
        0 <= i < j < all.len(),
    ensures
        !precedes_by(all[j].values, all[i].values, keys),
{
    let any = |a: RowV, b: RowV| true;
    laws::rows_come_in_order(found, specs, columns, any);
    assert(found.contains(all[i]) && found.contains(all[j]));
    assert(!laws::comes_after(all[i], all[j], specs, columns));
    lemma_comes_after(found, specs, columns, keys, all[i], all[j]);
}

proof fn lemma_part_of_one_kind(rows: Seq<RowV>, part: Seq<RowV>, p: int)
    requires
        of_one_kind(rows, p),
        forall|k: int| 0 <= k < part.len() ==> rows.contains(#[trigger] part[k]),
    ensures
        of_one_kind(part, p),
{
    if forall|i: int|
        0 <= i < rows.len() ==> 0 <= p < (#[trigger] rows[i]).values.len() && rows[i].values[p]
            is Text {
        assert forall|i: int| 0 <= i < part.len() implies 0 <= p < (
        #[trigger] part[i]).values.len() && part[i].values[p] is Text by {
            let w = choose|w: int| 0 <= w < rows.len() && rows[w] == part[i];
            assert(0 <= p < rows[w].values.len());
        }
    } else {
        assert forall|i: int| 0 <= i < part.len() implies 0 <= p < (
        #[trigger] part[i]).values.len() && amounts::amount(part[i].values[p]) is Some by {
            let w = choose|w: int| 0 <= w < rows.len() && rows[w] == part[i];
            assert(0 <= p < rows[w].values.len());
        }
    }
}

/// The rows of a `SELECT * FROM t .. ORDER BY ..` stand in the order of the values: no row
/// comes before an earlier one, by the columns that the `ORDER BY` names, the first of
/// which counts most, ascending or, where it says so, descending.
pub proof fn select_gives_rows_in_order(
    x: ExecV,
    db: Seq<char>,
    q: SelectQuery,
    now: u64,
    table: Seq<char>,
    columns: Seq<ColumnV>,
    selection: Option<Expression>,
    keys: Seq<(int, bool)>,
    i: int,
    j: int,
)
    requires
        reads(x, db, q, table, columns, selection),
        puts_out_all(q),
        orders_by(q.order_by@, columns, keys),
        storage::sorted(storage::rows_of(x.storage, table)),
        forall|k: int|
            0 <= k < keys.len() ==> of_one_kind(
                storage::rows_of(x.storage, table),
                (#[trigger] keys[k]).0,
            ),
        answer(x, db, q, now) matches Some((out, list)) && 0 <= i < j < list.len(),
    ensures
        answer(x, db, q, now) matches Some((out, list)) && !precedes_by(
            list[j].values,
            list[i].values,
            keys,
        ),
{
    lemma_answer(x, db, q, now, table, columns, selection);
    let all = gathered(x, db, q, table, columns, selection);
    let items = q.body->Select_projection@;
    lemma_all_put_out(items, columns, table);
    laws::page_is_a_run_of_rows(query::result_rows(items, columns, all), q.offset, q.limit);
    let start = match q.offset {
        Some(e) => query::count_of(e),
        None => 0,
    };
    lemma_gathered_in_order(x, db, q, table, columns, selection, keys, start + i, start + j);
}

/// Ordering neither adds nor loses rows: with an `ORDER BY`, a `SELECT * FROM t ..` gives
/// each row as often as without.
pub proof fn ordering_gives_the_same_rows(
    x: ExecV,
    db: Seq<char>,
    q: SelectQuery,
    plain: SelectQuery,
    now: u64,
    table: Seq<char>,
    columns: Seq<ColumnV>,
    selection: Option<Expression>,
)
    requires
        reads(x, db, q, table, columns, selection),
        reads(x, db, plain, table, columns, selection),
        puts_out_all(q),
        puts_out_all(plain),
        plain.order_by@.len() == 0,
        q.offset is None,
        q.limit is None,
        plain.offset is None,
        plain.limit is None,
    ensures
        answer(x, db, q, now) matches Some((out, list)) && answer(x, db, plain, now) matches Some(
            (plain_out, plain_list),
        ) && out == plain_out && list.to_multiset() == plain_list.to_multiset(),
{
    let found = query::found_rows(
        x.storage,
        table,
        selection,
        columns,
        catalog::indexes_of(x.catalog, db, table),
        x.numbers,
    );
    let items = q.body->Select_projection@;
    let star = plain.body->Select_projection@;
    lemma_all_put_out(items, columns, table);
    lemma_all_put_out(star, columns, table);
    laws::ordering_keeps_rows(found, q.order_by@, columns);
    let rows = query::ordered(found, q.order_by@, columns);
    let f = |row: RowV| RowV { id: 0, values: row.values };
    laws::mapped_rows_are_alike(rows, found, f);
    let a = query::result_rows(items, columns, rows);
    let b = query::result_rows(star, columns, found);
    assert(a =~= rows.map_values(f));
    assert(b =~= found.map_values(f));
    assert(query::page(a, None, None) =~= a);
    assert(query::page(b, None, None) =~= b);
    assert(query::ordered(found, plain.order_by@, columns) == found);
}

// ---------------------------------------------------------------------------
// Which of them
// ---------------------------------------------------------------------------

/// A `LIMIT` or `OFFSET` says a number: it is the decimal text of it.
pub open spec fn says(e: Option<Expression>, k: nat) -> bool {
    e matches Some(x) && (x.node matches Node::Value(Literal::Number(digits)) && digits@
        == text::nat_text(k))
}

pub open spec fn smaller(a: int, b: int) -> int {
    if a < b {
        a
    } else {
        b
    }
}

/// A query with a `LIMIT` and an `OFFSET` gives part of what the same query gives without
/// them: the rows behind as many as the `OFFSET` says, at most as many as the `LIMIT`
/// says.
pub proof fn page_is_part_of_the_whole(
    x: ExecV,
    db: Seq<char>,
    q: SelectQuery,
    whole: SelectQuery,
    now: u64,
    start: nat,
    most: nat,
)
    requires
        q.body == whole.body,
        q.order_by@ == whole.order_by@,
        whole.offset is None,
        whole.limit is None,
        says(q.offset, start) || (q.offset is None && start == 0),
        start <= usize::MAX,
        says(q.limit, most) || q.limit is None,
        most <= usize::MAX,
    ensures
        match answer(x, db, whole, now) {
            Some((out, all)) => {
                let from = smaller(start as int, all.len() as int);
                let to = if q.limit is None {
                    all.len() as int
                } else {
                    smaller((start + most) as int, all.len() as int)
                };
                answer(x, db, q, now) == Some((out, all.subrange(from, to)))
            },
            None => answer(x, db, q, now) is None,
        },
{
    text::integer_reads_back(start as int);
    text::integer_reads_back(most as int);
    assert(text::int_text(start as int) == text::nat_text(start));
    assert(text::int_text(most as int) == text::nat_text(most));
    if let Some((out, all)) = answer(x, db, whole, now) {
        if let QueryBody::Select { projection, from, selection } = q.body {
            let table = crate::sql::ast::table_text(from@[0]);
            if from@.len() > 0 {
                if let Ok(t) = catalog::table_of(x.catalog, db, table) {
                    let found = query::found_rows(
                        x.storage,
                        table,
                        selection,
                        t.columns,
                        catalog::indexes_of(x.catalog, db, table),
                        x.numbers,
                    );
                    let rows = query::result_rows(
                        projection@,
                        t.columns,
                        query::ordered(found, q.order_by@, t.columns),
                    );
                    assert(query::page(rows, None, None) =~= rows);
                    let start_at = smaller(start as int, all.len() as int);
                    let to = if q.limit is None {
                        all.len() as int
                    } else {
                        smaller((start + most) as int, all.len() as int)
                    };
                    assert(query::page(rows, q.offset, q.limit) =~= rows.subrange(start_at, to));
                }
            } else {
                assert(all =~= all.subrange(0, 0));
            }
        }
    }
}

/// A `LIMIT` that is no decimal number keeps no row.
pub proof fn other_limits_keep_nothing(x: ExecV, db: Seq<char>, q: SelectQuery, now: u64)
    requires
        q.limit matches Some(e) && !(e.node matches Node::Value(Literal::Number(digits))),
    ensures
        answer(x, db, q, now) matches Some((out, list)) ==> list.len() == 0,
{
}

/// What a query puts out of a row is what its items put out, one after the other, and so
/// are the columns.
pub proof fn items_are_put_out_in_order(
    a: Seq<Projection>,
    b: Seq<Projection>,
    columns: Seq<ColumnV>,
    table: Seq<char>,
    values: Seq<Val>,
)
    ensures
        query::result_values(a + b, columns, values) == query::result_values(a, columns, values)
            + query::result_values(b, columns, values),
        query::result_columns(a + b, columns, table) == query::result_columns(a, columns, table)
            + query::result_columns(b, columns, table),
        query::result_values(Seq::empty(), columns, values) == Seq::<Val>::empty(),
        query::result_columns(Seq::empty(), columns, table) == Seq::<ColumnV>::empty(),
    decreases b.len(),
{
    if b.len() == 0 {
        assert(a + b =~= a);
        assert(query::result_values(a, columns, values) + Seq::<Val>::empty()
            =~= query::result_values(a, columns, values));
        assert(query::result_columns(a, columns, table) + Seq::<ColumnV>::empty()
            =~= query::result_columns(a, columns, table));
    } else {
        items_are_put_out_in_order(a, b.drop_last(), columns, table, values);
        assert((a + b).drop_last() =~= a + b.drop_last());
        assert((a + b).last() == b.last());
        assert(query::result_values(a + b, columns, values) =~= query::result_values(
            a,
            columns,
            values,
        ) + query::result_values(b, columns, values));
        assert(query::result_columns(a + b, columns, table) =~= query::result_columns(
            a,
            columns,
            table,
        ) + query::result_columns(b, columns, table));
    }
}

/// A name that no column has is put out as NULL under that name, a literal as a question
/// mark, and any other expression as NULL, both under a question mark.
pub proof fn other_items_are_put_out_as_marks(
    item: Projection,
    columns: Seq<ColumnV>,
    table: Seq<char>,
    values: Seq<Val>,
)
    requires
        match item {
            Projection::Wildcard => false,
            Projection::Plain(e) => match e.node {
                Node::Wildcard => false,
                Node::Identifier(name) => forall|i: int|
                    0 <= i < columns.len() ==> !text::same_name((#[trigger] columns[i]).name, name@),
                _ => true,
            },
            Projection::Other => true,
        },
    ensures
        ({
            let shown = query::result_values(seq![item], columns, values);
            let titles = query::result_columns(seq![item], columns, table);
            &&& titles.len() == 1 && titles[0].col_type is VarChar
            &&& shown.len() == 1
            &&& match item {
                Projection::Plain(e) => match e.node {
                    Node::Identifier(name) => shown[0] == Val::Null && titles[0].name == name@,
                    Node::Value(_) => shown[0] == Val::Text(seq!['?']) && titles[0].name == seq![
                        '?',
                    ],
                    _ => shown[0] == Val::Null && titles[0].name == seq!['?'],
                },
                _ => shown[0] == Val::Null && titles[0].name == seq!['?'],
            }
        }),
{
    reveal_strlit("?");
    assert("?"@ =~= seq!['?']);
    assert(seq![item].drop_last() =~= Seq::<Projection>::empty());
    assert(seq![item].last() == item);
    reveal_with_fuel(query::result_values, 2);
    reveal_with_fuel(query::result_columns, 2);
    match item {
        Projection::Plain(e) => match e.node {
            Node::Identifier(name) => {
                let p = eval::has_name(name@);
                assert forall|i: int| 0 <= i < columns.len() implies !p(#[trigger] columns[i]) by {
                    assert(!text::same_name(columns[i].name, name@));
                }
                model::lemma_first_none(columns, p);
            },
            _ => {},
        },
        _ => {},
    }
}

/// A query of no table answers no columns and no rows, and what is no `SELECT` is refused.
pub proof fn query_of_no_table_answers_nothing(x: ExecV, db: Seq<char>, q: SelectQuery, now: u64)
    ensures
        q.body matches QueryBody::Select { projection, from, selection } ==> (from@.len() == 0
            ==> answer(x, db, q, now) == Some((Seq::<ColumnV>::empty(), Seq::<RowV>::empty()))),
        !(q.body is Select) ==> executor::statement_outcome(
            x,
            db,
            SqlStatement::Select(q),
            now,
        ).result == Err::<ResultV, Seq<char>>("Unsupported query type"@),
{
}

} // verus!
