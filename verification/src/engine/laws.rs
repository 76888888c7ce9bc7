//! What holds of queries and statements as a whole.

use vstd::prelude::*;

use crate::engine::catalog;
use crate::engine::change;
use crate::engine::compare;
use crate::engine::eval;
use crate::engine::eval::Line;
use crate::engine::executor;
use crate::engine::executor::{ExecV, ResultV};
use crate::engine::index;
use crate::engine::index::IndexDefV;
use crate::engine::insert;
use crate::engine::maintain;
use crate::engine::mirror;
use crate::engine::query;
use crate::engine::storage;
use crate::engine::storage::{RowV, StorageV};
use crate::engine::types::{ColumnV, NumbersV, Val};
use crate::float;
use crate::model;
use crate::order::Order;
use crate::sql::ast::{
    AssignmentSpec, DropKind, Expression, Node, Operator, OrderSpec, QueryBody, SelectQuery,
    SqlStatement,
};
use crate::text;

verus! {

// ---------------------------------------------------------------------------
// Queries with an index
// ---------------------------------------------------------------------------

/// The column of a name has a value that is equal to the given one.
pub open spec fn satisfied(line: Line, key: Seq<char>, v: Val) -> bool {
    exists|name: Seq<char>|
        text::lowercase(name) == key && {
            let w = #[trigger] eval::column_value(line.columns, line.values, name);
            compare::condition_equal(line.numbers, w, v) || compare::condition_equal(
                line.numbers,
                v,
                w,
            )
        }
}

pub open spec fn all_satisfied(line: Line, demands: Map<Seq<char>, Val>) -> bool {
    forall|k: Seq<char>|
        #[trigger] demands.contains_key(k) ==> satisfied(line, k, demands[k])
}

/// Where a condition holds, the equalities that are read from it hold.
pub proof fn demanded_equalities_hold(line: Line, e: Expression, acc: Map<Seq<char>, Val>)
    requires
        eval::is_selected(line, Some(e)),
        all_satisfied(line, acc),
    ensures
        all_satisfied(line, eval::demands(line.numbers, e, acc)),
    decreases e,
{
    match e.node {
        Node::Binary { left, op: Operator::And, right } => {
            let mid = eval::demands(line.numbers, *left, acc);
            if eval::is_condition(*left) {
                demanded_equalities_hold(line, *left, acc);
            } else {
                assert(mid == acc);
            }
            if eval::is_condition(*right) {
                demanded_equalities_hold(line, *right, mid);
            } else {
                assert(eval::demands(line.numbers, *right, mid) == mid);
            }
        },
        Node::Binary { left, op: Operator::Eq, right } => {
            let after = eval::demands(line.numbers, e, acc);
            match (eval::column_ref(*left), eval::constant(line.numbers, *right)) {
                (Some(c), Some(v)) => {
                    let w = eval::column_value(line.columns, line.values, c);
                    assert(compare::condition_equal(line.numbers, w, v));
                    assert(satisfied(line, text::lowercase(c), v));
                    lemma_demanded(line, acc, c, v);
                },
                _ => {
                    if let (Some(c), Some(v)) = (
                        eval::column_ref(*right),
                        eval::constant(line.numbers, *left),
                    ) {
                        let w = eval::column_value(line.columns, line.values, c);
                        assert(compare::condition_equal(line.numbers, v, w));
                        assert(satisfied(line, text::lowercase(c), v));
                        lemma_demanded(line, acc, c, v);
                    }
                },
            }
        },
        _ => {},
    }
}

proof fn lemma_demanded(line: Line, acc: Map<Seq<char>, Val>, c: Seq<char>, v: Val)
    requires
        all_satisfied(line, acc),
        satisfied(line, text::lowercase(c), v),
    ensures
        all_satisfied(line, eval::demanded(acc, c, v)),
{
    let after = eval::demanded(acc, c, v);
    assert forall|k: Seq<char>| #[trigger] after.contains_key(k) implies satisfied(
        line,
        k,
        after[k],
    ) by {
        if acc.contains_key(k) {
            assert(satisfied(line, k, acc[k]));
        }
    }
}

/// Names that are the same in lower case name the same column.
pub open spec fn folds(columns: Seq<ColumnV>) -> bool {
    forall|a: Seq<char>, b: Seq<char>|
        text::lowercase(a) == text::lowercase(b) ==> #[trigger] eval::column_place(columns, a)
            == #[trigger] eval::column_place(columns, b)
}

/// Where a condition takes two values for equal they are the same, as integers of one
/// kind and texts are.
pub open spec fn same_where_equal(n: NumbersV, a: Val, b: Val) -> bool {
    compare::condition_equal(n, a, b) || compare::condition_equal(n, b, a) ==> a == b
}

proof fn lemma_demanded_key(columns: Seq<Seq<char>>, demands: Map<Seq<char>, Val>)
    requires
        query::demanded_key(columns, demands) is Some,
    ensures
        query::demanded_key(columns, demands)->0.len() == columns.len(),
        forall|i: int|
            0 <= i < columns.len() ==> demands.contains_key(text::lowercase(#[trigger] columns[i]))
                && query::demanded_key(columns, demands)->0[i] == demands[text::lowercase(
                columns[i],
            )],
    decreases columns.len(),
{
    if columns.len() > 0 {
        let before = columns.drop_last();
        lemma_demanded_key(before, demands);
        let key = query::demanded_key(columns, demands)->0;
        assert forall|i: int| 0 <= i < columns.len() implies demands.contains_key(
            text::lowercase(#[trigger] columns[i]),
        ) && key[i] == demands[text::lowercase(columns[i])] by {
            if i < before.len() {
                assert(before[i] == columns[i]);
            }
        }
    }
}

/// A query that uses an index misses no row that a walk through the table would
/// find, as long as it takes no different values of the row and the condition for
/// equal.
pub proof fn index_misses_no_row(
    s: StorageV,
    table: Seq<char>,
    e: Expression,
    columns: Seq<ColumnV>,
    indexes: Seq<IndexDefV>,
    n: NumbersV,
    row: RowV,
)
    requires
        storage::sorted(storage::rows_of(s, table)),
        mirror::all_mirror(
            s.index_data,
            table,
            indexes,
            columns,
            storage::rows_of(s, table).to_set(),
        ),
        folds(columns),
        forall|i: int, j: int|
            0 <= i < indexes.len() && 0 <= j < indexes[i].columns.len() ==> {
                let name = #[trigger] indexes[i].columns[j];
                let wanted = eval::demands(n, e, Map::empty());
                wanted.contains_key(text::lowercase(name)) ==> same_where_equal(
                    n,
                    eval::column_value(columns, row.values, name),
                    wanted[text::lowercase(name)],
                )
            },
        query::selected(storage::rows_of(s, table), Some(e), columns, n).contains(row),
    ensures
        query::found_rows(s, table, Some(e), columns, indexes, n).contains(row),
{
    let rows = storage::rows_of(s, table);
    let wanted = eval::demands(n, e, Map::empty());
    change::selection_splits_rows(rows, Some(e), columns, n, row);
    let asks = query::answers(s.index_data, table, wanted);
    model::lemma_first(indexes, asks);
    if let Some(i) = model::first(indexes, asks) {
        let def = indexes[i];
        let name = query::index_key(table, def.name);
        let v = s.index_data[name];
        let key = query::demanded_key(def.columns, wanted)->0;
        lemma_demanded_key(def.columns, wanted);
        let line = Line { numbers: n, columns, values: row.values };
        demanded_equalities_hold(line, e, Map::empty());
        let own = maintain::row_key(row.values, def, columns);
        assert forall|j: int| 0 <= j < def.columns.len() implies own[j] == key[j]
            && compare::condition_equal(n, key[j], key[j]) by {
            let c = indexes[i].columns[j];
            assert(wanted.contains_key(text::lowercase(c)));
            assert(satisfied(line, text::lowercase(c), wanted[text::lowercase(c)]));
            let other = choose|other: Seq<char>|
                text::lowercase(other) == text::lowercase(c) && {
                    let w = #[trigger] eval::column_value(line.columns, line.values, other);
                    compare::condition_equal(line.numbers, w, key[j])
                        || compare::condition_equal(line.numbers, key[j], w)
                };
            assert(eval::column_place(columns, other) == eval::column_place(columns, c));
        }
        assert(own =~= key);
        assert(index::can_find(v.kind, key)) by {
            assert forall|j: int| 0 <= j < key.len() implies !index::is_nan(#[trigger] key[j]) by {
                assert(compare::condition_equal(n, key[j], key[j]));
            }
        }
        mirror::index_finds_rows_by_key(v, rows, def, columns, key, row);
        change::selection_splits_rows(
            query::rows_by_ids(rows, index::ids_at(v.map, key)),
            Some(e),
            columns,
            n,
            row,
        );
    }
}

proof fn lemma_rows_by_ids_once(rows: Seq<RowV>, ids: Seq<u64>)
    requires
        ids.no_duplicates(),
    ensures
        query::rows_by_ids(rows, ids).no_duplicates(),
        forall|i: int|
            0 <= i < query::rows_by_ids(rows, ids).len() ==> ids.contains(
                (#[trigger] query::rows_by_ids(rows, ids)[i]).id,
            ),
    decreases ids.len(),
{
    if ids.len() > 0 {
        let before = ids.drop_last();
        let first = query::rows_by_ids(rows, before);
        let all = query::rows_by_ids(rows, ids);
        assert(before.no_duplicates());
        lemma_rows_by_ids_once(rows, before);
        assert(ids[ids.len() - 1] == ids.last());
        assert forall|i: int| 0 <= i < first.len() implies ids.contains((#[trigger] first[i]).id)
            && first[i].id != ids.last() by {
            let k = choose|k: int| 0 <= k < before.len() && before[k] == first[i].id;
            assert(ids[k] == first[i].id);
            assert(ids[k] != ids[ids.len() - 1]);
        }
        assert forall|i: int| 0 <= i < all.len() implies ids.contains((#[trigger] all[i]).id) by {
            if i < first.len() {
                assert(all[i] == first[i]);
            } else {
                assert(all[i].id == ids.last());
            }
        }
        assert forall|i: int, j: int| 0 <= i < all.len() && 0 <= j < all.len() && i
            != j implies all[i] != all[j] by {
            if i < first.len() && j < first.len() {
                assert(first[i] != first[j]);
            } else if i < first.len() {
                assert(first[i].id != ids.last());
            } else {
                assert(first[j].id != ids.last());
            }
        }
    }
}

proof fn lemma_selected_once(
    rows: Seq<RowV>,
    selection: Option<Expression>,
    columns: Seq<ColumnV>,
    n: NumbersV,
)
    requires
        rows.no_duplicates(),
    ensures
        query::selected(rows, selection, columns, n).no_duplicates(),
    decreases rows.len(),
{
    if rows.len() > 0 {
        let before = rows.drop_last();
        assert(before.no_duplicates());
        lemma_selected_once(before, selection, columns, n);
        let first = query::selected(before, selection, columns, n);
        let all = query::selected(rows, selection, columns, n);
        assert forall|i: int| 0 <= i < first.len() implies #[trigger] first[i] != rows.last() by {
            assert(first.contains(first[i]));
            change::selection_splits_rows(before, selection, columns, n, first[i]);
            let k = choose|k: int| 0 <= k < before.len() && before[k] == first[i];
            assert(rows[k] != rows[rows.len() - 1]);
        }
        assert forall|i: int, j: int| 0 <= i < all.len() && 0 <= j < all.len() && i
            != j implies all[i] != all[j] by {
            if i < first.len() && j < first.len() {
                assert(first[i] != first[j]);
            } else if i < first.len() {
                assert(first[i] != rows.last());
            } else {
                assert(first[j] != rows.last());
            }
        }
    }
}

/// Whether a query uses an index does not matter to the rows that it finds: they are
/// those that a walk through the table would find, each as often, as long as it takes
/// no different values of a row and the condition for equal.
pub proof fn index_finds_the_same_rows(
    s: StorageV,
    table: Seq<char>,
    e: Expression,
    columns: Seq<ColumnV>,
    indexes: Seq<IndexDefV>,
    n: NumbersV,
)
    requires
        storage::sorted(storage::rows_of(s, table)),
        mirror::all_mirror(
            s.index_data,
            table,
            indexes,
            columns,
            storage::rows_of(s, table).to_set(),
        ),
        folds(columns),
        forall|row: RowV, i: int, j: int|
            storage::rows_of(s, table).contains(row) && 0 <= i < indexes.len() && 0 <= j
                < indexes[i].columns.len() && eval::demands(n, e, Map::empty()).contains_key(
                text::lowercase(indexes[i].columns[j]),
            ) ==> same_where_equal(
                n,
                #[trigger] eval::column_value(columns, row.values, indexes[i].columns[j]),
                eval::demands(n, e, Map::empty())[text::lowercase(indexes[i].columns[j])],
            ),
    ensures
        query::found_rows(s, table, Some(e), columns, indexes, n).to_multiset() == query::selected(
            storage::rows_of(s, table),
            Some(e),
            columns,
            n,
        ).to_multiset(),
{
    let rows = storage::rows_of(s, table);
    let wanted = eval::demands(n, e, Map::empty());
    let found = query::found_rows(s, table, Some(e), columns, indexes, n);
    let walked = query::selected(rows, Some(e), columns, n);
    assert(rows.no_duplicates()) by {
        assert forall|i: int, j: int| 0 <= i < rows.len() && 0 <= j < rows.len() && i
            != j implies rows[i] != rows[j] by {
            if i < j {
                assert(rows[i].id < rows[j].id);
            } else {
                assert(rows[j].id < rows[i].id);
            }
        }
    }
    lemma_selected_once(rows, Some(e), columns, n);
    assert(found.no_duplicates()) by {
        let asks = query::answers(s.index_data, table, wanted);
        model::lemma_first(indexes, asks);
        if let Some(i) = model::first(indexes, asks) {
            let name = query::index_key(table, indexes[i].name);
            let key = query::demanded_key(indexes[i].columns, wanted)->0;
            let ids = index::ids_at(s.index_data[name].map, key);
            assert(mirror::mirrors(s.index_data[name], rows.to_set(), indexes[i], columns));
            lemma_rows_by_ids_once(rows, ids);
            lemma_selected_once(query::rows_by_ids(rows, ids), Some(e), columns, n);
        }
    }
    assert forall|row: RowV| #[trigger] found.contains(row) <==> walked.contains(row) by {
        if found.contains(row) {
            mirror::index_finds_only_selected_rows(s, table, Some(e), columns, indexes, n, row);
        }
        if walked.contains(row) {
            change::selection_splits_rows(rows, Some(e), columns, n, row);
            assert forall|i: int, j: int|
                0 <= i < indexes.len() && 0 <= j < indexes[i].columns.len() implies ({
                let name = #[trigger] indexes[i].columns[j];
                wanted.contains_key(text::lowercase(name)) ==> same_where_equal(
                    n,
                    eval::column_value(columns, row.values, name),
                    wanted[text::lowercase(name)],
                )
            }) by {
                assert(rows.contains(row));
            }
            index_misses_no_row(s, table, e, columns, indexes, n, row);
        }
    }
    broadcast use vstd::seq_lib::group_to_multiset_ensures;

    found.lemma_multiset_has_no_duplicates();
    walked.lemma_multiset_has_no_duplicates();
    assert forall|row: RowV| #[trigger] found.to_multiset().count(row)
        == walked.to_multiset().count(row) by {
        assert(found.contains(row) <==> walked.contains(row));
        assert(found.contains(row) <==> found.to_multiset().count(row) > 0);
        assert(walked.contains(row) <==> walked.to_multiset().count(row) > 0);
        assert(found.to_multiset().contains(row) ==> found.to_multiset().count(row) == 1);
        assert(walked.to_multiset().contains(row) ==> walked.to_multiset().count(row) == 1);
    }
    assert(found.to_multiset() =~= walked.to_multiset());
}

// ---------------------------------------------------------------------------
// ORDER BY, LIMIT and OFFSET
// ---------------------------------------------------------------------------

proof fn lemma_put_keeps(rows: Seq<RowV>, row: RowV, place: int, ascending: bool)
    ensures
        query::put_in_order(rows, row, place, ascending).to_multiset()
            == rows.to_multiset().insert(row),
    decreases rows.len(),
{
    broadcast use vstd::seq_lib::group_to_multiset_ensures;

    if rows.len() > 0 && query::behind(rows.last(), row, place, ascending) {
        let before = rows.drop_last();
        lemma_put_keeps(before, row, place, ascending);
        assert(before.push(rows.last()) =~= rows);
        assert(before.to_multiset().insert(row).insert(rows.last())
            =~= before.to_multiset().insert(rows.last()).insert(row));
    }
}

proof fn lemma_ordered_by_keeps(rows: Seq<RowV>, place: int, ascending: bool)
    ensures
        query::ordered_by(rows, place, ascending).to_multiset() == rows.to_multiset(),
    decreases rows.len(),
{
    broadcast use vstd::seq_lib::group_to_multiset_ensures;

    if rows.len() > 0 {
        let before = rows.drop_last();
        lemma_ordered_by_keeps(before, place, ascending);
        lemma_put_keeps(query::ordered_by(before, place, ascending), rows.last(), place, ascending);
        assert(before.push(rows.last()) =~= rows);
    }
}

/// Ordering rows neither adds nor loses any.
pub proof fn ordering_keeps_rows(rows: Seq<RowV>, specs: Seq<OrderSpec>, columns: Seq<ColumnV>)
    ensures
        query::ordered(rows, specs, columns).to_multiset() == rows.to_multiset(),
    decreases specs.len(),
{
    if specs.len() > 0 {
        ordering_keeps_rows(rows, specs.drop_first(), columns);
        let rest = query::ordered(rows, specs.drop_first(), columns);
        if let Some(name) = eval::column_ref(specs[0].expr) {
            if let Some(i) = eval::column_place(columns, name) {
                lemma_ordered_by_keeps(rest, i, specs[0].ascending != Some(false));
            }
        }
    }
}

/// Sequences of the same items still have the same items after each was mapped.
pub proof fn mapped_rows_are_alike<A, B>(a: Seq<A>, b: Seq<A>, f: spec_fn(A) -> B)
    requires
        a.to_multiset() == b.to_multiset(),
    ensures
        a.map_values(f).to_multiset() == b.map_values(f).to_multiset(),
    decreases a.len(),
{
    broadcast use vstd::seq_lib::group_to_multiset_ensures;

    vstd::seq_lib::to_multiset_len(a);
    vstd::seq_lib::to_multiset_len(b);
    if a.len() == 0 {
        assert(a.map_values(f) =~= b.map_values(f));
    } else {
        let x = a.last();
        let first = a.drop_last();
        assert(first =~= a.remove(a.len() - 1));
        assert(a[a.len() - 1] == x);
        assert(a.contains(x));
        assert(b.contains(x)) by {
            assert(b.to_multiset().count(x) > 0);
        }
        let i = choose|i: int| 0 <= i < b.len() && b[i] == x;
        let rest = b.remove(i);
        mapped_rows_are_alike(first, rest, f);
        assert(a.map_values(f) =~= first.map_values(f).push(f(x)));
        assert(b.map_values(f) =~= rest.map_values(f).insert(i, f(x)));
    }
}

/// A condition that demands one value of one column.
pub open spec fn is_equality(n: NumbersV, e: Expression, column: Seq<char>, v: Val) -> bool {
    e.node matches Node::Binary { left, op: Operator::Eq, right } && eval::column_ref(*left) == Some(
        column,
    ) && eval::constant(n, *right) == Some(v)
}

/// The value is NULL, or of the kind of an integer or text.
pub open spec fn null_or_like(v: Val, like: Val) -> bool {
    match like {
        Val::Int(_) => v is Null || v is Int,
        Val::Text(_) => v is Null || v is Text,
        _ => false,
    }
}

/// Such a condition selects exactly the rows that have the value in the column.
pub proof fn equality_selects_equal_rows(line: Line, e: Expression, column: Seq<char>, v: Val)
    requires
        is_equality(line.numbers, e, column, v),
        null_or_like(eval::column_value(line.columns, line.values, column), v),
    ensures
        eval::is_selected(line, Some(e)) <==> eval::column_value(
            line.columns,
            line.values,
            column,
        ) == v,
{
}

/// The rows that have a value in a column.
pub open spec fn equal_rows(
    rows: Seq<RowV>,
    columns: Seq<ColumnV>,
    column: Seq<char>,
    v: Val,
) -> Seq<RowV> {
    rows.filter(|row: RowV| eval::column_value(columns, row.values, column) == v)
}

proof fn lemma_equal_rows(
    rows: Seq<RowV>,
    e: Expression,
    columns: Seq<ColumnV>,
    n: NumbersV,
    column: Seq<char>,
    v: Val,
)
    requires
        is_equality(n, e, column, v),
        forall|row: RowV|
            rows.contains(row) ==> null_or_like(
                #[trigger] eval::column_value(columns, row.values, column),
                v,
            ),
    ensures
        query::selected(rows, Some(e), columns, n) == equal_rows(rows, columns, column, v),
    decreases rows.len(),
{
    reveal(Seq::filter);
    if rows.len() > 0 {
        let first = rows.drop_last();
        assert forall|row: RowV| first.contains(row) implies null_or_like(
            #[trigger] eval::column_value(columns, row.values, column),
            v,
        ) by {
            let i = choose|i: int| 0 <= i < first.len() && first[i] == row;
            assert(rows[i] == row);
        }
        lemma_equal_rows(first, e, columns, n, column, v);
        assert(rows.contains(rows.last()));
        let line = Line { numbers: n, columns, values: rows.last().values };
        equality_selects_equal_rows(line, e, column, v);
    }
}

/// A query for the rows that have an integer or a text in a column, of which the
/// others are NULL or of the same kind, gives the same columns and the same rows, each
/// as often, with the indexes of the table and without any. These are the stored rows
/// that have the value.
pub proof fn index_does_not_change_the_answer(
    c: catalog::CatalogV,
    s: StorageV,
    plain: catalog::CatalogV,
    plain_storage: StorageV,
    n: NumbersV,
    db: Seq<char>,
    query: SelectQuery,
    table: Seq<char>,
    columns: Seq<ColumnV>,
    e: Expression,
    column: Seq<char>,
    v: Val,
)
    requires
        query.body matches QueryBody::Select { projection, from, selection } && from@.len() > 0
            && crate::sql::ast::table_text(from@[0]) == table && selection == Some(e),
        query.offset is None,
        query.limit is None,
        is_equality(n, e, column, v),
        catalog::table_of(c, db, table) matches Ok(t) && t.columns == columns,
        catalog::table_of(plain, db, table) == catalog::table_of(c, db, table),
        catalog::indexes_of(plain, db, table).len() == 0,
        storage::rows_of(plain_storage, table) == storage::rows_of(s, table),
        storage::sorted(storage::rows_of(s, table)),
        mirror::all_mirror(
            s.index_data,
            table,
            catalog::indexes_of(c, db, table),
            columns,
            storage::rows_of(s, table).to_set(),
        ),
        folds(columns),
        forall|row: RowV|
            storage::rows_of(s, table).contains(row) ==> null_or_like(
                #[trigger] eval::column_value(columns, row.values, column),
                v,
            ),
    ensures
        query::query_result(c, s, n, db, query) matches Ok((out, rows)) && query::query_result(
            plain,
            plain_storage,
            n,
            db,
            query,
        ) matches Ok((plain_out, plain_rows)) && out == plain_out && rows.to_multiset()
            == plain_rows.to_multiset() && rows.to_multiset() == query::result_rows(
            query.body->Select_projection@,
            columns,
            equal_rows(storage::rows_of(s, table), columns, column, v),
        ).to_multiset(),
{
    let rows = storage::rows_of(s, table);
    let indexes = catalog::indexes_of(c, db, table);
    let none = catalog::indexes_of(plain, db, table);
    let wanted = eval::demands(n, e, Map::empty());
    assert(wanted =~= Map::empty().insert(text::lowercase(column), v));
    assert forall|row: RowV, i: int, j: int|
        rows.contains(row) && 0 <= i < indexes.len() && 0 <= j < indexes[i].columns.len()
            && wanted.contains_key(
            text::lowercase(indexes[i].columns[j]),
        ) implies same_where_equal(
        n,
        #[trigger] eval::column_value(columns, row.values, indexes[i].columns[j]),
        wanted[text::lowercase(indexes[i].columns[j])],
    ) by {
        let name = indexes[i].columns[j];
        assert(eval::column_place(columns, name) == eval::column_place(columns, column));
        assert(null_or_like(eval::column_value(columns, row.values, column), v));
    }
    index_finds_the_same_rows(s, table, e, columns, indexes, n);
    let found = query::found_rows(s, table, Some(e), columns, indexes, n);
    let walked = query::found_rows(plain_storage, table, Some(e), columns, none, n);
    model::lemma_first(none, query::answers(plain_storage.index_data, table, wanted));
    assert(walked == query::selected(rows, Some(e), columns, n));
    let a = query::ordered(found, query.order_by@, columns);
    let b = query::ordered(walked, query.order_by@, columns);
    ordering_keeps_rows(found, query.order_by@, columns);
    ordering_keeps_rows(walked, query.order_by@, columns);
    if let QueryBody::Select { projection, from, selection } = query.body {
        let f = |row: RowV|
            RowV { id: 0, values: query::result_values(projection@, columns, row.values) };
        mapped_rows_are_alike(a, b, f);
        let first = query::result_rows(projection@, columns, a);
        let second = query::result_rows(projection@, columns, b);
        assert(first =~= a.map_values(f));
        assert(second =~= b.map_values(f));
        assert(query::page(first, None, None) =~= first);
        assert(query::page(second, None, None) =~= second);
        lemma_equal_rows(rows, e, columns, n, column, v);
        mapped_rows_are_alike(b, walked, f);
        assert(query::result_rows(projection@, columns, walked) =~= walked.map_values(f));
    }
}

/// No row must stand behind a later one.
pub open spec fn in_order(rows: Seq<RowV>, place: int, ascending: bool) -> bool {
    forall|i: int, j: int|
        0 <= i < j < rows.len() ==> !query::behind(
            #[trigger] rows[i],
            #[trigger] rows[j],
            place,
            ascending,
        )
}

/// Among the rows of a kind, standing behind is a strict order.
pub open spec fn orders(kind: spec_fn(RowV) -> bool, place: int, ascending: bool) -> bool {
    &&& forall|a: RowV, b: RowV|
        kind(a) && kind(b) && #[trigger] query::behind(a, b, place, ascending)
            ==> !query::behind(b, a, place, ascending)
    &&& forall|a: RowV, b: RowV, c: RowV|
        kind(a) && kind(b) && kind(c) && !(#[trigger] query::behind(a, b, place, ascending)) && !(
        #[trigger] query::behind(b, c, place, ascending)) ==> !query::behind(
            a,
            c,
            place,
            ascending,
        )
}

spec fn all_of(kind: spec_fn(RowV) -> bool, rows: Seq<RowV>) -> bool {
    forall|i: int| 0 <= i < rows.len() ==> kind(#[trigger] rows[i])
}

proof fn lemma_put_orders(
    kind: spec_fn(RowV) -> bool,
    rows: Seq<RowV>,
    row: RowV,
    place: int,
    ascending: bool,
)
    requires
        orders(kind, place, ascending),
        all_of(kind, rows),
        kind(row),
        in_order(rows, place, ascending),
    ensures
        in_order(query::put_in_order(rows, row, place, ascending), place, ascending),
        all_of(kind, query::put_in_order(rows, row, place, ascending)),
        forall|i: int|
            0 <= i < query::put_in_order(rows, row, place, ascending).len() ==> (
            #[trigger] query::put_in_order(rows, row, place, ascending)[i]) == row
                || rows.contains(query::put_in_order(rows, row, place, ascending)[i]),
    decreases rows.len(),
{
    let all = query::put_in_order(rows, row, place, ascending);
    if rows.len() > 0 && query::behind(rows.last(), row, place, ascending) {
        let before = rows.drop_last();
        let last = rows.last();
        assert(rows[rows.len() - 1] == last);
        assert forall|i: int, j: int| 0 <= i < j < before.len() implies !query::behind(
            #[trigger] before[i],
            #[trigger] before[j],
            place,
            ascending,
        ) by {
            assert(!query::behind(rows[i], rows[j], place, ascending));
        }
        assert forall|i: int| 0 <= i < before.len() implies kind(#[trigger] before[i]) by {
            assert(kind(rows[i]));
        }
        lemma_put_orders(kind, before, row, place, ascending);
        let first = query::put_in_order(before, row, place, ascending);
        assert(kind(rows[rows.len() - 1]));
        assert forall|i: int| 0 <= i < first.len() implies !query::behind(
            #[trigger] first[i],
            last,
            place,
            ascending,
        ) by {
            if first[i] != row {
                let j = choose|j: int| 0 <= j < before.len() && before[j] == first[i];
                assert(!query::behind(rows[j], rows[rows.len() - 1], place, ascending));
            }
        }
        assert forall|i: int| 0 <= i < all.len() implies all[i] == row || rows.contains(
            #[trigger] all[i],
        ) by {
            if i < first.len() {
                assert(all[i] == first[i]);
                if first[i] != row {
                    let j = choose|j: int| 0 <= j < before.len() && before[j] == first[i];
                    assert(rows[j] == all[i]);
                }
            } else {
                assert(rows[rows.len() - 1] == all[i]);
            }
        }
    } else {
        assert forall|i: int| 0 <= i < rows.len() implies !query::behind(
            #[trigger] rows[i],
            row,
            place,
            ascending,
        ) by {
            let last = rows.len() - 1;
            assert(kind(rows[last]));
            assert(kind(rows[i]));
            if i < last {
                assert(!query::behind(rows[i], rows[last], place, ascending));
            }
        }
        assert forall|i: int| 0 <= i < all.len() implies all[i] == row || rows.contains(
            #[trigger] all[i],
        ) by {
            if i < rows.len() {
                assert(rows[i] == all[i]);
            }
        }
    }
}

proof fn lemma_orders(
    kind: spec_fn(RowV) -> bool,
    rows: Seq<RowV>,
    place: int,
    ascending: bool,
)
    requires
        orders(kind, place, ascending),
        all_of(kind, rows),
    ensures
        in_order(query::ordered_by(rows, place, ascending), place, ascending),
        all_of(kind, query::ordered_by(rows, place, ascending)),
    decreases rows.len(),
{
    if rows.len() > 0 {
        let before = rows.drop_last();
        assert forall|i: int| 0 <= i < before.len() implies kind(#[trigger] before[i]) by {
            assert(kind(rows[i]));
        }
        lemma_orders(kind, before, place, ascending);
        assert(kind(rows[rows.len() - 1]));
        lemma_put_orders(
            kind,
            query::ordered_by(before, place, ascending),
            rows.last(),
            place,
            ascending,
        );
    }
}

/// A column of integers orders the rows by them: from the least to the greatest,
/// or the other way where the order descends.
pub proof fn integers_come_in_order(rows: Seq<RowV>, place: int, ascending: bool)
    requires
        forall|i: int| 0 <= i < rows.len() ==> query::value_at(#[trigger] rows[i], place) is Int,
    ensures
        ({
            let all = query::ordered_by(rows, place, ascending);
            forall|i: int, j: int|
                0 <= i < j < all.len() ==> {
                    let a = query::value_at(#[trigger] all[i], place);
                    let b = query::value_at(#[trigger] all[j], place);
                    a is Int && b is Int && (if ascending {
                        a->Int_0 <= b->Int_0
                    } else {
                        a->Int_0 >= b->Int_0
                    })
                }
        }),
{
    let kind = |r: RowV| query::value_at(r, place) is Int;
    lemma_orders(kind, rows, place, ascending);
    let all = query::ordered_by(rows, place, ascending);
    assert forall|i: int, j: int| 0 <= i < j < all.len() implies ({
        let a = query::value_at(#[trigger] all[i], place);
        let b = query::value_at(#[trigger] all[j], place);
        a is Int && b is Int && (if ascending {
            a->Int_0 <= b->Int_0
        } else {
            a->Int_0 >= b->Int_0
        })
    }) by {
        assert(kind(all[i]) && kind(all[j]));
        assert(!query::behind(all[i], all[j], place, ascending));
    }
}

proof fn lemma_texts_order(place: int, ascending: bool)
    ensures
        orders(|r: RowV| query::value_at(r, place) is Text, place, ascending),
{
    let kind = |r: RowV| query::value_at(r, place) is Text;
    assert forall|a: RowV, b: RowV|
        kind(a) && kind(b) && #[trigger] query::behind(a, b, place, ascending) implies !query::behind(
        b,
        a,
        place,
        ascending,
    ) by {
        text::text_order_flips(
            query::value_at(a, place)->Text_0,
            query::value_at(b, place)->Text_0,
        );
    }
    assert forall|a: RowV, b: RowV, c: RowV|
        kind(a) && kind(b) && kind(c) && !(#[trigger] query::behind(a, b, place, ascending))
            && !(#[trigger] query::behind(b, c, place, ascending)) implies !query::behind(
        a,
        c,
        place,
        ascending,
    ) by {
        let ta = query::value_at(a, place)->Text_0;
        let tb = query::value_at(b, place)->Text_0;
        let tc = query::value_at(c, place)->Text_0;
        text::text_order_flips(ta, tb);
        text::text_order_flips(tb, tc);
        text::text_order_flips(ta, tc);
        if ascending {
            lemma_text_not_greater(ta, tb, tc);
        } else {
            lemma_text_not_greater(tc, tb, ta);
        }
    }
}

/// A column of texts orders the rows by the order of texts, or the other way where
/// the order descends.
pub proof fn texts_come_in_order(rows: Seq<RowV>, place: int, ascending: bool)
    requires
        forall|i: int| 0 <= i < rows.len() ==> query::value_at(#[trigger] rows[i], place) is Text,
    ensures
        ({
            let all = query::ordered_by(rows, place, ascending);
            forall|i: int, j: int|
                0 <= i < j < all.len() ==> {
                    let a = query::value_at(#[trigger] all[i], place);
                    let b = query::value_at(#[trigger] all[j], place);
                    a is Text && b is Text && text::text_order(a->Text_0, b->Text_0) != (
                    if ascending {
                        Order::Greater
                    } else {
                        Order::Less
                    })
                }
        }),
{
    let kind = |r: RowV| query::value_at(r, place) is Text;
    lemma_texts_order(place, ascending);
    lemma_orders(kind, rows, place, ascending);
    let all = query::ordered_by(rows, place, ascending);
    assert forall|i: int, j: int| 0 <= i < j < all.len() implies ({
        let a = query::value_at(#[trigger] all[i], place);
        let b = query::value_at(#[trigger] all[j], place);
        a is Text && b is Text && text::text_order(a->Text_0, b->Text_0) != (if ascending {
            Order::Greater
        } else {
            Order::Less
        })
    }) by {
        assert(kind(all[i]) && kind(all[j]));
        assert(!query::behind(all[i], all[j], place, ascending));
    }
}

proof fn lemma_text_not_greater(a: Seq<char>, b: Seq<char>, c: Seq<char>)
    requires
        text::text_order(a, b) != Order::Greater,
        text::text_order(b, c) != Order::Greater,
    ensures
        text::text_order(a, c) != Order::Greater,
{
    text::text_order_flips(a, b);
    text::text_order_flips(b, c);
    text::text_order_flips(a, c);
    if text::text_order(a, b) == Order::Less && text::text_order(b, c) == Order::Less {
        text::text_order_transitive(a, b, c);
    }
}

/// A row that does not have to stand behind an earlier one, either, stands in a
/// relation to it.
spec fn ties_in(
    rows: Seq<RowV>,
    place: int,
    ascending: bool,
    related: spec_fn(RowV, RowV) -> bool,
) -> bool {
    forall|i: int, j: int|
        0 <= i < j < rows.len() && !query::behind(
            #[trigger] rows[j],
            #[trigger] rows[i],
            place,
            ascending,
        ) ==> related(rows[i], rows[j])
}

proof fn lemma_put_ties(
    kind: spec_fn(RowV) -> bool,
    rows: Seq<RowV>,
    row: RowV,
    place: int,
    ascending: bool,
    related: spec_fn(RowV, RowV) -> bool,
)
    requires
        orders(kind, place, ascending),
        all_of(kind, rows),
        kind(row),
        in_order(rows, place, ascending),
        ties_in(rows, place, ascending, related),
        forall|i: int| 0 <= i < rows.len() ==> related(#[trigger] rows[i], row),
    ensures
        ties_in(query::put_in_order(rows, row, place, ascending), place, ascending, related),
    decreases rows.len(),
{
    let all = query::put_in_order(rows, row, place, ascending);
    if rows.len() > 0 && query::behind(rows.last(), row, place, ascending) {
        let before = rows.drop_last();
        let last = rows.last();
        assert(rows[rows.len() - 1] == last);
        assert forall|i: int, j: int| 0 <= i < j < before.len() implies !query::behind(
            #[trigger] before[i],
            #[trigger] before[j],
            place,
            ascending,
        ) by {
            assert(!query::behind(rows[i], rows[j], place, ascending));
        }
        assert forall|i: int| 0 <= i < before.len() implies kind(#[trigger] before[i]) && related(
            before[i],
            row,
        ) by {
            assert(kind(rows[i]) && related(rows[i], row));
        }
        assert forall|i: int, j: int|
            0 <= i < j < before.len() && !query::behind(
                #[trigger] before[j],
                #[trigger] before[i],
                place,
                ascending,
            ) implies related(before[i], before[j]) by {
            assert(!query::behind(rows[j], rows[i], place, ascending));
        }
        lemma_put_ties(kind, before, row, place, ascending, related);
        lemma_put_orders(kind, before, row, place, ascending);
        let first = query::put_in_order(before, row, place, ascending);
        assert forall|i: int, j: int|
            0 <= i < j < all.len() && !query::behind(
                #[trigger] all[j],
                #[trigger] all[i],
                place,
                ascending,
            ) implies related(all[i], all[j]) by {
            assert(all[i] == first[i]);
            if j < first.len() {
                assert(all[j] == first[j]);
            } else if first[i] != row {
                let k = choose|k: int| 0 <= k < before.len() && before[k] == first[i];
                assert(!query::behind(rows[rows.len() - 1], rows[k], place, ascending));
            }
        }
    } else {
        assert forall|i: int, j: int|
            0 <= i < j < all.len() && !query::behind(
                #[trigger] all[j],
                #[trigger] all[i],
                place,
                ascending,
            ) implies related(all[i], all[j]) by {
            assert(all[i] == rows[i]);
            if j < rows.len() {
                assert(all[j] == rows[j]);
            }
        }
    }
}

proof fn lemma_ties(
    kind: spec_fn(RowV) -> bool,
    rows: Seq<RowV>,
    place: int,
    ascending: bool,
    related: spec_fn(RowV, RowV) -> bool,
)
    requires
        orders(kind, place, ascending),
        all_of(kind, rows),
        forall|i: int, j: int|
            0 <= i < j < rows.len() ==> related(#[trigger] rows[i], #[trigger] rows[j]),
    ensures
        ties_in(query::ordered_by(rows, place, ascending), place, ascending, related),
        forall|i: int|
            0 <= i < query::ordered_by(rows, place, ascending).len() ==> rows.contains(
                #[trigger] query::ordered_by(rows, place, ascending)[i],
            ),
    decreases rows.len(),
{
    if rows.len() > 0 {
        let before = rows.drop_last();
        let row = rows.last();
        assert(rows[rows.len() - 1] == row);
        assert forall|i: int| 0 <= i < before.len() implies kind(#[trigger] before[i]) by {
            assert(kind(rows[i]));
        }
        assert forall|i: int, j: int| 0 <= i < j < before.len() implies related(
            #[trigger] before[i],
            #[trigger] before[j],
        ) by {
            assert(related(rows[i], rows[j]));
        }
        lemma_ties(kind, before, place, ascending, related);
        lemma_orders(kind, before, place, ascending);
        let first = query::ordered_by(before, place, ascending);
        assert(kind(rows[rows.len() - 1]));
        assert forall|i: int| 0 <= i < first.len() implies related(#[trigger] first[i], row) by {
            let k = choose|k: int| 0 <= k < before.len() && before[k] == first[i];
            assert(related(rows[k], rows[rows.len() - 1]));
        }
        lemma_put_ties(kind, first, row, place, ascending, related);
        lemma_put_orders(kind, first, row, place, ascending);
        let all = query::ordered_by(rows, place, ascending);
        assert forall|i: int| 0 <= i < all.len() implies rows.contains(#[trigger] all[i]) by {
            if all[i] != row {
                let k = choose|k: int| 0 <= k < first.len() && first[k] == all[i];
                assert(before.contains(first[k]));
                let m = choose|m: int| 0 <= m < before.len() && before[m] == first[k];
                assert(rows[m] == all[i]);
            }
        }
    }
}

/// Where an expression of an `ORDER BY` orders, and whether it ascends. Only a column of
/// the table orders.
pub open spec fn key_of(spec: OrderSpec, columns: Seq<ColumnV>) -> Option<(int, bool)> {
    match eval::column_ref(spec.expr) {
        Some(name) => match eval::column_place(columns, name) {
            Some(i) => Some((i, spec.ascending != Some(false))),
            None => None,
        },
        None => None,
    }
}

/// Row `a` comes after row `b` in the lexicographic order of the expressions of an
/// `ORDER BY`: the first in which one of them must stand behind the other decides.
pub open spec fn comes_after(
    a: RowV,
    b: RowV,
    specs: Seq<OrderSpec>,
    columns: Seq<ColumnV>,
) -> bool
    decreases specs.len(),
{
    if specs.len() == 0 {
        false
    } else {
        match key_of(specs[0], columns) {
            Some((p, up)) => query::behind(a, b, p, up) || (!query::behind(b, a, p, up)
                && comes_after(a, b, specs.drop_first(), columns)),
            None => comes_after(a, b, specs.drop_first(), columns),
        }
    }
}

/// The values of the rows have an order in every column that orders.
pub open spec fn keys_have_order(
    rows: Seq<RowV>,
    specs: Seq<OrderSpec>,
    columns: Seq<ColumnV>,
) -> bool {
    forall|k: int|
        0 <= k < specs.len() ==> (key_of(#[trigger] specs[k], columns) matches Some((p, up))
            ==> orders(|r: RowV| rows.contains(r), p, up))
}

/// The rows of a result stand in the lexicographic order of the expressions of its
/// `ORDER BY`, each ascending or descending: no row comes after a later one. Rows of
/// which neither comes after the other keep the order that they had: whatever held of
/// earlier and later rows still holds of those.
pub proof fn rows_come_in_order(
    rows: Seq<RowV>,
    specs: Seq<OrderSpec>,
    columns: Seq<ColumnV>,
    related: spec_fn(RowV, RowV) -> bool,
)
    requires
        keys_have_order(rows, specs, columns),
        forall|i: int, j: int|
            0 <= i < j < rows.len() ==> related(#[trigger] rows[i], #[trigger] rows[j]),
    ensures
        ({
            let all = query::ordered(rows, specs, columns);
            &&& forall|i: int| 0 <= i < all.len() ==> rows.contains(#[trigger] all[i])
            &&& forall|i: int, j: int|
                0 <= i < j < all.len() ==> !comes_after(
                    #[trigger] all[i],
                    #[trigger] all[j],
                    specs,
                    columns,
                )
            &&& forall|i: int, j: int|
                0 <= i < j < all.len() && !comes_after(
                    #[trigger] all[j],
                    #[trigger] all[i],
                    specs,
                    columns,
                ) ==> related(all[i], all[j])
        }),
    decreases specs.len(),
{
    if specs.len() > 0 {
        let tail = specs.drop_first();
        assert(keys_have_order(rows, tail, columns)) by {
            assert forall|k: int| 0 <= k < tail.len() implies (key_of(
                #[trigger] tail[k],
                columns,
            ) matches Some((p, up)) ==> orders(|r: RowV| rows.contains(r), p, up)) by {
                assert(specs[k + 1] == tail[k]);
            }
        }
        rows_come_in_order(rows, tail, columns, related);
        let inner = query::ordered(rows, tail, columns);
        if let Some((p, up)) = key_of(specs[0], columns) {
            let kind = |r: RowV| rows.contains(r);
            assert(orders(kind, p, up));
            assert(query::ordered(rows, specs, columns) == query::ordered_by(inner, p, up));
            let before = |a: RowV, b: RowV|
                !comes_after(a, b, tail, columns) && (!comes_after(b, a, tail, columns) ==> related(
                    a,
                    b,
                ));
            assert forall|i: int| 0 <= i < inner.len() implies kind(#[trigger] inner[i]) by {
            }
            assert forall|i: int, j: int| 0 <= i < j < inner.len() implies before(
                #[trigger] inner[i],
                #[trigger] inner[j],
            ) by {
            }
            lemma_orders(kind, inner, p, up);
            lemma_ties(kind, inner, p, up, before);
            let all = query::ordered_by(inner, p, up);
            assert forall|i: int| 0 <= i < all.len() implies rows.contains(#[trigger] all[i]) by {
                assert(kind(all[i]));
            }
            assert forall|i: int, j: int| 0 <= i < j < all.len() implies !comes_after(
                #[trigger] all[i],
                #[trigger] all[j],
                specs,
                columns,
            ) && (!comes_after(all[j], all[i], specs, columns) ==> related(all[i], all[j])) by {
                assert(!query::behind(all[i], all[j], p, up));
                if !query::behind(all[j], all[i], p, up) {
                    assert(before(all[i], all[j]));
                }
            }
        }
    }
}

/// Integers have an order.
pub proof fn integers_have_order(rows: Seq<RowV>, place: int, ascending: bool)
    requires
        forall|i: int| 0 <= i < rows.len() ==> query::value_at(#[trigger] rows[i], place) is Int,
    ensures
        orders(|r: RowV| rows.contains(r), place, ascending),
{
    let kind = |r: RowV| rows.contains(r);
    assert forall|a: RowV| #[trigger] kind(a) implies query::value_at(a, place) is Int by {
        let i = choose|i: int| 0 <= i < rows.len() && rows[i] == a;
        assert(query::value_at(rows[i], place) is Int);
    }
}

/// Texts have an order.
pub proof fn texts_have_order(rows: Seq<RowV>, place: int, ascending: bool)
    requires
        forall|i: int| 0 <= i < rows.len() ==> query::value_at(#[trigger] rows[i], place) is Text,
    ensures
        orders(|r: RowV| rows.contains(r), place, ascending),
{
    let kind = |r: RowV| rows.contains(r);
    let any = |r: RowV| query::value_at(r, place) is Text;
    assert forall|a: RowV| #[trigger] kind(a) implies any(a) by {
        let i = choose|i: int| 0 <= i < rows.len() && rows[i] == a;
        assert(query::value_at(rows[i], place) is Text);
    }
    lemma_texts_order(place, ascending);
    assert forall|a: RowV, b: RowV|
        kind(a) && kind(b) && #[trigger] query::behind(a, b, place, ascending) implies !query::behind(
        b,
        a,
        place,
        ascending,
    ) by {
        assert(any(a) && any(b));
    }
    assert forall|a: RowV, b: RowV, c: RowV|
        kind(a) && kind(b) && kind(c) && !(#[trigger] query::behind(a, b, place, ascending))
            && !(#[trigger] query::behind(b, c, place, ascending)) implies !query::behind(
        a,
        c,
        place,
        ascending,
    ) by {
        assert(any(a) && any(b) && any(c));
    }
}

/// Floating-point numbers have an order, if each is a number.
pub proof fn doubles_have_order(rows: Seq<RowV>, place: int, ascending: bool)
    requires
        forall|i: int|
            0 <= i < rows.len() ==> (query::value_at(#[trigger] rows[i], place) matches Val::Double(
                bits,
            ) && !float::is_nan(bits, float::DOUBLE)),
    ensures
        orders(|r: RowV| rows.contains(r), place, ascending),
{
    let kind = |r: RowV| rows.contains(r);
    assert forall|a: RowV| #[trigger] kind(a) implies (query::value_at(a, place) matches Val::Double(
        bits,
    ) && !float::is_nan(bits, float::DOUBLE)) by {
        let i = choose|i: int| 0 <= i < rows.len() && rows[i] == a;
        assert(query::value_at(rows[i], place) is Double);
    }
}

/// `OFFSET` leaves out as many rows as it says, and `LIMIT` keeps at most as many of
/// the others as it says.
pub proof fn page_is_a_run_of_rows(
    rows: Seq<RowV>,
    offset: Option<Expression>,
    limit: Option<Expression>,
)
    ensures
        ({
            let out = query::page(rows, offset, limit);
            let start = match offset {
                Some(e) => query::count_of(e),
                None => 0,
            };
            let most = match limit {
                Some(e) => query::count_of(e),
                None => rows.len(),
            };
            &&& out.len() == (if rows.len() <= start {
                0
            } else if rows.len() - start <= most {
                rows.len() - start
            } else {
                most as int
            })
            &&& forall|i: int| 0 <= i < out.len() ==> #[trigger] out[i] == rows[start + i]
        }),
{
}

// ---------------------------------------------------------------------------
// Statements
// ---------------------------------------------------------------------------

/// Statements that only read change nothing.
pub proof fn reading_changes_nothing(x: ExecV, db: Seq<char>, statement: SqlStatement, now: u64)
    requires
        statement is Select || statement is ShowDatabases || statement is ShowTables || statement
            is Use || statement is Describe,
    ensures
        executor::statement_outcome(x, db, statement, now).state == x,
{
}

/// A statement that fails changes no row and queues no file. Only a `CREATE INDEX`
/// that fails may leave something in the catalog: the definition of the index.
pub proof fn failing_changes_no_rows(x: ExecV, db: Seq<char>, statement: SqlStatement, now: u64)
    requires
        executor::statement_outcome(x, db, statement, now).result is Err,
    ensures
        ({
            let y = executor::statement_outcome(x, db, statement, now).state;
            &&& y.storage.tables == x.storage.tables
            &&& y.storage.next_ids == x.storage.next_ids
            &&& y.saves == x.saves
            &&& statement is CreateIndex || y.catalog == x.catalog && y.storage == x.storage
        }),
{
}

/// With `IF NOT EXISTS` what exists is no error, and with `IF EXISTS` what does not
/// exist is none; the statement then does nothing.
pub proof fn conditional_statements_do_not_fail(
    x: ExecV,
    db: Seq<char>,
    statement: SqlStatement,
    now: u64,
)
    requires
        match statement {
            SqlStatement::CreateTable { name, if_not_exists, .. } => if_not_exists
                && catalog::has_table(x.catalog, db, crate::sql::ast::path_text(name)),
            SqlStatement::CreateDatabase { name, if_not_exists } => if_not_exists
                && catalog::has_database(x.catalog, crate::sql::ast::path_text(name)),
            SqlStatement::Drop { kind: DropKind::Table, names, if_exists } => if_exists
                && !catalog::has_table(x.catalog, db, executor::first_name(names@)),
            SqlStatement::Drop { kind: DropKind::Database, names, if_exists } => if_exists
                && !catalog::has_database(x.catalog, executor::first_name(names@)),
            _ => false,
        },
    ensures
        executor::statement_outcome(x, db, statement, now) == executor::done(x, ResultV::Done),
{
}

proof fn lemma_all_selected(rows: Seq<RowV>, columns: Seq<ColumnV>, n: NumbersV)
    ensures
        query::selected(rows, None, columns, n) == rows,
        change::unselected(rows, None, columns, n) == Seq::<RowV>::empty(),
    decreases rows.len(),
{
    if rows.len() > 0 {
        lemma_all_selected(rows.drop_last(), columns, n);
        assert(rows.drop_last().push(rows.last()) =~= rows);
    }
}

/// A `DELETE` without a condition removes all rows of the table.
pub proof fn delete_without_condition_empties(x: ExecV, db: Seq<char>, table: Seq<char>)
    requires
        executor::delete_outcome(x, db, table, None).result is Ok,
    ensures
        ({
            let y = executor::delete_outcome(x, db, table, None);
            &&& storage::rows_of(y.state.storage, table) == Seq::<RowV>::empty()
            &&& y.result == Ok::<ResultV, Seq<char>>(
                ResultV::Affected {
                    count: storage::rows_of(x.storage, table).len() as u64,
                    last_insert_id: 0,
                },
            )
        }),
{
    let t = catalog::table_of(x.catalog, db, table)->Ok_0;
    lemma_all_selected(storage::rows_of(x.storage, table), t.columns, x.numbers);
}

/// What a `DELETE` leaves in the table are the rows that the condition does not
/// select.
pub proof fn delete_removes_what_it_selects(
    x: ExecV,
    db: Seq<char>,
    table: Seq<char>,
    selection: Option<Expression>,
    row: RowV,
)
    requires
        executor::delete_outcome(x, db, table, selection).result is Ok,
    ensures
        ({
            let y = executor::delete_outcome(x, db, table, selection).state;
            let t = catalog::table_of(x.catalog, db, table)->Ok_0;
            storage::rows_of(y.storage, table).contains(row) <==> storage::rows_of(
                x.storage,
                table,
            ).contains(row) && !query::is_selected(row, selection, t.columns, x.numbers)
        }),
{
    let t = catalog::table_of(x.catalog, db, table)->Ok_0;
    change::selection_splits_rows(
        storage::rows_of(x.storage, table),
        selection,
        t.columns,
        x.numbers,
        row,
    );
}

/// An `UPDATE` keeps every row at its place and with its number. It puts the
/// assigned values into the rows that it selects and leaves the others.
pub proof fn update_changes_what_it_selects(
    x: ExecV,
    db: Seq<char>,
    table: Seq<char>,
    assignments: Seq<AssignmentSpec>,
    selection: Option<Expression>,
    i: int,
)
    requires
        executor::update_outcome(x, db, table, assignments, selection).result is Ok,
        0 <= i < storage::rows_of(x.storage, table).len(),
    ensures
        ({
            let t = catalog::table_of(x.catalog, db, table)->Ok_0;
            let pairs = change::assigned(x.numbers, assignments, t.columns)->Ok_0;
            let before = storage::rows_of(x.storage, table);
            let y = executor::update_outcome(x, db, table, assignments, selection).state;
            let after = storage::rows_of(y.storage, table);
            &&& after.len() == before.len()
            &&& after[i] == (if query::is_selected(before[i], selection, t.columns, x.numbers) {
                change::row_assigned(before[i], pairs)
            } else {
                before[i]
            })
        }),
{
}

/// Where several assignments go to one place the last counts, with the row as those
/// before it left it; a place without one keeps its value.
pub proof fn last_assignment_counts(
    values: Seq<Val>,
    pairs: Seq<(int, change::NewV)>,
    p: int,
    k: int,
)
    requires
        0 <= p < values.len(),
        forall|m: int| 0 <= m < pairs.len() ==> 0 <= (#[trigger] pairs[m]).0,
        -1 <= k < pairs.len(),
        k >= 0 ==> pairs[k].0 == p,
        forall|m: int| k < m < pairs.len() ==> (#[trigger] pairs[m]).0 != p,
    ensures
        change::values_assigned(values, pairs).len() == values.len(),
        change::values_assigned(values, pairs)[p] == (if k >= 0 {
            change::new_value(change::values_assigned(values, pairs.take(k)), pairs[k].1)
        } else {
            values[p]
        }),
    decreases pairs.len(),
{
    if pairs.len() > 0 {
        let before = pairs.drop_last();
        change::assignments_keep_width(values, before);
        if k < pairs.len() - 1 {
            assert forall|m: int| k < m < before.len() implies (#[trigger] before[m]).0 != p by {
                assert(pairs[m].0 != p);
            }
            assert forall|m: int| 0 <= m < before.len() implies 0 <= (#[trigger] before[m]).0 by {
                assert(0 <= pairs[m].0);
            }
            last_assignment_counts(values, before, p, k);
            if k >= 0 {
                assert(before.take(k) =~= pairs.take(k));
            }
            assert(pairs[pairs.len() - 1].0 != p);
            assert(0 <= pairs[pairs.len() - 1].0);
        } else {
            assert(pairs.take(k) =~= before);
        }
    }
}

/// A query without a condition finds the rows that were there before an `INSERT`,
/// and behind them the rows that it inserted.
pub proof fn select_finds_what_was_inserted(
    x: ExecV,
    db: Seq<char>,
    table: Seq<char>,
    columns: Seq<ColumnV>,
    rows: Seq<RowV>,
    now: u64,
)
    requires
        crate::engine::durability::numbered(x.storage),
        executor::can_take_rows(x, table, columns, rows, now),
        forall|i: int| 0 <= i < rows.len() ==> (#[trigger] rows[i]).id == 0,
    ensures
        ({
            let y = executor::inserted_outcome(x, db, table, columns, rows, now).state;
            let found = query::found_rows(
                y.storage,
                table,
                None,
                columns,
                catalog::indexes_of(y.catalog, db, table),
                y.numbers,
            );
            crate::engine::durability::values_of(found) == crate::engine::durability::values_of(
                storage::rows_of(x.storage, table),
            ) + crate::engine::durability::values_of(
                executor::insertion_of(x, table, columns, rows, now).rows,
            )
        }),
{
    let full = executor::insertion_of(x, table, columns, rows, now).rows;
    crate::engine::durability::completed_rows_have_no_numbers(
        rows,
        columns,
        catalog::next_number(x.catalog, table),
        now,
    );
    crate::engine::durability::inserted_rows_stand_behind(x.storage, table, full);
    let y = executor::inserted_outcome(x, db, table, columns, rows, now).state;
    lemma_all_selected(storage::rows_of(y.storage, table), columns, y.numbers);
    let t = catalog::normal(table);
    let s = storage::rows_inserted(x.storage, table, full);
    assert(storage::rows_of(y.storage, table) == crate::engine::durability::stored(s, t));
    assert(storage::rows_of(x.storage, table) == crate::engine::durability::stored(x.storage, t));
}

/// A table that was created is there, with the columns of its definition and
/// without automatic numbers given.
pub proof fn created_table_is_there(
    x: ExecV,
    db: Seq<char>,
    table: Seq<char>,
    specs: Seq<crate::sql::ast::ColumnSpec>,
)
    requires
        executor::create_table_outcome(x, db, table, specs).result is Ok,
    ensures
        ({
            let y = executor::create_table_outcome(x, db, table, specs).state;
            &&& catalog::table_of(y.catalog, db, table) matches Ok(t) && t.name == table
                && t.columns == crate::engine::schema::defined_columns(x.numbers, table, specs)
            &&& catalog::next_number(y.catalog, table) == 1
        }),
{
}

/// A table that was dropped is gone, with its rows, the contents of its indexes and
/// its automatic numbers. It is dropped under its name in lower case, which is its
/// name wherever that stays the same in lower case again.
pub proof fn dropped_table_is_gone(x: ExecV, db: Seq<char>, table: Seq<char>)
    requires
        executor::drop_table_outcome(x, db, table).result is Ok,
    ensures
        ({
            let y = executor::drop_table_outcome(x, db, table).state;
            let t = catalog::normal(table);
            &&& is_gone(y, db, t)
            &&& catalog::normal(t) == t ==> is_gone(y, db, table)
        }),
{
}

/// Nothing is left of a table.
pub open spec fn is_gone(x: ExecV, db: Seq<char>, table: Seq<char>) -> bool {
    &&& !catalog::has_table(x.catalog, db, table)
    &&& storage::rows_of(x.storage, table) == Seq::<RowV>::empty()
    &&& catalog::next_number(x.catalog, table) == 1
    &&& forall|name: Seq<char>| #[trigger]
        x.storage.index_data.contains_key(name) ==> !text::has_prefix(
            name,
            catalog::normal(table) + ":"@,
        )
}

/// A database that was created can be used, and one that was dropped cannot.
pub proof fn databases_come_and_go(x: ExecV, name: Seq<char>)
    ensures
        catalog::has_database(executor::create_database_outcome(x, name).state.catalog, name),
        !catalog::has_database(executor::drop_database_outcome(x, name).state.catalog, name),
{
}

// ---------------------------------------------------------------------------
// INSERT
// ---------------------------------------------------------------------------

/// The named columns stand at different places.
pub open spec fn distinct_places(names: Seq<Seq<char>>, columns: Seq<ColumnV>) -> bool {
    forall|i: int, j: int|
        0 <= i < j < names.len() ==> eval::column_place(columns, #[trigger] names[i])
            != eval::column_place(columns, #[trigger] names[j])
}

/// The row has a value under the column of a name.
pub open spec fn stands_at(
    columns: Seq<ColumnV>,
    name: Seq<char>,
    row: Seq<Val>,
    v: Val,
) -> bool {
    match eval::column_place(columns, name) {
        Some(p) => 0 <= p < columns.len() && row[p] == v,
        None => false,
    }
}

/// Under a column list, every named column gets the value that stands at its place
/// in the list, and all other columns are NULL.
pub proof fn named_columns_get_their_values(
    names: Seq<Seq<char>>,
    values: Seq<Val>,
    columns: Seq<ColumnV>,
    n: int,
)
    requires
        distinct_places(names, columns),
        0 <= n <= names.len(),
        names.len() <= values.len(),
        insert::placed(names, values, columns, n) is Ok,
    ensures
        ({
            let row = insert::placed(names, values, columns, n)->Ok_0;
            &&& row.len() == columns.len()
            &&& forall|i: int|
                0 <= i < n ==> stands_at(columns, #[trigger] names[i], row, values[i])
            &&& forall|p: int|
                0 <= p < columns.len() && (forall|i: int|
                    0 <= i < n ==> eval::column_place(columns, #[trigger] names[i]) != Some(p))
                    ==> #[trigger] row[p] == Val::Null
        }),
    decreases n,
{
    if n > 0 {
        named_columns_get_their_values(names, values, columns, n - 1);
        let before = insert::placed(names, values, columns, n - 1)->Ok_0;
        let row = insert::placed(names, values, columns, n)->Ok_0;
        model::lemma_first(columns, eval::has_name(names[n - 1]));
        let p = eval::column_place(columns, names[n - 1])->0;
        assert forall|i: int| 0 <= i < n implies stands_at(
            columns,
            #[trigger] names[i],
            row,
            values[i],
        ) by {
            if i < n - 1 {
                assert(eval::column_place(columns, names[i]) != eval::column_place(
                    columns,
                    names[n - 1],
                ));
            }
        }
        assert forall|q: int|
            0 <= q < columns.len() && (forall|i: int|
                0 <= i < n ==> eval::column_place(columns, #[trigger] names[i]) != Some(q)) implies #[trigger] row[q]
            == Val::Null by {
            assert(eval::column_place(columns, names[n - 1]) != Some(q));
            assert(q != p);
            assert(row[q] == before[q]);
        }
    }
}

/// What a column holds after an insertion: its value, or where that is NULL the
/// next automatic number, its default, or NULL.
pub proof fn missing_values_are_completed(
    s: insert::Completion,
    columns: Seq<ColumnV>,
    i: int,
    start: u64,
    now: u64,
    p: int,
)
    requires
        0 <= p < i <= columns.len() <= s.values.len(),
    ensures
        ({
            let v = insert::cells_completed(s, columns, i, start, now).values[p];
            let given = insert::cells_completed(s, columns, p, start, now).given;
            if !(s.values[p] is Null) {
                v == s.values[p]
            } else if columns[p].auto_increment {
                v == Val::Int(insert::number_after(start, given) as i64)
            } else {
                match columns[p].default_expr {
                    Some(d) => v == insert::default_value(d, now),
                    None => v is Null,
                }
            }
        }),
    decreases i,
{
    later_columns_are_untouched(s, columns, i - 1, start, now);
    if p < i - 1 {
        missing_values_are_completed(s, columns, i - 1, start, now, p);
    } else {
        later_columns_are_untouched(s, columns, p, start, now);
    }
}

/// Completing the first columns of a row leaves the others as they are.
pub proof fn later_columns_are_untouched(
    s: insert::Completion,
    columns: Seq<ColumnV>,
    i: int,
    start: u64,
    now: u64,
)
    requires
        0 <= i <= columns.len() <= s.values.len(),
    ensures
        insert::cells_completed(s, columns, i, start, now).values.len() == s.values.len(),
        forall|p: int|
            i <= p < s.values.len() ==> #[trigger] insert::cells_completed(
                s,
                columns,
                i,
                start,
                now,
            ).values[p] == s.values[p],
    decreases i,
{
    if i > 0 {
        later_columns_are_untouched(s, columns, i - 1, start, now);
    }
}

proof fn lemma_completed_prefix(
    rows: Seq<RowV>,
    columns: Seq<ColumnV>,
    start: u64,
    now: u64,
    i: int,
)
    requires
        0 <= i < rows.len(),
    ensures
        insert::rows_completed(rows, columns, start, now).rows.len() == rows.len(),
        insert::rows_completed(rows, columns, start, now).rows[i] == insert::rows_completed(
            rows.take(i + 1),
            columns,
            start,
            now,
        ).rows[i],
    decreases rows.len(),
{
    let before = rows.drop_last();
    if i < before.len() {
        lemma_completed_prefix(before, columns, start, now, i);
        assert(before.take(i + 1) =~= rows.take(i + 1));
    } else {
        assert(rows.take(i + 1) =~= rows);
        if before.len() > 0 {
            lemma_completed_prefix(before, columns, start, now, before.len() - 1);
        } else {
            assert(insert::rows_completed(before, columns, start, now).rows.len() == 0);
        }
    }
}

proof fn lemma_automatic_number(
    rows: Seq<RowV>,
    columns: Seq<ColumnV>,
    start: u64,
    now: u64,
    p: int,
    i: int,
)
    requires
        insert::wide_enough(rows, columns),
        0 <= p < columns.len(),
        columns[p].auto_increment,
        0 <= i < rows.len(),
        rows[i].values[p] is Null,
        start + insert::rows_completed(rows, columns, start, now).given <= i64::MAX,
    ensures
        ({
            let v = insert::rows_completed(rows, columns, start, now).rows[i].values[p];
            &&& v is Int
            &&& start + insert::rows_completed(rows.take(i), columns, start, now).given
                <= v->Int_0
            &&& v->Int_0 < start + insert::rows_completed(
                rows.take(i + 1),
                columns,
                start,
                now,
            ).given
        }),
{
    let upto = rows.take(i + 1);
    assert(upto.drop_last() =~= rows.take(i));
    assert(upto.last() == rows[i]);
    lemma_completed_prefix(rows, columns, start, now, i);
    lemma_completed_prefix(upto, columns, start, now, i);
    insert::lemma_rows_grow(rows, columns, start, now, i + 1);
    let before = insert::rows_completed(rows.take(i), columns, start, now);
    if i > 0 {
        lemma_completed_prefix(rows.take(i), columns, start, now, i - 1);
    }
    let s = insert::Completion {
        values: rows[i].values,
        given: before.given,
        last: before.last,
    };
    let n = columns.len() as int;
    missing_values_are_completed(s, columns, n, start, now, p);
    later_columns_are_untouched(s, columns, p, start, now);
    insert::lemma_cells_grow_between(s, columns, 0, p, start, now);
    insert::lemma_cells_grow_between(s, columns, p + 1, n, start, now);
}

/// The automatic numbers that one `INSERT` gives to a column ascend from row to row,
/// and lie between the next number before and the next number after.
pub proof fn automatic_numbers_ascend(
    rows: Seq<RowV>,
    columns: Seq<ColumnV>,
    start: u64,
    now: u64,
    p: int,
    i: int,
    j: int,
)
    requires
        insert::wide_enough(rows, columns),
        0 <= p < columns.len(),
        columns[p].auto_increment,
        0 <= i < j < rows.len(),
        rows[i].values[p] is Null,
        rows[j].values[p] is Null,
        start + insert::rows_completed(rows, columns, start, now).given <= i64::MAX,
    ensures
        ({
            let full = insert::rows_completed(rows, columns, start, now);
            let a = full.rows[i].values[p];
            let b = full.rows[j].values[p];
            a is Int && b is Int && start <= a->Int_0 < b->Int_0 < start + full.given
        }),
{
    lemma_automatic_number(rows, columns, start, now, p, i);
    lemma_automatic_number(rows, columns, start, now, p, j);
    let upto = rows.take(j);
    insert::lemma_rows_grow(upto, columns, start, now, i + 1);
    assert(upto.take(i + 1) =~= rows.take(i + 1));
    insert::lemma_rows_grow(rows, columns, start, now, j + 1);
}

} // verus!
