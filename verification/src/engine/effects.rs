//! What statements that change rows do, and what they report of it.

use vstd::prelude::*;

use crate::engine::answers;
use crate::engine::catalog;
use crate::engine::change;
use crate::engine::durability;
use crate::engine::eval;
use crate::engine::eval::Line;
use crate::engine::executor;
use crate::engine::executor::{ExecV, ResultV};
use crate::engine::insert;
use crate::engine::laws;
use crate::engine::storage;
use crate::engine::storage::RowV;
use crate::engine::time;
use crate::engine::types::{ColumnV, DefaultV, NumbersV, Val};
use crate::model;
use crate::sql::ast::{AssignmentSpec, Expression, Node, QueryBody, SqlStatement};
use crate::text;

verus! {

/// A statement reports that it affected a number of rows.
pub open spec fn reports(
    x: ExecV,
    db: Seq<char>,
    statement: SqlStatement,
    now: u64,
    count: nat,
    last_insert_id: u64,
) -> bool {
    executor::statement_outcome(x, db, statement, now).result matches Ok(
        ResultV::Affected { count: c, last_insert_id: last },
    ) && c as nat == count && last == last_insert_id
}

/// The rows of a table after a statement.
pub open spec fn rows_after(
    x: ExecV,
    db: Seq<char>,
    statement: SqlStatement,
    now: u64,
    table: Seq<char>,
) -> Seq<RowV> {
    storage::rows_of(executor::statement_outcome(x, db, statement, now).state.storage, table)
}

/// A table is there and has rows stored.
pub open spec fn holds_rows(
    x: ExecV,
    db: Seq<char>,
    table: Seq<char>,
    columns: Seq<ColumnV>,
) -> bool {
    &&& catalog::table_of(x.catalog, db, table) matches Ok(t) && t.columns == columns
    &&& x.storage.tables.contains_key(catalog::normal(table))
    &&& storage::rows_of(x.storage, table).len() <= u64::MAX
}

/// The condition of a statement holds for a row.
pub open spec fn satisfies(
    x: ExecV,
    columns: Seq<ColumnV>,
    row: RowV,
    selection: Option<Expression>,
) -> bool {
    eval::is_selected(Line { numbers: x.numbers, columns, values: row.values }, selection)
}

// ---------------------------------------------------------------------------
// DELETE
// ---------------------------------------------------------------------------

proof fn lemma_unselected(
    rows: Seq<RowV>,
    columns: Seq<ColumnV>,
    selection: Option<Expression>,
    x: ExecV,
)
    ensures
        change::unselected(rows, selection, columns, x.numbers) == rows.filter(
            |row: RowV| !satisfies(x, columns, row, selection),
        ),
    decreases rows.len(),
{
    reveal(Seq::filter);
    if rows.len() > 0 {
        lemma_unselected(rows.drop_last(), columns, selection, x);
    }
}

/// `DELETE` leaves the rows for which the condition does not hold, in their order, and
/// reports how many it removed.
pub proof fn delete_keeps_the_others_and_counts(
    x: ExecV,
    db: Seq<char>,
    statement: SqlStatement,
    now: u64,
    table: Seq<char>,
    columns: Seq<ColumnV>,
    selection: Option<Expression>,
)
    requires
        statement matches SqlStatement::Delete { tables, from, selection: s } && s == selection
            && tables@.len() == 0 && from@.len() > 0 && crate::sql::ast::table_text(from@[0])
            == table,
        holds_rows(x, db, table, columns),
    ensures
        reports(x, db, statement, now, answers::rows_with(x, table, columns, selection).len(), 0),
        rows_after(x, db, statement, now, table) == storage::rows_of(x.storage, table).filter(
            |row: RowV| !satisfies(x, columns, row, selection),
        ),
        reports(
            x,
            db,
            statement,
            now,
            (storage::rows_of(x.storage, table).len() - rows_after(
                x,
                db,
                statement,
                now,
                table,
            ).len()) as nat,
            0,
        ),
{
    let rows = storage::rows_of(x.storage, table);
    answers::selected_rows_satisfy(rows, columns, selection, x.numbers);
    lemma_unselected(rows, columns, selection, x);
    change::selection_splits_rows(
        rows,
        selection,
        columns,
        x.numbers,
        RowV { id: 0, values: Seq::empty() },
    );
}

// ---------------------------------------------------------------------------
// UPDATE
// ---------------------------------------------------------------------------

/// Assignments put given values into columns at different places.
pub open spec fn gives(
    n: NumbersV,
    assignments: Seq<AssignmentSpec>,
    columns: Seq<ColumnV>,
    places: Seq<int>,
    values: Seq<Val>,
) -> bool {
    &&& assignments.len() == places.len()
    &&& assignments.len() == values.len()
    &&& forall|k: int|
        0 <= k < assignments.len() ==> 0 <= places[k] < columns.len() && ((
        #[trigger] assignments[k]).target matches Some(p) && text::same_name(
            columns[places[k]].name,
            crate::sql::ast::path_text(p),
        ) && forall|j: int|
            0 <= j < places[k] ==> !text::same_name(
                (#[trigger] columns[j]).name,
                crate::sql::ast::path_text(p),
            )) && !(assignments[k].value.node is Identifier) && eval::given_value(
            n,
            assignments[k].value,
        ) == Ok::<Val, Seq<char>>(values[k])
    &&& forall|i: int, j: int|
        0 <= i < j < places.len() ==> #[trigger] places[i] != #[trigger] places[j]
}

proof fn lemma_given(
    n: NumbersV,
    assignments: Seq<AssignmentSpec>,
    columns: Seq<ColumnV>,
    places: Seq<int>,
    values: Seq<Val>,
)
    requires
        gives(n, assignments, columns, places, values),
    ensures
        change::assigned(n, assignments, columns) == Ok::<Seq<(int, change::NewV)>, Seq<char>>(
            Seq::new(places.len(), |k: int| (places[k], change::NewV::Given(values[k]))),
        ),
    decreases assignments.len(),
{
    let want = Seq::new(places.len(), |k: int| (places[k], change::NewV::Given(values[k])));
    if assignments.len() > 0 {
        let k = assignments.len() - 1;
        let a = assignments.drop_last();
        let p = places.drop_last();
        let v = values.drop_last();
        assert(gives(n, a, columns, p, v)) by {
            assert forall|m: int| 0 <= m < a.len() implies 0 <= p[m] < columns.len() && ((
            #[trigger] a[m]).target matches Some(path) && text::same_name(
                columns[p[m]].name,
                crate::sql::ast::path_text(path),
            ) && forall|j: int|
                0 <= j < p[m] ==> !text::same_name(
                    (#[trigger] columns[j]).name,
                    crate::sql::ast::path_text(path),
                )) && !(a[m].value.node is Identifier) && eval::given_value(n, a[m].value) == Ok::<
                Val,
                Seq<char>,
            >(v[m]) by {
                assert(assignments[m] == a[m]);
            }
            assert forall|i: int, j: int| 0 <= i < j < p.len() implies #[trigger] p[i]
                != #[trigger] p[j] by {
                assert(places[i] != places[j]);
            }
        }
        lemma_given(n, a, columns, p, v);
        assert(assignments[k] == assignments.last());
        let path = assignments[k].target->0;
        answers::name_means_first_column(
            columns,
            crate::sql::ast::path_text(path),
            places[k],
        );
        let before = Seq::new(p.len(), |k: int| (p[k], change::NewV::Given(v[k])));
        assert(before.push((places[k], change::NewV::Given(values[k]))) =~= want);
    } else {
        assert(want =~= Seq::<(int, change::NewV)>::empty());
    }
}

/// The values of a row after others were put at different places.
pub open spec fn with_values(row: Seq<Val>, places: Seq<int>, values: Seq<Val>, p: int) -> Val {
    if exists|k: int| 0 <= k < places.len() && #[trigger] places[k] == p {
        values[choose|k: int| 0 <= k < places.len() && #[trigger] places[k] == p]
    } else {
        row[p]
    }
}

/// `UPDATE t SET .. WHERE ..` with literals reports how many rows the condition holds for,
/// and puts the literals into the named columns of these rows. Everything else stays: the
/// other columns, the other rows, the number and the place of every row.
pub proof fn update_sets_what_it_selects_and_counts(
    x: ExecV,
    db: Seq<char>,
    statement: SqlStatement,
    now: u64,
    table: Seq<char>,
    columns: Seq<ColumnV>,
    selection: Option<Expression>,
    places: Seq<int>,
    values: Seq<Val>,
)
    requires
        statement matches SqlStatement::Update { table: t, assignments, selection: s } && s
            == selection && crate::sql::ast::table_text(t) == table && gives(
            x.numbers,
            assignments@,
            columns,
            places,
            values,
        ),
        holds_rows(x, db, table, columns),
        forall|i: int|
            0 <= i < storage::rows_of(x.storage, table).len() ==> (#[trigger] storage::rows_of(
                x.storage,
                table,
            )[i]).values.len() == columns.len(),
    ensures
        reports(x, db, statement, now, answers::rows_with(x, table, columns, selection).len(), 0),
        ({
            let before = storage::rows_of(x.storage, table);
            let after = rows_after(x, db, statement, now, table);
            &&& after.len() == before.len()
            &&& forall|i: int|
                0 <= i < before.len() ==> (#[trigger] after[i]).id == before[i].id
                    && after[i].values.len() == columns.len() && (!satisfies(
                    x,
                    columns,
                    before[i],
                    selection,
                ) ==> after[i] == before[i])
            &&& forall|i: int, p: int|
                0 <= i < before.len() && satisfies(x, columns, before[i], selection) && 0 <= p
                    < columns.len() ==> #[trigger] after[i].values[p] == with_values(
                    before[i].values,
                    places,
                    values,
                    p,
                )
        }),
{
    let before = storage::rows_of(x.storage, table);
    let pairs = Seq::new(places.len(), |k: int| (places[k], change::NewV::Given(values[k])));
    if let SqlStatement::Update { table: t, assignments, selection: s } = statement {
        lemma_given(x.numbers, assignments@, columns, places, values);
    }
    lemma_updated(x, db, statement, now, table, columns, selection, pairs);
    assert forall|i: int| 0 <= i < places.len() implies 0 <= #[trigger] places[i]
        < columns.len() by {
        if let SqlStatement::Update { table: t, assignments, selection: s } = statement {
            let a = assignments@[i];
        }
    }
    lemma_rows_put(x, before, columns, selection, places, values, pairs);
}

proof fn lemma_updated(
    x: ExecV,
    db: Seq<char>,
    statement: SqlStatement,
    now: u64,
    table: Seq<char>,
    columns: Seq<ColumnV>,
    selection: Option<Expression>,
    pairs: Seq<(int, change::NewV)>,
)
    requires
        statement matches SqlStatement::Update { table: t, assignments, selection: s } && s
            == selection && crate::sql::ast::table_text(t) == table && change::assigned(
            x.numbers,
            assignments@,
            columns,
        ) == Ok::<Seq<(int, change::NewV)>, Seq<char>>(pairs),
        holds_rows(x, db, table, columns),
    ensures
        reports(x, db, statement, now, answers::rows_with(x, table, columns, selection).len(), 0),
        rows_after(x, db, statement, now, table) == change::selected_assigned(
            storage::rows_of(x.storage, table),
            pairs,
            selection,
            columns,
            x.numbers,
        ),
{
    let before = storage::rows_of(x.storage, table);
    answers::selected_rows_satisfy(before, columns, selection, x.numbers);
    lemma_filter_len(
        before,
        |row: RowV|
            eval::is_selected(
                Line { numbers: x.numbers, columns, values: row.values },
                selection,
            ),
    );
}

proof fn lemma_rows_put(
    x: ExecV,
    before: Seq<RowV>,
    columns: Seq<ColumnV>,
    selection: Option<Expression>,
    places: Seq<int>,
    values: Seq<Val>,
    pairs: Seq<(int, change::NewV)>,
)
    requires
        places.len() == values.len(),
        pairs == Seq::new(places.len(), |k: int| (places[k], change::NewV::Given(values[k]))),
        forall|k: int| 0 <= k < places.len() ==> 0 <= #[trigger] places[k] < columns.len(),
        forall|i: int, j: int|
            0 <= i < j < places.len() ==> #[trigger] places[i] != #[trigger] places[j],
        forall|i: int|
            0 <= i < before.len() ==> (#[trigger] before[i]).values.len() == columns.len(),
    ensures
        ({
            let after = change::selected_assigned(before, pairs, selection, columns, x.numbers);
            &&& after.len() == before.len()
            &&& forall|i: int|
                0 <= i < before.len() ==> (#[trigger] after[i]).id == before[i].id
                    && after[i].values.len() == columns.len() && (!satisfies(
                    x,
                    columns,
                    before[i],
                    selection,
                ) ==> after[i] == before[i])
            &&& forall|i: int, p: int|
                0 <= i < before.len() && satisfies(x, columns, before[i], selection) && 0 <= p
                    < columns.len() ==> #[trigger] after[i].values[p] == with_values(
                    before[i].values,
                    places,
                    values,
                    p,
                )
        }),
{
    let after = change::selected_assigned(before, pairs, selection, columns, x.numbers);
    assert forall|i: int| 0 <= i < before.len() implies (#[trigger] after[i]).id == before[i].id
        && after[i].values.len() == columns.len() && (!satisfies(
        x,
        columns,
        before[i],
        selection,
    ) ==> after[i] == before[i]) by {
        lemma_put(before[i].values, places, values, pairs, 0);
    }
    assert forall|i: int, p: int|
        0 <= i < before.len() && satisfies(x, columns, before[i], selection) && 0 <= p
            < columns.len() implies #[trigger] after[i].values[p] == with_values(
        before[i].values,
        places,
        values,
        p,
    ) by {
        lemma_put(before[i].values, places, values, pairs, p);
    }
}

proof fn lemma_filter_len(rows: Seq<RowV>, keep: spec_fn(RowV) -> bool)
    ensures
        rows.filter(keep).len() <= rows.len(),
{
    broadcast use vstd::seq_lib::group_filter_ensures;

}

proof fn lemma_put(
    row: Seq<Val>,
    places: Seq<int>,
    values: Seq<Val>,
    pairs: Seq<(int, change::NewV)>,
    p: int,
)
    requires
        places.len() == values.len(),
        pairs == Seq::new(places.len(), |k: int| (places[k], change::NewV::Given(values[k]))),
        forall|k: int| 0 <= k < places.len() ==> 0 <= #[trigger] places[k] < row.len(),
        forall|i: int, j: int|
            0 <= i < j < places.len() ==> #[trigger] places[i] != #[trigger] places[j],
    ensures
        change::values_assigned(row, pairs).len() == row.len(),
        0 <= p < row.len() ==> change::values_assigned(row, pairs)[p] == with_values(
            row,
            places,
            values,
            p,
        ),
{
    assert forall|m: int| 0 <= m < pairs.len() implies 0 <= (#[trigger] pairs[m]).0 by {
        assert(0 <= places[m]);
    }
    change::assignments_keep_width(row, pairs);
    if 0 <= p < row.len() {
        if exists|k: int| 0 <= k < places.len() && #[trigger] places[k] == p {
            let k = choose|k: int| 0 <= k < places.len() && #[trigger] places[k] == p;
            assert forall|m: int| k < m < pairs.len() implies (#[trigger] pairs[m]).0 != p by {
                assert(places[k] != places[m]);
            }
            laws::last_assignment_counts(row, pairs, p, k);
        } else {
            assert forall|m: int| -1 < m < pairs.len() implies (#[trigger] pairs[m]).0 != p by {
                assert(pairs[m].0 == places[m]);
            }
            laws::last_assignment_counts(row, pairs, p, -1);
        }
    }
}

/// `UPDATE t SET a = b` puts into the column the value that the other column of the same
/// row has.
pub proof fn update_copies_columns(
    x: ExecV,
    db: Seq<char>,
    statement: SqlStatement,
    now: u64,
    table: Seq<char>,
    columns: Seq<ColumnV>,
    selection: Option<Expression>,
    to: int,
    from: int,
)
    requires
        statement matches SqlStatement::Update { table: t, assignments, selection: s } && s
            == selection && crate::sql::ast::table_text(t) == table && assignments@.len() == 1 && (
        assignments@[0].target matches Some(p) && eval::column_place(
            columns,
            crate::sql::ast::path_text(p),
        ) == Some(to)) && (assignments@[0].value.node matches Node::Identifier(name)
            && eval::column_place(columns, name@) == Some(from)),
        holds_rows(x, db, table, columns),
        0 <= to < columns.len(),
        0 <= from < columns.len(),
        forall|i: int|
            0 <= i < storage::rows_of(x.storage, table).len() ==> (#[trigger] storage::rows_of(
                x.storage,
                table,
            )[i]).values.len() == columns.len(),
    ensures
        reports(x, db, statement, now, answers::rows_with(x, table, columns, selection).len(), 0),
        ({
            let before = storage::rows_of(x.storage, table);
            let after = rows_after(x, db, statement, now, table);
            &&& after.len() == before.len()
            &&& forall|i: int|
                0 <= i < before.len() ==> #[trigger] after[i] == (if satisfies(
                    x,
                    columns,
                    before[i],
                    selection,
                ) {
                    RowV {
                        id: before[i].id,
                        values: before[i].values.update(to, before[i].values[from]),
                    }
                } else {
                    before[i]
                })
        }),
{
    reveal_with_fuel(change::assigned, 2);
    reveal_with_fuel(change::values_assigned, 2);
    let before = storage::rows_of(x.storage, table);
    answers::selected_rows_satisfy(before, columns, selection, x.numbers);
    lemma_filter_len(before, |row: RowV| satisfies(x, columns, row, selection));
    if let SqlStatement::Update { table: t, assignments, selection: s } = statement {
        assert(assignments@.drop_last() =~= Seq::<AssignmentSpec>::empty());
        assert(assignments@.last() == assignments@[0]);
        let pairs = seq![(to, change::NewV::Column(from))];
        assert(Seq::<(int, change::NewV)>::empty().push((to, change::NewV::Column(from)))
            =~= pairs);
        assert(pairs.drop_last() =~= Seq::<(int, change::NewV)>::empty());
    }
}

// ---------------------------------------------------------------------------
// INSERT
// ---------------------------------------------------------------------------

/// Lists of expressions are written for lists of values.
pub open spec fn written(n: NumbersV, lists: Seq<Vec<Expression>>, rows: Seq<Seq<Val>>) -> bool {
    &&& lists.len() == rows.len()
    &&& forall|i: int| 0 <= i < rows.len() ==> (#[trigger] lists[i])@.len() == rows[i].len()
    &&& forall|i: int, k: int|
        0 <= i < rows.len() && 0 <= k < rows[i].len() ==> eval::given_value(
            n,
            #[trigger] lists[i]@[k],
        ) == Ok::<Val, Seq<char>>(rows[i][k])
}

proof fn lemma_written_list(n: NumbersV, exprs: Seq<Expression>, values: Seq<Val>)
    requires
        exprs.len() == values.len(),
        forall|k: int|
            0 <= k < values.len() ==> eval::given_value(n, #[trigger] exprs[k]) == Ok::<
                Val,
                Seq<char>,
            >(values[k]),
    ensures
        insert::written_values(n, exprs) == Ok::<Seq<Val>, Seq<char>>(values),
    decreases exprs.len(),
{
    if exprs.len() > 0 {
        let a = exprs.drop_last();
        let b = values.drop_last();
        assert forall|k: int| 0 <= k < b.len() implies eval::given_value(n, #[trigger] a[k])
            == Ok::<Val, Seq<char>>(b[k]) by {
            assert(a[k] == exprs[k]);
        }
        lemma_written_list(n, a, b);
        assert(exprs[exprs.len() - 1] == exprs.last());
        assert(b.push(values.last()) =~= values);
    } else {
        assert(values =~= Seq::<Val>::empty());
    }
}

/// Rows of the given values, without numbers.
pub open spec fn new_rows(rows: Seq<Seq<Val>>) -> Seq<RowV> {
    Seq::new(rows.len(), |i: int| RowV { id: 0, values: rows[i] })
}

proof fn lemma_written_rows(
    n: NumbersV,
    lists: Seq<Vec<Expression>>,
    rows: Seq<Seq<Val>>,
    columns: Seq<ColumnV>,
)
    requires
        written(n, lists, rows),
    ensures
        insert::rows_of_values(n, lists, Seq::empty(), columns) == Ok::<Seq<RowV>, Seq<char>>(
            new_rows(rows),
        ),
    decreases lists.len(),
{
    if lists.len() > 0 {
        let a = lists.drop_last();
        let b = rows.drop_last();
        assert(written(n, a, b)) by {
            assert forall|i: int| 0 <= i < b.len() implies (#[trigger] a[i])@.len()
                == b[i].len() by {
                assert(a[i] == lists[i]);
            }
            assert forall|i: int, k: int| 0 <= i < b.len() && 0 <= k < b[i].len() implies eval::given_value(
                n,
                #[trigger] a[i]@[k],
            ) == Ok::<Val, Seq<char>>(b[i][k]) by {
                assert(a[i]@[k] == lists[i]@[k]);
            }
        }
        lemma_written_rows(n, a, b, columns);
        let last = lists.len() - 1;
        assert(lists[last] == lists.last());
        assert forall|k: int| 0 <= k < rows[last].len() implies eval::given_value(
            n,
            #[trigger] lists[last]@[k],
        ) == Ok::<Val, Seq<char>>(rows[last][k]) by {
        }
        lemma_written_list(n, lists[last]@, rows[last]);
        assert(new_rows(b).push(RowV { id: 0, values: rows[last] }) =~= new_rows(rows));
    } else {
        assert(new_rows(rows) =~= Seq::<RowV>::empty());
    }
}

/// How many of some rows leave a column open.
pub open spec fn left_open(rows: Seq<Seq<Val>>, p: int) -> nat
    decreases rows.len(),
{
    if rows.len() == 0 {
        0
    } else if 0 <= p && rows.last()[p] is Null {
        left_open(rows.drop_last(), p) + 1
    } else {
        left_open(rows.drop_last(), p)
    }
}

/// What is stored in a column for a value that is given, where the next automatic number
/// is known: the value; for NULL the number, or the default, or the time of the insertion
/// as the default says, and else NULL.
pub open spec fn stored_value(given: Val, c: ColumnV, number: int, now: u64) -> Val {
    if !(given is Null) {
        given
    } else if c.auto_increment {
        Val::Int(number as i64)
    } else {
        match c.default_expr {
            Some(DefaultV::Value(v)) => v,
            Some(DefaultV::CurrentTimestamp) => Val::Text(time::timestamp_text(now as nat)),
            None => Val::Null,
        }
    }
}

/// At most one column, at the given place, has automatic numbers.
pub open spec fn numbers_only(columns: Seq<ColumnV>, p: int) -> bool {
    &&& -1 <= p < columns.len()
    &&& forall|c: int|
        0 <= c < columns.len() ==> ((#[trigger] columns[c]).auto_increment <==> c == p)
}

proof fn lemma_cells_given(
    s: insert::Completion,
    columns: Seq<ColumnV>,
    i: int,
    start: u64,
    now: u64,
    p: int,
)
    requires
        numbers_only(columns, p),
        0 <= i <= columns.len() <= s.values.len(),
    ensures
        ({
            let done = insert::cells_completed(s, columns, i, start, now);
            let one = 0 <= p < i && s.values[p] is Null;
            &&& done.given == s.given + (if one {
                1int
            } else {
                0
            })
            &&& done.last == (if one {
                (start + s.given) as u64
            } else {
                s.last
            })
        }),
    decreases i,
{
    if i > 0 {
        lemma_cells_given(s, columns, i - 1, start, now, p);
        laws::later_columns_are_untouched(s, columns, i - 1, start, now);
        assert(columns[i - 1].auto_increment <==> i - 1 == p);
    }
}

/// The rows that are stored for given ones.
pub open spec fn stored_rows(
    rows: Seq<Seq<Val>>,
    columns: Seq<ColumnV>,
    start: int,
    now: u64,
    p: int,
) -> Seq<Seq<Val>> {
    Seq::new(
        rows.len(),
        |i: int|
            Seq::new(
                columns.len(),
                |c: int|
                    stored_value(
                        rows[i][c],
                        columns[c],
                        start + left_open(rows.take(i), p),
                        now,
                    ),
            ),
    )
}

proof fn lemma_rows_stored(
    rows: Seq<Seq<Val>>,
    columns: Seq<ColumnV>,
    start: u64,
    now: u64,
    p: int,
)
    requires
        numbers_only(columns, p),
        forall|i: int| 0 <= i < rows.len() ==> (#[trigger] rows[i]).len() == columns.len(),
        start + rows.len() <= i64::MAX,
    ensures
        left_open(rows, p) <= rows.len(),
        ({
            let done = insert::rows_completed(new_rows(rows), columns, start, now);
            &&& done.given == left_open(rows, p)
            &&& done.last == (if left_open(rows, p) > 0 {
                (start + left_open(rows, p) - 1) as u64
            } else {
                0
            })
            &&& durability::values_of(done.rows) == stored_rows(rows, columns, start as int, now, p)
        }),
    decreases rows.len(),
{
    let all = new_rows(rows);
    let done = insert::rows_completed(all, columns, start, now);
    if rows.len() > 0 {
        let before = rows.drop_last();
        assert forall|i: int| 0 <= i < before.len() implies (#[trigger] before[i]).len()
            == columns.len() by {
            assert(before[i] == rows[i]);
        }
        lemma_rows_stored(before, columns, start, now, p);
        assert(all.drop_last() =~= new_rows(before));
        let first = insert::rows_completed(new_rows(before), columns, start, now);
        let last = rows.len() - 1;
        assert(rows[last] == rows.last());
        let s = insert::Completion {
            values: rows.last(),
            given: first.given,
            last: first.last,
        };
        let n = columns.len() as int;
        lemma_cells_given(s, columns, n, start, now, p);
        laws::later_columns_are_untouched(s, columns, n, start, now);
        let full = insert::cells_completed(s, columns, n, start, now);
        let want = stored_rows(rows, columns, start as int, now, p);
        assert(rows.take(last) =~= before);
        assert forall|c: int| 0 <= c < columns.len() implies full.values[c] == want[last][c] by {
            laws::missing_values_are_completed(s, columns, n, start, now, c);
            lemma_cells_given(s, columns, c, start, now, p);
            assert(columns[c].auto_increment <==> c == p);
        }
        assert(full.values =~= want[last]);
        assert(want.drop_last() =~= stored_rows(before, columns, start as int, now, p)) by {
            assert forall|i: int| 0 <= i < before.len() implies want[i] == stored_rows(
                before,
                columns,
                start as int,
                now,
                p,
            )[i] by {
                assert(before.take(i) =~= rows.take(i));
                assert(want[i] =~= stored_rows(before, columns, start as int, now, p)[i]);
            }
        }
        assert(durability::values_of(done.rows) =~= durability::values_of(first.rows).push(
            full.values,
        ));
        assert(durability::values_of(done.rows) =~= want);
    } else {
        assert(durability::values_of(done.rows) =~= stored_rows(
            rows,
            columns,
            start as int,
            now,
            p,
        ));
    }
}

/// An `INSERT` writes rows into a table that is there, one value for each column in the
/// order of the table.
pub open spec fn inserts(
    x: ExecV,
    db: Seq<char>,
    statement: SqlStatement,
    table: Seq<char>,
    columns: Seq<ColumnV>,
    rows: Seq<Seq<Val>>,
) -> bool {
    &&& statement matches SqlStatement::Insert { table: t, columns: names, source } && names@.len()
        == 0 && crate::sql::ast::table_text(t) == table && (source matches Some(q) && (q.body matches QueryBody::Values(
        lists,
    ) && written(x.numbers, lists@, rows)))
    &&& catalog::table_of(x.catalog, db, table) matches Ok(t) && t.columns == columns
    &&& forall|i: int| 0 <= i < rows.len() ==> (#[trigger] rows[i]).len() == columns.len()
}

/// `INSERT INTO t VALUES ..` puts the rows behind those that are there, in their order. A
/// value that is not given becomes the next automatic number, which go up by one from
/// each to the next, or the default of its column, or NULL. The statement reports how many
/// rows it inserted and the last automatic number, zero where it gave none.
pub proof fn insert_appends_rows_and_counts(
    x: ExecV,
    db: Seq<char>,
    statement: SqlStatement,
    now: u64,
    table: Seq<char>,
    columns: Seq<ColumnV>,
    rows: Seq<Seq<Val>>,
    p: int,
)
    requires
        inserts(x, db, statement, table, columns, rows),
        numbers_only(columns, p),
        durability::numbered(x.storage),
        executor::can_run(x, db, statement, now),
        catalog::next_number(x.catalog, table) + rows.len() <= i64::MAX,
    ensures
        ({
            let start = catalog::next_number(x.catalog, table);
            let open = left_open(rows, p);
            let y = executor::statement_outcome(x, db, statement, now).state;
            &&& reports(
                x,
                db,
                statement,
                now,
                rows.len(),
                if open > 0 {
                    (start + open - 1) as u64
                } else {
                    0
                },
            )
            &&& durability::values_of(rows_after(x, db, statement, now, table))
                == durability::values_of(storage::rows_of(x.storage, table)) + stored_rows(
                rows,
                columns,
                start as int,
                now,
                p,
            )
            &&& catalog::next_number(y.catalog, table) == start + open
        }),
{
    if let SqlStatement::Insert { table: t, columns: names, source } = statement {
        if let Some(q) = source {
            if let QueryBody::Values(lists) = q.body {
                lemma_inserted(x, db, statement, now, table, columns, rows, lists@);
            }
        }
    }
    let start = catalog::next_number(x.catalog, table);
    let all = new_rows(rows);
    lemma_rows_stored(rows, columns, start, now, p);
    let full = insert::rows_completed(all, columns, start, now);
    durability::completed_rows_have_no_numbers(all, columns, start, now);
    durability::inserted_rows_stand_behind(x.storage, table, full.rows);
    let u = catalog::normal(table);
    let s = storage::rows_inserted(x.storage, table, full.rows);
    assert(storage::rows_of(s, table) == durability::stored(s, u));
    assert(storage::rows_of(x.storage, table) == durability::stored(x.storage, u));
}

proof fn lemma_inserted(
    x: ExecV,
    db: Seq<char>,
    statement: SqlStatement,
    now: u64,
    table: Seq<char>,
    columns: Seq<ColumnV>,
    rows: Seq<Seq<Val>>,
    lists: Seq<Vec<Expression>>,
)
    requires
        inserts(x, db, statement, table, columns, rows),
        statement matches SqlStatement::Insert { table: t, columns: names, source } && (source matches Some(
            q,
        ) && (q.body matches QueryBody::Values(l) && l@ == lists)),
        written(x.numbers, lists, rows),
    ensures
        executor::statement_outcome(x, db, statement, now) == executor::inserted_outcome(
            x,
            db,
            table,
            columns,
            new_rows(rows),
            now,
        ),
        executor::can_run(x, db, statement, now) == executor::can_take_rows(
            x,
            table,
            columns,
            new_rows(rows),
            now,
        ),
{
    lemma_written_rows(x.numbers, lists, rows, columns);
    if let SqlStatement::Insert { table: t, columns: names, source } = statement {
        assert(model::views(names@) =~= Seq::<Seq<char>>::empty());
    }
}

/// The names of a column list mean columns at the given, different places.
pub open spec fn names_mean(
    names: Seq<Seq<char>>,
    columns: Seq<ColumnV>,
    places: Seq<int>,
) -> bool {
    &&& names.len() == places.len()
    &&& forall|k: int|
        0 <= k < names.len() ==> 0 <= places[k] < columns.len() && text::same_name(
            columns[places[k]].name,
            #[trigger] names[k],
        ) && forall|j: int|
            0 <= j < places[k] ==> !text::same_name((#[trigger] columns[j]).name, names[k])
    &&& forall|i: int, j: int|
        0 <= i < j < places.len() ==> #[trigger] places[i] != #[trigger] places[j]
}

/// The values of a row in the order of the table: those that are given for some places,
/// and NULL elsewhere.
pub open spec fn spread(values: Seq<Val>, places: Seq<int>, width: nat) -> Seq<Val> {
    let open = Seq::new(width, |c: int| Val::Null);
    Seq::new(width, |c: int| with_values(open, places, values, c))
}

proof fn lemma_spread(
    names: Seq<Seq<char>>,
    values: Seq<Val>,
    columns: Seq<ColumnV>,
    places: Seq<int>,
    n: int,
)
    requires
        names_mean(names, columns, places),
        names.len() == values.len(),
        0 <= n <= names.len(),
    ensures
        insert::placed(names, values, columns, n) is Ok,
        n == names.len() ==> insert::placed(names, values, columns, n) == Ok::<
            Seq<Val>,
            Seq<char>,
        >(spread(values, places, columns.len())),
    decreases n,
{
    assert forall|k: int| 0 <= k < names.len() implies eval::column_place(
        columns,
        #[trigger] names[k],
    ) == Some(places[k]) by {
        answers::name_means_first_column(columns, names[k], places[k]);
    }
    if n > 0 {
        lemma_spread(names, values, columns, places, n - 1);
        assert(eval::column_place(columns, names[n - 1]) == Some(places[n - 1]));
    }
    if n == names.len() {
        assert(laws::distinct_places(names, columns)) by {
            assert forall|i: int, j: int| 0 <= i < j < names.len() implies eval::column_place(
                columns,
                #[trigger] names[i],
            ) != eval::column_place(columns, #[trigger] names[j]) by {
                assert(places[i] != places[j]);
            }
        }
        laws::named_columns_get_their_values(names, values, columns, n);
        let row = insert::placed(names, values, columns, n)->Ok_0;
        let want = spread(values, places, columns.len());
        assert forall|c: int| 0 <= c < columns.len() implies row[c] == want[c] by {
            if exists|k: int| 0 <= k < places.len() && #[trigger] places[k] == c {
                let k = choose|k: int| 0 <= k < places.len() && #[trigger] places[k] == c;
                assert(laws::stands_at(columns, names[k], row, values[k]));
            } else {
                assert forall|i: int| 0 <= i < n implies eval::column_place(
                    columns,
                    #[trigger] names[i],
                ) != Some(c) by {
                    assert(places[i] != c);
                }
            }
        }
        assert(row =~= want);
    }
}

proof fn lemma_named_rows(
    n: NumbersV,
    lists: Seq<Vec<Expression>>,
    rows: Seq<Seq<Val>>,
    names: Seq<Seq<char>>,
    columns: Seq<ColumnV>,
    places: Seq<int>,
)
    requires
        written(n, lists, rows),
        names.len() > 0,
        names_mean(names, columns, places),
        forall|i: int| 0 <= i < rows.len() ==> (#[trigger] rows[i]).len() == names.len(),
    ensures
        insert::rows_of_values(n, lists, names, columns) == Ok::<Seq<RowV>, Seq<char>>(
            new_rows(Seq::new(rows.len(), |i: int| spread(rows[i], places, columns.len()))),
        ),
    decreases lists.len(),
{
    let full = Seq::new(rows.len(), |i: int| spread(rows[i], places, columns.len()));
    if lists.len() > 0 {
        let a = lists.drop_last();
        let b = rows.drop_last();
        assert(written(n, a, b)) by {
            assert forall|i: int| 0 <= i < b.len() implies (#[trigger] a[i])@.len()
                == b[i].len() by {
                assert(a[i] == lists[i]);
            }
            assert forall|i: int, k: int| 0 <= i < b.len() && 0 <= k < b[i].len() implies eval::given_value(
                n,
                #[trigger] a[i]@[k],
            ) == Ok::<Val, Seq<char>>(b[i][k]) by {
                assert(a[i]@[k] == lists[i]@[k]);
            }
        }
        assert forall|i: int| 0 <= i < b.len() implies (#[trigger] b[i]).len() == names.len() by {
            assert(b[i] == rows[i]);
        }
        lemma_named_rows(n, a, b, names, columns, places);
        let last = lists.len() - 1;
        assert(lists[last] == lists.last());
        assert forall|k: int| 0 <= k < rows[last].len() implies eval::given_value(
            n,
            #[trigger] lists[last]@[k],
        ) == Ok::<Val, Seq<char>>(rows[last][k]) by {
        }
        lemma_written_list(n, lists[last]@, rows[last]);
        lemma_spread(names, rows[last], columns, places, names.len() as int);
        let first = Seq::new(b.len(), |i: int| spread(b[i], places, columns.len()));
        assert(new_rows(first).push(RowV { id: 0, values: full[last] }) =~= new_rows(full));
    } else {
        assert(new_rows(full) =~= Seq::<RowV>::empty());
    }
}

/// `INSERT INTO t (..) VALUES ..` does what an `INSERT` does that writes each value at the
/// place of its column and NULL for all other columns.
pub proof fn column_list_places_values(
    x: ExecV,
    db: Seq<char>,
    named: SqlStatement,
    plain: SqlStatement,
    now: u64,
    table: Seq<char>,
    columns: Seq<ColumnV>,
    rows: Seq<Seq<Val>>,
    places: Seq<int>,
)
    requires
        named matches SqlStatement::Insert { table: t, columns: names, source } && names@.len() > 0
            && names_mean(model::views(names@), columns, places)
            && crate::sql::ast::table_text(t) == table && (source matches Some(q) && (
        q.body matches QueryBody::Values(lists) && written(x.numbers, lists@, rows))),
        forall|i: int| 0 <= i < rows.len() ==> (#[trigger] rows[i]).len() == places.len(),
        inserts(
            x,
            db,
            plain,
            table,
            columns,
            Seq::new(rows.len(), |i: int| spread(rows[i], places, columns.len())),
        ),
    ensures
        executor::statement_outcome(x, db, named, now) == executor::statement_outcome(
            x,
            db,
            plain,
            now,
        ),
        executor::can_run(x, db, named, now) == executor::can_run(x, db, plain, now),
{
    let full = Seq::new(rows.len(), |i: int| spread(rows[i], places, columns.len()));
    if let SqlStatement::Insert { table: t, columns: names, source } = plain {
        if let Some(q) = source {
            if let QueryBody::Values(lists) = q.body {
                lemma_inserted(x, db, plain, now, table, columns, full, lists@);
            }
        }
    }
    if let SqlStatement::Insert { table: t, columns: names, source } = named {
        if let Some(q) = source {
            if let QueryBody::Values(lists) = q.body {
                assert(model::views(names@).len() == names@.len());
                lemma_named_rows(
                    x.numbers,
                    lists@,
                    rows,
                    model::views(names@),
                    columns,
                    places,
                );
            }
        }
    }
}

/// `DELETE` with a table in front of `FROM` takes the rows out of that table, as if it were
/// the one behind `FROM`.
pub proof fn delete_names_its_table(
    x: ExecV,
    db: Seq<char>,
    named: SqlStatement,
    plain: SqlStatement,
    now: u64,
)
    requires
        named matches SqlStatement::Delete { tables, from, selection } && plain matches
            SqlStatement::Delete { tables: no_tables, from: source, selection: same }
            && tables@.len() > 0 && no_tables@.len() == 0 && source@.len() > 0
            && crate::sql::ast::table_text(source@[0]) == crate::sql::ast::path_text(tables@[0])
            && selection == same,
    ensures
        executor::statement_outcome(x, db, named, now) == executor::statement_outcome(
            x,
            db,
            plain,
            now,
        ),
{
}

} // verus!
