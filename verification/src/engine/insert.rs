//! The rows of an `INSERT`: their values, defaults and automatic numbers.

use vstd::prelude::*;
use vstd::string::*;

use crate::engine::eval;
use crate::engine::eval::{eval_given, find_place};
use crate::engine::storage::{Row, RowV};
use crate::engine::time;
use crate::engine::types::{
    Column, ColumnV, DefaultExpr, DefaultV, Duplicate, Numbers, NumbersV, Val, Value,
};
use crate::model;
use crate::sql::ast::{Expression, QueryBody, SelectQuery};

verus! {

broadcast use crate::model::group_views;

/// The values of a row as they are written, or why there are none; the first
/// expression without a value is the error.
pub open spec fn written_values(n: NumbersV, exprs: Seq<Expression>) -> Result<
    Seq<Val>,
    Seq<char>,
>
    decreases exprs.len(),
{
    if exprs.len() == 0 {
        Ok(Seq::empty())
    } else {
        match written_values(n, exprs.drop_last()) {
            Err(e) => Err(e),
            Ok(values) => match eval::given_value(n, exprs.last()) {
                Err(e) => Err(e),
                Ok(v) => Ok(values.push(v)),
            },
        }
    }
}

proof fn lemma_written_error(n: NumbersV, exprs: Seq<Expression>, i: int)
    requires
        0 <= i <= exprs.len(),
        written_values(n, exprs.take(i)) is Err,
    ensures
        written_values(n, exprs) == written_values(n, exprs.take(i)),
    decreases exprs.len() - i,
{
    if i < exprs.len() {
        assert(exprs.take(i + 1).drop_last() =~= exprs.take(i));
        lemma_written_error(n, exprs, i + 1);
    } else {
        assert(exprs.take(i) =~= exprs);
    }
}

pub open spec fn unknown_column(name: Seq<char>) -> Seq<char> {
    "Unknown column: "@ + name
}

pub open spec fn nulls(count: nat) -> Seq<Val> {
    Seq::new(count, |i: int| Val::Null)
}

/// A row of the table in which the first `i` named columns have their values. A
/// name without a value is left aside; an unknown name is an error.
pub open spec fn placed(
    names: Seq<Seq<char>>,
    values: Seq<Val>,
    columns: Seq<ColumnV>,
    i: int,
) -> Result<Seq<Val>, Seq<char>>
    decreases i,
{
    if i <= 0 {
        Ok(nulls(columns.len()))
    } else {
        match placed(names, values, columns, i - 1) {
            Err(e) => Err(e),
            Ok(row) => if i - 1 < values.len() {
                match eval::column_place(columns, names[i - 1]) {
                    None => Err(unknown_column(names[i - 1])),
                    Some(p) => Ok(row.update(p, values[i - 1])),
                }
            } else {
                Ok(row)
            },
        }
    }
}

/// The values of a row: in the order of the table, or under the named columns.
pub open spec fn row_values(
    n: NumbersV,
    exprs: Seq<Expression>,
    names: Seq<Seq<char>>,
    columns: Seq<ColumnV>,
) -> Result<Seq<Val>, Seq<char>> {
    match written_values(n, exprs) {
        Err(e) => Err(e),
        Ok(values) => if names.len() == 0 {
            Ok(values)
        } else {
            placed(names, values, columns, names.len() as int)
        },
    }
}

/// The rows of a list of values, without numbers; the first error counts.
pub open spec fn rows_of_values(
    n: NumbersV,
    values: Seq<Vec<Expression>>,
    names: Seq<Seq<char>>,
    columns: Seq<ColumnV>,
) -> Result<Seq<RowV>, Seq<char>>
    decreases values.len(),
{
    if values.len() == 0 {
        Ok(Seq::empty())
    } else {
        match rows_of_values(n, values.drop_last(), names, columns) {
            Err(e) => Err(e),
            Ok(rows) => match row_values(n, values.last()@, names, columns) {
                Err(e) => Err(e),
                Ok(v) => Ok(rows.push(RowV { id: 0, values: v })),
            },
        }
    }
}

/// The rows that an `INSERT` takes from its source, or why it takes none.
pub open spec fn source_rows(
    n: NumbersV,
    source: Option<SelectQuery>,
    names: Seq<Seq<char>>,
    columns: Seq<ColumnV>,
) -> Result<Seq<RowV>, Seq<char>> {
    match source {
        None => Err("INSERT missing source"@),
        Some(q) => match q.body {
            QueryBody::Values(values) => rows_of_values(n, values@, names, columns),
            _ => Err("INSERT only supports VALUES"@),
        },
    }
}

// ---------------------------------------------------------------------------
// Defaults and automatic numbers
// ---------------------------------------------------------------------------

pub open spec fn default_value(d: DefaultV, now: u64) -> Val {
    match d {
        DefaultV::Value(v) => v,
        DefaultV::CurrentTimestamp => Val::Text(time::timestamp_text(now as nat)),
    }
}

/// Values on their way into a table: how many automatic numbers were given, and
/// the last of them.
#[verifier::ext_equal]
pub struct Completion {
    pub values: Seq<Val>,
    pub given: nat,
    pub last: u64,
}

/// The automatic number after `given` others.
pub open spec fn number_after(start: u64, given: nat) -> u64 {
    (start + given) as u64
}

/// One column of a row: a NULL gets the next automatic number or the default, as
/// far as the column has one.
pub open spec fn cell_completed(
    s: Completion,
    column: ColumnV,
    i: int,
    start: u64,
    now: u64,
) -> Completion {
    if !(s.values[i] is Null) {
        s
    } else if column.auto_increment {
        let id = number_after(start, s.given);
        Completion {
            values: s.values.update(i, Val::Int(id as i64)),
            given: s.given + 1,
            last: id,
        }
    } else {
        match column.default_expr {
            Some(d) => Completion { values: s.values.update(i, default_value(d, now)), ..s },
            None => s,
        }
    }
}

/// The first `i` columns of a row.
pub open spec fn cells_completed(
    s: Completion,
    columns: Seq<ColumnV>,
    i: int,
    start: u64,
    now: u64,
) -> Completion
    decreases i,
{
    if i <= 0 {
        s
    } else {
        cell_completed(
            cells_completed(s, columns, i - 1, start, now),
            columns[i - 1],
            i - 1,
            start,
            now,
        )
    }
}

/// Rows with their defaults and automatic numbers, how many numbers were given,
/// and the last of them.
#[verifier::ext_equal]
pub struct Completed {
    pub rows: Seq<RowV>,
    pub given: nat,
    pub last: u64,
}

pub open spec fn rows_completed(
    rows: Seq<RowV>,
    columns: Seq<ColumnV>,
    start: u64,
    now: u64,
) -> Completed
    decreases rows.len(),
{
    if rows.len() == 0 {
        Completed { rows: Seq::empty(), given: 0, last: 0 }
    } else {
        let before = rows_completed(rows.drop_last(), columns, start, now);
        let row = rows.last();
        let done = cells_completed(
            Completion { values: row.values, given: before.given, last: before.last },
            columns,
            columns.len() as int,
            start,
            now,
        );
        Completed {
            rows: before.rows.push(RowV { id: row.id, values: done.values }),
            given: done.given,
            last: done.last,
        }
    }
}

/// Every row has a value for every column.
pub open spec fn wide_enough(rows: Seq<RowV>, columns: Seq<ColumnV>) -> bool {
    forall|i: int| 0 <= i < rows.len() ==> (#[trigger] rows[i]).values.len() >= columns.len()
}

proof fn lemma_cells_grow(s: Completion, columns: Seq<ColumnV>, i: int, start: u64, now: u64)
    ensures
        s.given <= cells_completed(s, columns, i, start, now).given,
    decreases i,
{
    if i > 0 {
        lemma_cells_grow(s, columns, i - 1, start, now);
    }
}

pub proof fn lemma_cells_grow_between(
    s: Completion,
    columns: Seq<ColumnV>,
    i: int,
    j: int,
    start: u64,
    now: u64,
)
    requires
        i <= j,
    ensures
        cells_completed(s, columns, i, start, now).given <= cells_completed(
            s,
            columns,
            j,
            start,
            now,
        ).given,
    decreases j - i,
{
    if i < j {
        lemma_cells_grow_between(s, columns, i, j - 1, start, now);
    }
}

pub proof fn lemma_rows_grow(rows: Seq<RowV>, columns: Seq<ColumnV>, start: u64, now: u64, i: int)
    requires
        0 <= i <= rows.len(),
    ensures
        rows_completed(rows.take(i), columns, start, now).given <= rows_completed(
            rows,
            columns,
            start,
            now,
        ).given,
    decreases rows.len(),
{
    if i == rows.len() {
        assert(rows.take(i) =~= rows);
    } else {
        let before = rows.drop_last();
        assert(rows.take(i) =~= before.take(i));
        lemma_rows_grow(before, columns, start, now, i);
        let b = rows_completed(before, columns, start, now);
        lemma_cells_grow(
            Completion { values: rows.last().values, given: b.given, last: b.last },
            columns,
            columns.len() as int,
            start,
            now,
        );
    }
}

/// How many automatic numbers a row needs does not depend on those before.
proof fn lemma_given_shift(
    a: Completion,
    b: Completion,
    columns: Seq<ColumnV>,
    i: int,
    start: u64,
    now: u64,
    other: u64,
    later: u64,
)
    requires
        a.values == b.values,
        0 <= i <= columns.len() <= a.values.len(),
    ensures
        ({
            let x = cells_completed(a, columns, i, start, now);
            let y = cells_completed(b, columns, i, other, later);
            &&& x.given - a.given == y.given - b.given
            &&& x.values.len() == a.values.len() == y.values.len()
            &&& forall|j: int| i <= j < a.values.len() ==> x.values[j] == a.values[j]
                && y.values[j] == a.values[j]
        }),
    decreases i,
{
    if i > 0 {
        lemma_given_shift(a, b, columns, i - 1, start, now, other, later);
    }
}

// ---------------------------------------------------------------------------
// The work
// ---------------------------------------------------------------------------

fn values_of(exprs: &Vec<Expression>, numbers: &Numbers) -> (r: Result<Vec<Value>, String>)
    ensures
        match r {
            Ok(v) => written_values(numbers@, exprs@) == Ok::<Seq<Val>, Seq<char>>(
                model::views(v@),
            ),
            Err(e) => written_values(numbers@, exprs@) == Err::<Seq<Val>, Seq<char>>(e@),
        },
{
    let mut out: Vec<Value> = Vec::new();
    let mut i: usize = 0;
    while i < exprs.len()
        invariant
            i <= exprs.len(),
            written_values(numbers@, exprs@.take(i as int)) == Ok::<Seq<Val>, Seq<char>>(
                model::views(out@),
            ),
        decreases exprs.len() - i,
    {
        proof {
            assert(exprs@.take(i + 1).drop_last() =~= exprs@.take(i as int));
            assert(exprs@.take(i + 1).last() == exprs@[i as int]);
        }
        match eval_given(&exprs[i], numbers) {
            Ok(v) => {
                out.push(v);
            },
            Err(e) => {
                proof {
                    lemma_written_error(numbers@, exprs@, i + 1);
                }
                return Err(e);
            },
        }
        i = i + 1;
    }
    assert(exprs@.take(exprs@.len() as int) =~= exprs@);
    Ok(out)
}

fn null_row(count: usize) -> (r: Vec<Value>)
    ensures
        model::views(r@) == nulls(count as nat),
{
    let mut out: Vec<Value> = Vec::new();
    let mut i: usize = 0;
    while i < count
        invariant
            i <= count,
            model::views(out@) == nulls(i as nat),
        decreases count - i,
    {
        out.push(Value::Null);
        i = i + 1;
        assert(model::views(out@) =~= nulls(i as nat));
    }
    out
}

proof fn lemma_placed_error(
    names: Seq<Seq<char>>,
    values: Seq<Val>,
    columns: Seq<ColumnV>,
    i: int,
    j: int,
)
    requires
        0 <= i <= j,
        placed(names, values, columns, i) is Err,
    ensures
        placed(names, values, columns, j) == placed(names, values, columns, i),
    decreases j - i,
{
    if i < j {
        lemma_placed_error(names, values, columns, i, j - 1);
    }
}

fn read_row(
    exprs: &Vec<Expression>,
    names: &Vec<String>,
    columns: &Vec<Column>,
    numbers: &Numbers,
) -> (r: Result<Vec<Value>, String>)
    ensures
        match r {
            Ok(v) => row_values(
                numbers@,
                exprs@,
                model::views(names@),
                model::views(columns@),
            ) == Ok::<Seq<Val>, Seq<char>>(model::views(v@)),
            Err(e) => row_values(
                numbers@,
                exprs@,
                model::views(names@),
                model::views(columns@),
            ) == Err::<Seq<Val>, Seq<char>>(e@),
        },
{
    let values = match values_of(exprs, numbers) {
        Ok(values) => values,
        Err(e) => {
            return Err(e);
        },
    };
    if names.len() == 0 {
        return Ok(values);
    }
    let ghost vals = model::views(values@);
    let ghost list = model::views(names@);
    let ghost cols = model::views(columns@);
    let mut row = null_row(columns.len());
    let mut i: usize = 0;
    while i < names.len()
        invariant
            vals == model::views(values@),
            written_values(numbers@, exprs@) == Ok::<Seq<Val>, Seq<char>>(vals),
            list == model::views(names@),
            cols == model::views(columns@),
            names.len() > 0,
            i <= names.len(),
            placed(list, vals, cols, i as int) == Ok::<Seq<Val>, Seq<char>>(model::views(row@)),
            row.len() == columns.len(),
        decreases names.len() - i,
    {
        if i < values.len() {
            match find_place(columns.as_slice(), names[i].as_str()) {
                None => {
                    let mut message = "Unknown column: ".to_string();
                    message.append(names[i].as_str());
                    proof {
                        lemma_placed_error(list, vals, cols, i + 1, names.len() as int);
                    }
                    return Err(message);
                },
                Some(p) => {
                    row.set(p, values[i].duplicate());
                },
            }
        }
        i = i + 1;
    }
    Ok(row)
}

proof fn lemma_rows_error(
    n: NumbersV,
    values: Seq<Vec<Expression>>,
    names: Seq<Seq<char>>,
    columns: Seq<ColumnV>,
    i: int,
)
    requires
        0 <= i <= values.len(),
        rows_of_values(n, values.take(i), names, columns) is Err,
    ensures
        rows_of_values(n, values, names, columns) == rows_of_values(
            n,
            values.take(i),
            names,
            columns,
        ),
    decreases values.len() - i,
{
    if i < values.len() {
        assert(values.take(i + 1).drop_last() =~= values.take(i));
        lemma_rows_error(n, values, names, columns, i + 1);
    } else {
        assert(values.take(i) =~= values);
    }
}

/// The rows that an `INSERT` takes from its source.
pub fn read_rows(
    source: &Option<SelectQuery>,
    names: &Vec<String>,
    columns: &Vec<Column>,
    numbers: &Numbers,
) -> (r: Result<Vec<Row>, String>)
    ensures
        match r {
            Ok(rows) => source_rows(
                numbers@,
                *source,
                model::views(names@),
                model::views(columns@),
            ) == Ok::<Seq<RowV>, Seq<char>>(model::views(rows@)),
            Err(e) => source_rows(
                numbers@,
                *source,
                model::views(names@),
                model::views(columns@),
            ) == Err::<Seq<RowV>, Seq<char>>(e@),
        },
{
    let query = match source {
        None => {
            return Err("INSERT missing source".to_string());
        },
        Some(q) => q,
    };
    let values = match &query.body {
        QueryBody::Values(values) => values,
        _ => {
            return Err("INSERT only supports VALUES".to_string());
        },
    };
    let ghost list = model::views(names@);
    let ghost cols = model::views(columns@);
    let mut rows: Vec<Row> = Vec::new();
    let mut i: usize = 0;
    while i < values.len()
        invariant
            list == model::views(names@),
            cols == model::views(columns@),
            source_rows(numbers@, *source, list, cols) == rows_of_values(
                numbers@,
                values@,
                list,
                cols,
            ),
            i <= values.len(),
            rows_of_values(numbers@, values@.take(i as int), list, cols) == Ok::<
                Seq<RowV>,
                Seq<char>,
            >(model::views(rows@)),
        decreases values.len() - i,
    {
        let ghost next = values@.take(i + 1);
        proof {
            assert(next.drop_last() =~= values@.take(i as int));
            assert(next.last() == values@[i as int]);
        }
        match read_row(&values[i], names, columns, numbers) {
            Ok(v) => {
                rows.push(Row { id: 0, values: v });
            },
            Err(e) => {
                proof {
                    lemma_rows_error(numbers@, values@, list, cols, i + 1);
                }
                return Err(e);
            },
        }
        i = i + 1;
    }
    assert(values@.take(values@.len() as int) =~= values@);
    Ok(rows)
}

/// Whether every row has a value for every column.
pub fn rows_wide_enough(rows: &Vec<Row>, columns: &Vec<Column>) -> (r: bool)
    ensures
        r == wide_enough(model::views(rows@), model::views(columns@)),
{
    let ghost v = model::views(rows@);
    let mut i: usize = 0;
    while i < rows.len()
        invariant
            v == model::views(rows@),
            i <= rows.len(),
            forall|j: int|
                0 <= j < i ==> (#[trigger] v[j]).values.len() >= model::views(columns@).len(),
        decreases rows.len() - i,
    {
        assert(v[i as int] == rows@[i as int]@);
        if rows[i].values.len() < columns.len() {
            return false;
        }
        i = i + 1;
    }
    true
}

/// The value of a default at a point in time, in seconds since 1970.
pub fn eval_default_expr(expr: &DefaultExpr, now: u64) -> (r: Value)
    ensures
        r@ == default_value(expr@, now),
{
    match expr {
        DefaultExpr::Value(v) => v.duplicate(),
        DefaultExpr::CurrentTimestamp => Value::Text(time::format_timestamp(now)),
    }
}

/// How many automatic numbers rows need, where that can be counted.
pub fn numbers_needed(rows: &Vec<Row>, columns: &Vec<Column>) -> (r: Option<u64>)
    requires
        wide_enough(model::views(rows@), model::views(columns@)),
    ensures
        match r {
            Some(n) => forall|start: u64, now: u64|
                #[trigger] rows_completed(
                    model::views(rows@),
                    model::views(columns@),
                    start,
                    now,
                ).given == n,
            None => forall|start: u64, now: u64|
                #[trigger] rows_completed(
                    model::views(rows@),
                    model::views(columns@),
                    start,
                    now,
                ).given > u64::MAX,
        },
{
    let ghost v = model::views(rows@);
    let ghost cols = model::views(columns@);
    let mut count: u64 = 0;
    let mut i: usize = 0;
    while i < rows.len()
        invariant
            v == model::views(rows@),
            cols == model::views(columns@),
            wide_enough(v, cols),
            i <= rows.len(),
            forall|start: u64, now: u64|
                #[trigger] rows_completed(v.take(i as int), cols, start, now).given == count,
        decreases rows.len() - i,
    {
        let ghost next = v.take(i + 1);
        let ghost row = v[i as int];
        let ghost blank = Completion { values: row.values, given: 0, last: 0 };
        proof {
            assert(next.drop_last() =~= v.take(i as int));
            assert(next.last() == row);
            assert(row == rows@[i as int]@);
            assert(row.values.len() >= cols.len());
        }
        let before: u64 = count;
        let mut j: usize = 0;
        while j < columns.len()
            invariant
                v == model::views(rows@),
                cols == model::views(columns@),
                wide_enough(v, cols),
                i < rows.len(),
                row == v[i as int],
                row == rows@[i as int]@,
                row.values.len() >= cols.len(),
                blank == (Completion { values: row.values, given: 0, last: 0 }),
                j <= columns.len(),
                before <= count,
                next == v.take(i + 1),
                next.drop_last() == v.take(i as int),
                next.last() == row,
                cells_completed(blank, cols, j as int, 1, 0).given == count - before,
                forall|start: u64, now: u64|
                    #[trigger] rows_completed(v.take(i as int), cols, start, now).given == before,
            decreases columns.len() - j,
        {
            proof {
                lemma_given_shift(blank, blank, cols, j as int, 1, 0, 1, 0);
                assert(cols[j as int] == columns@[j as int]@);
                assert(row.values[j as int] == rows@[i as int].values@[j as int]@);
            }
            let missing: bool = match &rows[i].values[j] {
                Value::Null => true,
                _ => false,
            };
            if missing && columns[j].auto_increment {
                if count == u64::MAX {
                    proof {
                        assert forall|start: u64, now: u64|
                            #[trigger] rows_completed(v, cols, start, now).given > u64::MAX by {
                            let b = rows_completed(v.take(i as int), cols, start, now);
                            let s = Completion {
                                values: row.values,
                                given: b.given,
                                last: b.last,
                            };
                            lemma_given_shift(blank, s, cols, j + 1, 1, 0, start, now);
                            lemma_cells_grow_between(
                                s,
                                cols,
                                j + 1,
                                cols.len() as int,
                                start,
                                now,
                            );
                            lemma_rows_grow(v, cols, start, now, i + 1);
                        }
                    }
                    return None;
                }
                count = count + 1;
            }
            j = j + 1;
        }
        proof {
            assert forall|start: u64, now: u64|
                #[trigger] rows_completed(next, cols, start, now).given == count by {
                let b = rows_completed(v.take(i as int), cols, start, now);
                let s = Completion { values: row.values, given: b.given, last: b.last };
                lemma_given_shift(blank, s, cols, cols.len() as int, 1, 0, start, now);
            }
        }
        i = i + 1;
    }
    assert(v.take(v.len() as int) =~= v);
    Some(count)
}

fn complete_row(
    values: Vec<Value>,
    columns: &Vec<Column>,
    start: u64,
    given: u64,
    last: u64,
    now: u64,
) -> (r: (Vec<Value>, u64, u64))
    requires
        columns@.len() <= values@.len(),
        start + cells_completed(
            Completion { values: model::views(values@), given: given as nat, last },
            model::views(columns@),
            columns@.len() as int,
            start,
            now,
        ).given <= u64::MAX,
    ensures
        cells_completed(
            Completion { values: model::views(values@), given: given as nat, last },
            model::views(columns@),
            columns@.len() as int,
            start,
            now,
        ) == (Completion { values: model::views(r.0@), given: r.1 as nat, last: r.2 }),
{
    let ghost s = Completion { values: model::views(values@), given: given as nat, last };
    let ghost cols = model::views(columns@);
    let mut row = values;
    let mut count: u64 = given;
    let mut latest: u64 = last;
    let mut i: usize = 0;
    while i < columns.len()
        invariant
            cols == model::views(columns@),
            i <= columns.len() <= row.len(),
            start + cells_completed(s, cols, cols.len() as int, start, now).given <= u64::MAX,
            cells_completed(s, cols, i as int, start, now) == (Completion {
                values: model::views(row@),
                given: count as nat,
                last: latest,
            }),
        decreases columns.len() - i,
    {
        proof {
            lemma_cells_grow_between(s, cols, i + 1, cols.len() as int, start, now);
            assert(cols[i as int] == columns@[i as int]@);
        }
        let missing: bool = match &row[i] {
            Value::Null => true,
            _ => false,
        };
        if missing {
            if columns[i].auto_increment {
                let id: u64 = start + count;
                row.set(i, Value::Int(id as i64));
                count = count + 1;
                latest = id;
            } else if let Some(d) = &columns[i].default_expr {
                row.set(i, eval_default_expr(d, now));
            }
        }
        i = i + 1;
    }
    (row, count, latest)
}

/// Gives rows their defaults and automatic numbers, and tells how many numbers
/// were given and which was the last.
pub fn complete_rows(rows: Vec<Row>, columns: &Vec<Column>, start: u64, now: u64) -> (r: (
    Vec<Row>,
    u64,
    u64,
))
    requires
        wide_enough(model::views(rows@), model::views(columns@)),
        start + rows_completed(
            model::views(rows@),
            model::views(columns@),
            start,
            now,
        ).given <= u64::MAX,
    ensures
        rows_completed(model::views(rows@), model::views(columns@), start, now) == (Completed {
            rows: model::views(r.0@),
            given: r.1 as nat,
            last: r.2,
        }),
{
    let ghost v = model::views(rows@);
    let ghost cols = model::views(columns@);
    let mut out: Vec<Row> = Vec::new();
    let mut given: u64 = 0;
    let mut last: u64 = 0;
    let mut i: usize = 0;
    while i < rows.len()
        invariant
            v == model::views(rows@),
            cols == model::views(columns@),
            wide_enough(v, cols),
            start + rows_completed(v, cols, start, now).given <= u64::MAX,
            i <= rows.len(),
            rows_completed(v.take(i as int), cols, start, now) == (Completed {
                rows: model::views(out@),
                given: given as nat,
                last,
            }),
        decreases rows.len() - i,
    {
        let ghost next = v.take(i + 1);
        proof {
            assert(next.drop_last() =~= v.take(i as int));
            assert(next.last() == rows@[i as int]@);
            assert(v[i as int] == rows@[i as int]@);
            assert(v[i as int].values.len() >= cols.len());
            lemma_rows_grow(v, cols, start, now, i + 1);
        }
        let row = rows[i].duplicate();
        let (values, count, latest) = complete_row(row.values, columns, start, given, last, now);
        out.push(Row { id: row.id, values });
        given = count;
        last = latest;
        i = i + 1;
    }
    assert(v.take(v.len() as int) =~= v);
    (out, given, last)
}

} // verus!
