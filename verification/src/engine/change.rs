//! What `DELETE` and `UPDATE` do to the rows of a table.

use vstd::prelude::*;
use vstd::string::*;

use crate::engine::eval;
use crate::engine::eval::{eval_given, find_place, row_selected};
use crate::engine::query;
use crate::engine::storage;
use crate::engine::storage::{Row, RowTable, RowV};
use crate::engine::types::{duplicate_all, Column, ColumnV, Duplicate, Numbers, NumbersV, Val, Value};
use crate::model;
use crate::sql::ast::{AssignmentSpec, Expression, Node};

verus! {

broadcast use crate::model::group_views;

// ---------------------------------------------------------------------------
// DELETE
// ---------------------------------------------------------------------------

/// The rows that are not selected, in their order.
pub open spec fn unselected(
    rows: Seq<RowV>,
    selection: Option<Expression>,
    columns: Seq<ColumnV>,
    n: NumbersV,
) -> Seq<RowV>
    decreases rows.len(),
{
    if rows.len() == 0 {
        rows
    } else {
        let before = unselected(rows.drop_last(), selection, columns, n);
        if query::is_selected(rows.last(), selection, columns, n) {
            before
        } else {
            before.push(rows.last())
        }
    }
}

/// Every row is either selected or not, and none appears that was not there.
pub proof fn selection_splits_rows(
    rows: Seq<RowV>,
    selection: Option<Expression>,
    columns: Seq<ColumnV>,
    n: NumbersV,
    row: RowV,
)
    ensures
        query::selected(rows, selection, columns, n).contains(row) <==> rows.contains(row)
            && query::is_selected(row, selection, columns, n),
        unselected(rows, selection, columns, n).contains(row) <==> rows.contains(row)
            && !query::is_selected(row, selection, columns, n),
        query::selected(rows, selection, columns, n).len() + unselected(
            rows,
            selection,
            columns,
            n,
        ).len() == rows.len(),
    decreases rows.len(),
{
    if rows.len() > 0 {
        let before = rows.drop_last();
        let last = rows.last();
        selection_splits_rows(before, selection, columns, n, row);
        lemma_contains_push(before, last, row);
        assert(before.push(last) =~= rows);
        lemma_contains_push(query::selected(before, selection, columns, n), last, row);
        lemma_contains_push(unselected(before, selection, columns, n), last, row);
    }
}

proof fn lemma_contains_push<T>(s: Seq<T>, x: T, y: T)
    ensures
        s.push(x).contains(y) <==> s.contains(y) || x == y,
{
    if s.contains(y) {
        let i = choose|i: int| 0 <= i < s.len() && s[i] == y;
        assert(s.push(x)[i] == y);
    }
    if x == y {
        assert(s.push(x)[s.len() as int] == y);
    }
    if s.push(x).contains(y) {
        let i = choose|i: int| 0 <= i < s.push(x).len() && s.push(x)[i] == y;
        if i < s.len() {
            assert(s[i] == y);
        }
    }
}

/// The numbers of the rows that stay lie below those of the rows that follow.
proof fn lemma_kept_below(
    rows: Seq<RowV>,
    i: int,
    selection: Option<Expression>,
    columns: Seq<ColumnV>,
    n: NumbersV,
)
    requires
        storage::sorted(rows),
        0 <= i <= rows.len(),
    ensures
        ({
            let kept = unselected(rows.take(i), selection, columns, n);
            &&& storage::sorted(kept)
            &&& forall|a: int, b: int|
                0 <= a < kept.len() && i <= b < rows.len() ==> (#[trigger] kept[a]).id < (
                #[trigger] rows[b]).id
        }),
    decreases i,
{
    if i > 0 {
        lemma_kept_below(rows, i - 1, selection, columns, n);
        let next = rows.take(i);
        assert(next.drop_last() =~= rows.take(i - 1));
        assert(next.last() == rows[i - 1]);
    }
}

/// Removes the rows that are selected, and returns them.
pub fn remove_selected(
    table: &mut RowTable,
    selection: &Option<Expression>,
    columns: &Vec<Column>,
    numbers: &Numbers,
) -> (r: Vec<Row>)
    ensures
        model::views(r@) == query::selected(
            old(table)@,
            *selection,
            model::views(columns@),
            numbers@,
        ),
        final(table)@ == unselected(
            old(table)@,
            *selection,
            model::views(columns@),
            numbers@,
        ),
{
    let ghost v = table@;
    let ghost cols = model::views(columns@);
    let rows: Vec<Row> = duplicate_all(table.rows().as_slice());
    let mut out: Vec<Row> = Vec::new();
    let mut i: usize = 0;
    proof {
        assert(v.take(0) =~= Seq::<RowV>::empty());
        assert(v.skip(0) =~= v);
        assert(Seq::<RowV>::empty() + v =~= v);
    }
    while i < rows.len()
        invariant
            v == model::views(rows@),
            v == old(table)@,
            storage::sorted(v),
            cols == model::views(columns@),
            i <= rows.len(),
            model::views(out@) == query::selected(v.take(i as int), *selection, cols, numbers@),
            table@ == unselected(v.take(i as int), *selection, cols, numbers@) + v.skip(i as int),
        decreases rows.len() - i,
    {
        let ghost next = v.take(i + 1);
        let ghost kept = unselected(v.take(i as int), *selection, cols, numbers@);
        proof {
            assert(next.drop_last() =~= v.take(i as int));
            assert(next.last() == rows@[i as int]@);
            assert(v[i as int] == rows@[i as int]@);
            lemma_kept_below(v, i as int, *selection, cols, numbers@);
        }
        if row_selected(selection, columns.as_slice(), rows[i].values.as_slice(), numbers) {
            let ghost before = table@;
            proof {
                assert forall|a: int| 0 <= a < kept.len() implies (#[trigger] before[a]).id
                    < v[i as int].id by {
                    assert(before[a] == kept[a]);
                }
                assert forall|a: int| kept.len() <= a < before.len() implies (
                #[trigger] before[a]).id >= v[i as int].id by {
                    assert(before[a] == v[i + (a - kept.len())]);
                }
                storage::lemma_place_is(before, v[i as int].id, kept.len() as int);
                assert(before[kept.len() as int] == v[i as int]);
            }
            table.remove(rows[i].id);
            out.push(rows[i].duplicate());
            assert(table@ =~= kept + v.skip(i + 1));
        } else {
            assert(table@ =~= kept.push(v[i as int]) + v.skip(i + 1));
        }
        i = i + 1;
    }
    proof {
        assert(v.take(v.len() as int) =~= v);
        assert(v.skip(v.len() as int) =~= Seq::<RowV>::empty());
        let kept = unselected(v, *selection, cols, numbers@);
        assert(kept + Seq::<RowV>::empty() =~= kept);
    }
    out
}

// ---------------------------------------------------------------------------
// UPDATE
// ---------------------------------------------------------------------------

/// What an assignment puts into a row: a value, or what the row has at a place.
#[derive(Debug)]
pub enum NewValue {
    Given(Value),
    Column(usize),
}

/// What a `NewValue` stands for.
pub enum NewV {
    Given(Val),
    Column(int),
}

impl View for NewValue {
    type V = NewV;

    open spec fn view(&self) -> NewV {
        match self {
            NewValue::Given(v) => NewV::Given(v@),
            NewValue::Column(i) => NewV::Column(*i as int),
        }
    }
}

/// What an expression puts into a row: the value of a column or of a literal.
pub open spec fn assigned_value(n: NumbersV, e: Expression, columns: Seq<ColumnV>) -> Result<
    NewV,
    Seq<char>,
> {
    match e.node {
        Node::Identifier(name) => match eval::column_place(columns, name@) {
            None => Err("Unknown column: "@ + name@),
            Some(i) => Ok(NewV::Column(i)),
        },
        _ => match eval::given_value(n, e) {
            Ok(v) => Ok(NewV::Given(v)),
            Err(m) => Err(m),
        },
    }
}

/// The value that an assignment puts into a row with the given values.
pub open spec fn new_value(values: Seq<Val>, v: NewV) -> Val {
    match v {
        NewV::Given(x) => x,
        NewV::Column(i) => if 0 <= i < values.len() {
            values[i]
        } else {
            Val::Null
        },
    }
}

/// The places that assignments change and what they put there, or why they cannot be
/// made. The first error counts.
pub open spec fn assigned(
    n: NumbersV,
    assignments: Seq<AssignmentSpec>,
    columns: Seq<ColumnV>,
) -> Result<Seq<(int, NewV)>, Seq<char>>
    decreases assignments.len(),
{
    if assignments.len() == 0 {
        Ok(Seq::empty())
    } else {
        match assigned(n, assignments.drop_last(), columns) {
            Err(e) => Err(e),
            Ok(pairs) => match assignments.last().target {
                None => Err("Tuple assignment not supported"@),
                Some(name) => match eval::column_place(columns, crate::sql::ast::path_text(name)) {
                    None => Err("Unknown column: "@ + crate::sql::ast::path_text(name)),
                    Some(p) => match assigned_value(n, assignments.last().value, columns) {
                        Err(e) => Err(e),
                        Ok(v) => Ok(pairs.push((p, v))),
                    },
                },
            },
        }
    }
}

/// Values after assignments, in their order: each sees what those before it did. One
/// behind the end of a row changes nothing.
pub open spec fn values_assigned(values: Seq<Val>, pairs: Seq<(int, NewV)>) -> Seq<Val>
    decreases pairs.len(),
{
    if pairs.len() == 0 {
        values
    } else {
        let before = values_assigned(values, pairs.drop_last());
        let p = pairs.last().0;
        if p < before.len() {
            before.update(p, new_value(before, pairs.last().1))
        } else {
            before
        }
    }
}

pub open spec fn row_assigned(row: RowV, pairs: Seq<(int, NewV)>) -> RowV {
    RowV { id: row.id, values: values_assigned(row.values, pairs) }
}

pub open spec fn rows_assigned(rows: Seq<RowV>, pairs: Seq<(int, NewV)>) -> Seq<RowV> {
    Seq::new(rows.len(), |i: int| row_assigned(rows[i], pairs))
}

/// The rows of a table of which the selected ones have been changed.
pub open spec fn selected_assigned(
    rows: Seq<RowV>,
    pairs: Seq<(int, NewV)>,
    selection: Option<Expression>,
    columns: Seq<ColumnV>,
    n: NumbersV,
) -> Seq<RowV> {
    Seq::new(
        rows.len(),
        |i: int|
            if query::is_selected(rows[i], selection, columns, n) {
                row_assigned(rows[i], pairs)
            } else {
                rows[i]
            },
    )
}

/// The pairs that stand for a list of places and a list of values.
pub open spec fn pairs_of(places: Seq<usize>, values: Seq<NewV>) -> Seq<(int, NewV)> {
    Seq::new(places.len(), |i: int| (places[i] as int, values[i]))
}

proof fn lemma_assigned_error(
    n: NumbersV,
    assignments: Seq<AssignmentSpec>,
    columns: Seq<ColumnV>,
    i: int,
)
    requires
        0 <= i <= assignments.len(),
        assigned(n, assignments.take(i), columns) is Err,
    ensures
        assigned(n, assignments, columns) == assigned(n, assignments.take(i), columns),
    decreases assignments.len() - i,
{
    if i < assignments.len() {
        assert(assignments.take(i + 1).drop_last() =~= assignments.take(i));
        lemma_assigned_error(n, assignments, columns, i + 1);
    } else {
        assert(assignments.take(i) =~= assignments);
    }
}

fn read_value(expr: &Expression, columns: &Vec<Column>, numbers: &Numbers) -> (r: Result<
    NewValue,
    String,
>)
    ensures
        match r {
            Ok(v) => assigned_value(numbers@, *expr, model::views(columns@)) == Ok::<
                NewV,
                Seq<char>,
            >(v@),
            Err(e) => assigned_value(numbers@, *expr, model::views(columns@)) == Err::<
                NewV,
                Seq<char>,
            >(e@),
        },
{
    match &expr.node {
        Node::Identifier(name) => match find_place(columns.as_slice(), name.as_str()) {
            None => {
                let mut message = "Unknown column: ".to_string();
                message.append(name.as_str());
                Err(message)
            },
            Some(i) => Ok(NewValue::Column(i)),
        },
        _ => match eval_given(expr, numbers) {
            Ok(v) => Ok(NewValue::Given(v)),
            Err(e) => Err(e),
        },
    }
}

/// The places that assignments change and what they put there.
pub fn read_assignments(
    assignments: &Vec<AssignmentSpec>,
    columns: &Vec<Column>,
    numbers: &Numbers,
) -> (r: Result<(Vec<usize>, Vec<NewValue>), String>)
    ensures
        match r {
            Ok(t) => t.0@.len() == t.1@.len() && assigned(
                numbers@,
                assignments@,
                model::views(columns@),
            ) == Ok::<Seq<(int, NewV)>, Seq<char>>(pairs_of(t.0@, model::views(t.1@))),
            Err(e) => assigned(numbers@, assignments@, model::views(columns@)) == Err::<
                Seq<(int, NewV)>,
                Seq<char>,
            >(e@),
        },
{
    let ghost cols = model::views(columns@);
    let mut places: Vec<usize> = Vec::new();
    let mut values: Vec<NewValue> = Vec::new();
    let mut i: usize = 0;
    assert(pairs_of(places@, model::views(values@)) =~= Seq::<(int, NewV)>::empty());
    while i < assignments.len()
        invariant
            cols == model::views(columns@),
            i <= assignments.len(),
            places@.len() == values@.len(),
            assigned(numbers@, assignments@.take(i as int), cols) == Ok::<
                Seq<(int, NewV)>,
                Seq<char>,
            >(pairs_of(places@, model::views(values@))),
        decreases assignments.len() - i,
    {
        let ghost next = assignments@.take(i + 1);
        let ghost pairs = pairs_of(places@, model::views(values@));
        proof {
            assert(next.drop_last() =~= assignments@.take(i as int));
            assert(next.last() == assignments@[i as int]);
        }
        let name = match &assignments[i].target {
            None => {
                proof {
                    lemma_assigned_error(numbers@, assignments@, cols, i + 1);
                }
                return Err("Tuple assignment not supported".to_string());
            },
            Some(path) => path.to_string(),
        };
        match find_place(columns.as_slice(), name.as_str()) {
            None => {
                proof {
                    lemma_assigned_error(numbers@, assignments@, cols, i + 1);
                }
                let mut message = "Unknown column: ".to_string();
                message.append(name.as_str());
                return Err(message);
            },
            Some(p) => {
                let value = match read_value(&assignments[i].value, columns, numbers) {
                    Ok(value) => value,
                    Err(e) => {
                        proof {
                            lemma_assigned_error(numbers@, assignments@, cols, i + 1);
                        }
                        return Err(e);
                    },
                };
                places.push(p);
                values.push(value);
                assert(pairs_of(places@, model::views(values@)) =~= pairs.push(
                    (p as int, value@),
                ));
            },
        }
        i = i + 1;
    }
    assert(assignments@.take(assignments@.len() as int) =~= assignments@);
    Ok((places, values))
}

/// Assignments keep the number of values in a row.
pub proof fn assignments_keep_width(values: Seq<Val>, pairs: Seq<(int, NewV)>)
    requires
        forall|i: int| 0 <= i < pairs.len() ==> 0 <= (#[trigger] pairs[i]).0,
    ensures
        values_assigned(values, pairs).len() == values.len(),
    decreases pairs.len(),
{
    if pairs.len() > 0 {
        let before = pairs.drop_last();
        assert forall|i: int| 0 <= i < before.len() implies 0 <= (#[trigger] before[i]).0 by {
            assert(before[i] == pairs[i]);
        }
        assignments_keep_width(values, before);
        assert(0 <= pairs[pairs.len() - 1].0);
    }
}

fn value_for(values: &Vec<Value>, new_value: &NewValue) -> (r: Value)
    ensures
        r@ == self::new_value(model::views(values@), new_value@),
{
    match new_value {
        NewValue::Given(v) => v.duplicate(),
        NewValue::Column(i) => {
            if *i < values.len() {
                values[*i].duplicate()
            } else {
                Value::Null
            }
        },
    }
}

fn assign(values: Vec<Value>, places: &Vec<usize>, new_values: &Vec<NewValue>) -> (r: Vec<Value>)
    requires
        places@.len() == new_values@.len(),
    ensures
        model::views(r@) == values_assigned(
            model::views(values@),
            pairs_of(places@, model::views(new_values@)),
        ),
{
    let ghost pairs = pairs_of(places@, model::views(new_values@));
    let ghost start = model::views(values@);
    let mut out = values;
    let mut i: usize = 0;
    while i < places.len()
        invariant
            places@.len() == new_values@.len(),
            pairs == pairs_of(places@, model::views(new_values@)),
            i <= places.len(),
            model::views(out@) == values_assigned(start, pairs.take(i as int)),
        decreases places.len() - i,
    {
        let ghost next = pairs.take(i + 1);
        proof {
            assert(next.drop_last() =~= pairs.take(i as int));
            assert(next.last() == (places@[i as int] as int, new_values@[i as int]@));
        }
        let p: usize = places[i];
        if p < out.len() {
            let value = value_for(&out, &new_values[i]);
            out.set(p, value);
        }
        i = i + 1;
    }
    assert(pairs.take(pairs.len() as int) =~= pairs);
    out
}

/// Changes the rows that are selected, and returns them as they were and as they
/// are.
pub fn change_selected(
    table: &mut RowTable,
    places: &Vec<usize>,
    new_values: &Vec<NewValue>,
    selection: &Option<Expression>,
    columns: &Vec<Column>,
    numbers: &Numbers,
) -> (r: (Vec<Row>, Vec<Row>))
    requires
        places@.len() == new_values@.len(),
    ensures
        model::views(r.0@) == query::selected(
            old(table)@,
            *selection,
            model::views(columns@),
            numbers@,
        ),
        model::views(r.1@) == rows_assigned(
            model::views(r.0@),
            pairs_of(places@, model::views(new_values@)),
        ),
        final(table)@ == selected_assigned(
            old(table)@,
            pairs_of(places@, model::views(new_values@)),
            *selection,
            model::views(columns@),
            numbers@,
        ),
{
    let ghost v = table@;
    let ghost cols = model::views(columns@);
    let ghost pairs = pairs_of(places@, model::views(new_values@));
    let ghost want = selected_assigned(v, pairs, *selection, cols, numbers@);
    let rows: Vec<Row> = duplicate_all(table.rows().as_slice());
    let mut before: Vec<Row> = Vec::new();
    let mut after: Vec<Row> = Vec::new();
    let mut i: usize = 0;
    proof {
        assert(want.take(0) + v.skip(0) =~= v);
        assert(rows_assigned(model::views(before@), pairs) =~= Seq::<RowV>::empty());
    }
    while i < rows.len()
        invariant
            places@.len() == new_values@.len(),
            pairs == pairs_of(places@, model::views(new_values@)),
            v == model::views(rows@),
            v == old(table)@,
            storage::sorted(v),
            cols == model::views(columns@),
            want == selected_assigned(v, pairs, *selection, cols, numbers@),
            i <= rows.len(),
            model::views(before@) == query::selected(v.take(i as int), *selection, cols, numbers@),
            model::views(after@) == rows_assigned(model::views(before@), pairs),
            table@ == want.take(i as int) + v.skip(i as int),
        decreases rows.len() - i,
    {
        let ghost next = v.take(i + 1);
        let ghost was = model::views(before@);
        proof {
            assert(next.drop_last() =~= v.take(i as int));
            assert(next.last() == rows@[i as int]@);
            assert(v[i as int] == rows@[i as int]@);
        }
        if row_selected(selection, columns.as_slice(), rows[i].values.as_slice(), numbers) {
            let old_row = rows[i].duplicate();
            let values = assign(rows[i].duplicate().values, places, new_values);
            let ghost now = table@;
            proof {
                assert forall|a: int| 0 <= a < i implies (#[trigger] now[a]).id
                    < v[i as int].id by {
                    assert(now[a] == want[a]);
                    assert(v[a].id < v[i as int].id);
                }
                assert forall|a: int| i <= a < now.len() implies (#[trigger] now[a]).id
                    >= v[i as int].id by {
                    assert(now[a] == v[a]);
                }
                storage::lemma_place_is(now, v[i as int].id, i as int);
                assert(now[i as int] == v[i as int]);
            }
            table.change(rows[i].id, duplicate_all(values.as_slice()));
            let new_row = Row { id: rows[i].id, values };
            after.push(new_row);
            before.push(old_row);
            assert(rows_assigned(was.push(old_row@), pairs) =~= rows_assigned(was, pairs).push(
                new_row@,
            ));
            assert(table@ =~= want.take(i + 1) + v.skip(i + 1));
        } else {
            assert(table@ =~= want.take(i + 1) + v.skip(i + 1));
        }
        i = i + 1;
    }
    proof {
        assert(v.take(v.len() as int) =~= v);
        assert(want.take(want.len() as int) + v.skip(v.len() as int) =~= want);
    }
    (before, after)
}

} // verus!
