//! Queries: which rows, in which order, and what of them.

use vstd::prelude::*;

use crate::engine::catalog;
use crate::engine::catalog::{Catalog, CatalogV};
use crate::engine::compare;
use crate::engine::compare::order_in_condition;
use crate::engine::eval;
use crate::engine::eval::{
    extract_eq_conditions, find_place, row_selected, value_in_column, Line,
};
use crate::engine::index;
use crate::engine::index::{IndexDef, IndexDefV, IndexV};
use crate::engine::storage;
use crate::engine::storage::{Row, RowV, Storage, StorageV};
use crate::engine::types;
use crate::engine::types::{
    Column, ColumnType, ColumnV, Duplicate, Numbers, NumbersV, Val, Value,
};
use crate::model;
use crate::names::NameMap;
use crate::order::Order;
use crate::sql::ast::{
    Expression, Literal, Node, OrderSpec, Projection, QueryBody, SelectQuery,
};
use crate::text;

verus! {

broadcast use crate::model::group_views;

// ---------------------------------------------------------------------------
// Selecting
// ---------------------------------------------------------------------------

/// The rows that are selected, in their order.
pub open spec fn selected(
    rows: Seq<RowV>,
    selection: Option<Expression>,
    columns: Seq<ColumnV>,
    n: NumbersV,
) -> Seq<RowV>
    decreases rows.len(),
{
    if rows.len() == 0 {
        rows
    } else {
        let before = selected(rows.drop_last(), selection, columns, n);
        if is_selected(rows.last(), selection, columns, n) {
            before.push(rows.last())
        } else {
            before
        }
    }
}

pub open spec fn is_selected(
    row: RowV,
    selection: Option<Expression>,
    columns: Seq<ColumnV>,
    n: NumbersV,
) -> bool {
    eval::is_selected(Line { numbers: n, columns, values: row.values }, selection)
}

/// The rows of the given numbers, as far as there are any, in the order of the
/// numbers.
pub open spec fn rows_by_ids(rows: Seq<RowV>, ids: Seq<u64>) -> Seq<RowV>
    decreases ids.len(),
{
    if ids.len() == 0 {
        Seq::empty()
    } else {
        let before = rows_by_ids(rows, ids.drop_last());
        match storage::row_at(rows, ids.last()) {
            Some(row) => before.push(row),
            None => before,
        }
    }
}

/// The name under which the contents of an index are stored.
pub open spec fn index_key(table: Seq<char>, index: Seq<char>) -> Seq<char> {
    catalog::normal(table) + ":"@ + catalog::normal(index)
}

/// The values that a condition demands of the columns of an index, as far as it
/// demands one of each of the first columns.
pub open spec fn demanded_key(columns: Seq<Seq<char>>, demands: Map<Seq<char>, Val>) -> Option<
    Seq<Val>,
>
    decreases columns.len(),
{
    if columns.len() == 0 {
        Some(Seq::empty())
    } else {
        match demanded_key(columns.drop_last(), demands) {
            Some(key) => if demands.contains_key(text::lowercase(columns.last())) {
                Some(key.push(demands[text::lowercase(columns.last())]))
            } else {
                None
            },
            None => None,
        }
    }
}

/// The index can answer the condition: all its columns are demanded, there is at
/// least one, and its contents are there.
pub open spec fn answers(
    data: Map<Seq<char>, IndexV>,
    table: Seq<char>,
    demands: Map<Seq<char>, Val>,
) -> spec_fn(IndexDefV) -> bool {
    |d: IndexDefV|
        demanded_key(d.columns, demands) is Some && d.columns.len() > 0 && data.contains_key(
            index_key(table, d.name),
        )
}

/// The numbers of the rows that an index gives for a condition. The first index
/// that can answer is asked; where none can there is no answer.
pub open spec fn index_answer(
    data: Map<Seq<char>, IndexV>,
    table: Seq<char>,
    demands: Map<Seq<char>, Val>,
    indexes: Seq<IndexDefV>,
) -> Option<Seq<u64>> {
    match model::first(indexes, answers(data, table, demands)) {
        None => None,
        Some(i) => Some(
            index::ids_at(
                data[index_key(table, indexes[i].name)].map,
                demanded_key(indexes[i].columns, demands)->0,
            ),
        ),
    }
}

/// The rows of a query before they are ordered: those that an index gives for
/// the condition, or else all rows of the table, as far as they are selected.
pub open spec fn found_rows(
    s: StorageV,
    table: Seq<char>,
    selection: Option<Expression>,
    columns: Seq<ColumnV>,
    indexes: Seq<IndexDefV>,
    n: NumbersV,
) -> Seq<RowV> {
    let rows = storage::rows_of(s, table);
    let answer = match selection {
        Some(e) => index_answer(s.index_data, table, eval::demands(n, e, Map::empty()), indexes),
        None => None,
    };
    match answer {
        Some(ids) => selected(rows_by_ids(rows, ids), selection, columns, n),
        None => selected(rows, selection, columns, n),
    }
}

// ---------------------------------------------------------------------------
// Ordering
// ---------------------------------------------------------------------------

/// The value of a row at a place; NULL where it has none.
pub open spec fn value_at(row: RowV, place: int) -> Val {
    if 0 <= place < row.values.len() {
        row.values[place]
    } else {
        Val::Null
    }
}

/// Row `a` must stand behind row `b`: its value is greater, or smaller where the
/// order descends. Values without an order may stand in any order.
pub open spec fn behind(a: RowV, b: RowV, place: int, ascending: bool) -> bool {
    compare::condition_order(value_at(a, place), value_at(b, place)) == Some(
        if ascending {
            Order::Greater
        } else {
            Order::Less
        },
    )
}

/// A row put into ordered rows: in front of those at the end that must stand
/// behind it, and behind all others.
pub open spec fn put_in_order(rows: Seq<RowV>, row: RowV, place: int, ascending: bool) -> Seq<RowV>
    decreases rows.len(),
{
    if rows.len() > 0 && behind(rows.last(), row, place, ascending) {
        put_in_order(rows.drop_last(), row, place, ascending).push(rows.last())
    } else {
        rows.push(row)
    }
}

/// The rows in the order of one column; rows that may stand in any order keep
/// theirs.
pub open spec fn ordered_by(rows: Seq<RowV>, place: int, ascending: bool) -> Seq<RowV>
    decreases rows.len(),
{
    if rows.len() == 0 {
        rows
    } else {
        put_in_order(ordered_by(rows.drop_last(), place, ascending), rows.last(), place, ascending)
    }
}

/// The rows in the order of one expression. Only a column of the table orders.
pub open spec fn ordered_by_spec(rows: Seq<RowV>, spec: OrderSpec, columns: Seq<ColumnV>) -> Seq<
    RowV,
> {
    match eval::column_ref(spec.expr) {
        Some(name) => match eval::column_place(columns, name) {
            Some(i) => ordered_by(rows, i, spec.ascending != Some(false)),
            None => rows,
        },
        None => rows,
    }
}

/// The rows in the order of several expressions, of which the first counts most.
pub open spec fn ordered(rows: Seq<RowV>, specs: Seq<OrderSpec>, columns: Seq<ColumnV>) -> Seq<RowV>
    decreases specs.len(),
{
    if specs.len() == 0 {
        rows
    } else {
        ordered_by_spec(ordered(rows, specs.drop_first(), columns), specs[0], columns)
    }
}

// ---------------------------------------------------------------------------
// Putting out
// ---------------------------------------------------------------------------

/// The columns that one item puts out.
pub open spec fn item_columns(item: Projection, columns: Seq<ColumnV>, table: Seq<char>) -> Seq<
    ColumnV,
> {
    match item {
        Projection::Wildcard => columns,
        Projection::Plain(e) => match e.node {
            Node::Wildcard => columns,
            Node::Identifier(name) => seq![column_named(columns, name@)],
            _ => seq![types::plain_column("?"@, table, ColumnType::VarChar)],
        },
        Projection::Other => seq![types::plain_column("?"@, table, ColumnType::VarChar)],
    }
}

/// The column of a name, or a plain one of that name where there is none.
pub open spec fn column_named(columns: Seq<ColumnV>, name: Seq<char>) -> ColumnV {
    match eval::column_place(columns, name) {
        Some(i) => columns[i],
        None => types::plain_column(name, ""@, ColumnType::VarChar),
    }
}

pub open spec fn result_columns(
    items: Seq<Projection>,
    columns: Seq<ColumnV>,
    table: Seq<char>,
) -> Seq<ColumnV>
    decreases items.len(),
{
    if items.len() == 0 {
        Seq::empty()
    } else {
        result_columns(items.drop_last(), columns, table) + item_columns(
            items.last(),
            columns,
            table,
        )
    }
}

/// The values that one item puts out of a row.
pub open spec fn item_values(item: Projection, columns: Seq<ColumnV>, values: Seq<Val>) -> Seq<Val> {
    match item {
        Projection::Wildcard => values,
        Projection::Plain(e) => match e.node {
            Node::Wildcard => values,
            Node::Identifier(name) => seq![eval::column_value(columns, values, name@)],
            Node::Value(_) => seq![Val::Text("?"@)],
            _ => seq![Val::Null],
        },
        Projection::Other => seq![Val::Null],
    }
}

pub open spec fn result_values(
    items: Seq<Projection>,
    columns: Seq<ColumnV>,
    values: Seq<Val>,
) -> Seq<Val>
    decreases items.len(),
{
    if items.len() == 0 {
        Seq::empty()
    } else {
        result_values(items.drop_last(), columns, values) + item_values(
            items.last(),
            columns,
            values,
        )
    }
}

/// The rows of a result: what the items put out of each row, without numbers.
pub open spec fn result_rows(items: Seq<Projection>, columns: Seq<ColumnV>, rows: Seq<RowV>) -> Seq<
    RowV,
> {
    Seq::new(
        rows.len(),
        |i: int| RowV { id: 0, values: result_values(items, columns, rows[i].values) },
    )
}

/// The number of rows that a `LIMIT` or `OFFSET` names; zero where it names none.
pub open spec fn count_of(e: Expression) -> nat {
    match e.node {
        Node::Value(Literal::Number(digits)) => match text::unsigned_within(
            digits@,
            usize::MAX as nat,
        ) {
            Some(n) => n,
            None => 0,
        },
        _ => 0,
    }
}

/// The rows from an offset on, at most as many as a limit says.
pub open spec fn page(
    rows: Seq<RowV>,
    offset: Option<Expression>,
    limit: Option<Expression>,
) -> Seq<RowV> {
    let start = match offset {
        Some(e) => count_of(e),
        None => 0,
    };
    let rest = if start < rows.len() {
        rows.skip(start as int)
    } else {
        Seq::empty()
    };
    match limit {
        Some(e) => if count_of(e) < rest.len() {
            rest.take(count_of(e) as int)
        } else {
            rest
        },
        None => rest,
    }
}

/// The columns and rows of a query, or why there are none.
pub open spec fn query_result(
    c: CatalogV,
    s: StorageV,
    n: NumbersV,
    db: Seq<char>,
    query: SelectQuery,
) -> Result<(Seq<ColumnV>, Seq<RowV>), Seq<char>> {
    match query.body {
        QueryBody::Select { projection, from, selection } => if from@.len() == 0 {
            Ok((Seq::empty(), Seq::empty()))
        } else {
            let table = crate::sql::ast::table_text(from@[0]);
            match catalog::table_of(c, db, table) {
                Err(e) => Err(e),
                Ok(t) => {
                    let found = found_rows(
                        s,
                        table,
                        selection,
                        t.columns,
                        catalog::indexes_of(c, db, table),
                        n,
                    );
                    let rows = result_rows(
                        projection@,
                        t.columns,
                        ordered(found, query.order_by@, t.columns),
                    );
                    Ok(
                        (
                            result_columns(projection@, t.columns, table),
                            page(rows, query.offset, query.limit),
                        ),
                    )
                },
            }
        },
        _ => Err("Unsupported query type"@),
    }
}

// ---------------------------------------------------------------------------
// The work
// ---------------------------------------------------------------------------

/// The name under which the contents of an index are stored.
pub fn stored_index_name(table: &str, index: &str) -> (r: String)
    ensures
        r@ == index_key(table@, index@),
{
    let mut out = table.to_lowercase();
    vstd::string::StringExecFns::append(&mut out, ":");
    vstd::string::StringExecFns::append(&mut out, index.to_lowercase().as_str());
    out
}

fn key_for(columns: &Vec<String>, demands: &NameMap<Value>) -> (r: Option<Vec<Value>>)
    ensures
        match r {
            Some(key) => demanded_key(model::views(columns@), demands@) == Some(
                model::views(key@),
            ),
            None => demanded_key(model::views(columns@), demands@) is None,
        },
{
    let ghost v = model::views(columns@);
    let mut key: Vec<Value> = Vec::new();
    let mut i: usize = 0;
    while i < columns.len()
        invariant
            v == model::views(columns@),
            i <= columns.len(),
            demanded_key(v.take(i as int), demands@) == Some(model::views(key@)),
        decreases columns.len() - i,
    {
        let ghost next = v.take(i + 1);
        proof {
            assert(next.drop_last() =~= v.take(i as int));
            assert(next.last() == columns@[i as int]@);
        }
        match demands.get(columns[i].as_str().to_lowercase().as_str()) {
            Some(value) => {
                key.push(value.duplicate());
            },
            None => {
                proof {
                    lemma_key_missing(v, demands@, i + 1);
                }
                return None;
            },
        }
        i = i + 1;
    }
    assert(v.take(v.len() as int) =~= v);
    Some(key)
}

/// Where a part of the columns is not demanded, no key is.
proof fn lemma_key_missing(columns: Seq<Seq<char>>, demands: Map<Seq<char>, Val>, i: int)
    requires
        0 <= i <= columns.len(),
        demanded_key(columns.take(i), demands) is None,
    ensures
        demanded_key(columns, demands) is None,
    decreases columns.len() - i,
{
    if i < columns.len() {
        assert(columns.take(i + 1).drop_last() =~= columns.take(i));
        lemma_key_missing(columns, demands, i + 1);
    } else {
        assert(columns.take(i) =~= columns);
    }
}

/// Asks the indexes for the rows that a condition can select.
pub fn try_index_lookup(
    store: &Storage,
    table_name: &str,
    selection: &Expression,
    indexes: &Vec<IndexDef>,
    numbers: &Numbers,
) -> (r: Option<Vec<u64>>)
    ensures
        match r {
            Some(ids) => index_answer(
                store@.index_data,
                table_name@,
                eval::demands(numbers@, *selection, Map::empty()),
                model::views(indexes@),
            ) == Some(ids@),
            None => index_answer(
                store@.index_data,
                table_name@,
                eval::demands(numbers@, *selection, Map::empty()),
                model::views(indexes@),
            ) is None,
        },
{
    let demands = extract_eq_conditions(selection, numbers);
    let ghost v = model::views(indexes@);
    let ghost p = answers(store@.index_data, table_name@, demands@);
    let mut i: usize = 0;
    while i < indexes.len()
        invariant
            v == model::views(indexes@),
            p == answers(store@.index_data, table_name@, demands@),
            demands@ == eval::demands(numbers@, *selection, Map::empty()),
            i <= indexes.len(),
            forall|j: int| 0 <= j < i ==> !p(#[trigger] v[j]),
        decreases indexes.len() - i,
    {
        let def = &indexes[i];
        assert(v[i as int] == def@);
        match key_for(&def.columns, &demands) {
            Some(key) => {
                if def.columns.len() > 0 {
                    let name = stored_index_name(table_name, def.name.as_str());
                    match store.index_data.get(name.as_str()) {
                        Some(data) => {
                            proof {
                                assert(p(v[i as int]));
                                model::lemma_first_is(v, p, i as int);
                            }
                            return Some(data.lookup_eq(key.as_slice()));
                        },
                        None => {},
                    }
                }
            },
            None => {},
        }
        assert(!p(v[i as int]));
        i = i + 1;
    }
    proof {
        model::lemma_first_none(v, p);
    }
    None
}

fn select_from(
    rows: Vec<&Row>,
    selection: &Option<Expression>,
    columns: &Vec<Column>,
    numbers: &Numbers,
) -> (r: Vec<Row>)
    ensures
        model::views(r@) == selected(
            model::views(rows@),
            *selection,
            model::views(columns@),
            numbers@,
        ),
{
    let ghost v = model::views(rows@);
    let ghost cols = model::views(columns@);
    let mut out: Vec<Row> = Vec::new();
    let mut i: usize = 0;
    while i < rows.len()
        invariant
            v == model::views(rows@),
            cols == model::views(columns@),
            i <= rows.len(),
            model::views(out@) == selected(v.take(i as int), *selection, cols, numbers@),
        decreases rows.len() - i,
    {
        let ghost next = v.take(i + 1);
        proof {
            assert(next.drop_last() =~= v.take(i as int));
            assert(next.last() == rows@[i as int]@);
        }
        if row_selected(selection, columns.as_slice(), rows[i].values.as_slice(), numbers) {
            out.push(rows[i].duplicate());
        }
        i = i + 1;
    }
    assert(v.take(v.len() as int) =~= v);
    out
}

fn rows_of_ids<'a>(store: &'a Storage, table_name: &str, ids: &Vec<u64>) -> (r: Vec<&'a Row>)
    ensures
        model::views(r@) == rows_by_ids(storage::rows_of(store@, table_name@), ids@),
{
    let mut out: Vec<&Row> = Vec::new();
    let mut i: usize = 0;
    while i < ids.len()
        invariant
            i <= ids.len(),
            model::views(out@) == rows_by_ids(
                storage::rows_of(store@, table_name@),
                ids@.take(i as int),
            ),
        decreases ids.len() - i,
    {
        assert(ids@.take(i + 1).drop_last() =~= ids@.take(i as int));
        match store.get_row(table_name, ids[i]) {
            Some(row) => {
                out.push(row);
            },
            None => {},
        }
        i = i + 1;
    }
    assert(ids@.take(ids@.len() as int) =~= ids@);
    out
}

fn find_rows(
    store: &Storage,
    table_name: &str,
    selection: &Option<Expression>,
    columns: &Vec<Column>,
    indexes: &Vec<IndexDef>,
    numbers: &Numbers,
) -> (r: Vec<Row>)
    ensures
        model::views(r@) == found_rows(
            store@,
            table_name@,
            *selection,
            model::views(columns@),
            model::views(indexes@),
            numbers@,
        ),
{
    let answer = match selection {
        Some(e) => try_index_lookup(store, table_name, e, indexes, numbers),
        None => None,
    };
    match answer {
        Some(ids) => select_from(
            rows_of_ids(store, table_name, &ids),
            selection,
            columns,
            numbers,
        ),
        None => select_from(store.get_rows(table_name), selection, columns, numbers),
    }
}

fn must_stand_behind(a: &Row, b: &Row, place: usize, ascending: bool) -> (r: bool)
    ensures
        r == behind(a@, b@, place as int, ascending),
{
    let null = Value::Null;
    let x = if place < a.values.len() {
        &a.values[place]
    } else {
        &null
    };
    let y = if place < b.values.len() {
        &b.values[place]
    } else {
        &null
    };
    match order_in_condition(x, y) {
        Some(Order::Greater) => ascending,
        Some(Order::Less) => !ascending,
        _ => false,
    }
}

/// Putting a row at a place, all rows from which on must stand behind it.
proof fn lemma_put_at(rows: Seq<RowV>, row: RowV, column: int, ascending: bool, at: int)
    requires
        0 <= at <= rows.len(),
        forall|i: int| at <= i < rows.len() ==> behind(#[trigger] rows[i], row, column, ascending),
        at > 0 ==> !behind(rows[at - 1], row, column, ascending),
    ensures
        put_in_order(rows, row, column, ascending) == rows.insert(at, row),
    decreases rows.len(),
{
    if at == rows.len() {
        assert(rows.insert(at, row) =~= rows.push(row));
    } else {
        assert(behind(rows[rows.len() - 1], row, column, ascending));
        lemma_put_at(rows.drop_last(), row, column, ascending, at);
        assert(rows.drop_last().insert(at, row).push(rows.last()) =~= rows.insert(at, row));
    }
}

fn sort_by_column(rows: Vec<Row>, place: usize, ascending: bool) -> (r: Vec<Row>)
    ensures
        model::views(r@) == ordered_by(model::views(rows@), place as int, ascending),
{
    let ghost v = model::views(rows@);
    let mut rest = rows;
    let mut out: Vec<Row> = Vec::new();
    let count: usize = rest.len();
    let mut i: usize = 0;
    while i < count
        invariant
            i <= count,
            count == v.len(),
            rest.len() == count,
            model::views(rest@).skip(i as int) == v.skip(i as int),
            model::views(out@) == ordered_by(v.take(i as int), place as int, ascending),
        decreases count - i,
    {
        let ghost next = v.take(i + 1);
        let ghost ahead = model::views(rest@);
        proof {
            assert(next.drop_last() =~= v.take(i as int));
            assert(ahead.skip(i as int)[0] == v.skip(i as int)[0]);
            assert(next.last() == ahead[i as int]);
        }
        let mut row = Row { id: 0, values: Vec::new() };
        std::mem::swap(&mut row, &mut rest[i]);
        assert(row@ == v[i as int]);
        assert(model::views(rest@).skip(i + 1) =~= v.skip(i + 1)) by {
            assert forall|j: int| i < j < count implies #[trigger] model::views(rest@)[j] == v[j] by {
                assert(ahead.skip(i as int)[j - i] == v.skip(i as int)[j - i]);
            }
        }
        let mut at: usize = out.len();
        let ghost sorted_so_far = model::views(out@);
        while at > 0 && must_stand_behind(&out[at - 1], &row, place, ascending)
            invariant
                sorted_so_far == model::views(out@),
                at <= out.len(),
                forall|j: int|
                    at <= j < out.len() ==> behind(
                        #[trigger] sorted_so_far[j],
                        row@,
                        place as int,
                        ascending,
                    ),
            ensures
                at > 0 ==> !behind(sorted_so_far[at - 1], row@, place as int, ascending),
            decreases at,
        {
            assert(sorted_so_far[at - 1] == out@[at - 1]@);
            at = at - 1;
        }
        proof {
            lemma_put_at(sorted_so_far, row@, place as int, ascending, at as int);
        }
        out.insert(at, row);
        i = i + 1;
    }
    assert(v.take(v.len() as int) =~= v);
    out
}

/// Orders rows by several expressions, of which the first counts most.
pub fn sort_rows(rows: Vec<Row>, order_by: &Vec<OrderSpec>, table_columns: &Vec<Column>) -> (r: Vec<
    Row,
>)
    ensures
        model::views(r@) == ordered(
            model::views(rows@),
            order_by@,
            model::views(table_columns@),
        ),
{
    let ghost v = model::views(rows@);
    let ghost cols = model::views(table_columns@);
    let ghost specs = order_by@;
    let mut out = rows;
    let mut i: usize = order_by.len();
    assert(specs.skip(specs.len() as int) =~= Seq::empty());
    while i > 0
        invariant
            cols == model::views(table_columns@),
            specs == order_by@,
            i <= specs.len(),
            model::views(out@) == ordered(v, specs.skip(i as int), cols),
        decreases i,
    {
        i = i - 1;
        let ghost next = specs.skip(i as int);
        proof {
            assert(next.drop_first() =~= specs.skip(i + 1));
            assert(next[0] == specs[i as int]);
        }
        let spec = &order_by[i];
        if let Node::Identifier(name) = &spec.expr.node {
            if let Some(place) = find_place(table_columns.as_slice(), name.as_str()) {
                let ascending: bool = match spec.ascending {
                    Some(b) => b,
                    None => true,
                };
                out = sort_by_column(out, place, ascending);
            }
        }
    }
    assert(specs.skip(0) =~= specs);
    out
}

fn find_column(columns: &Vec<Column>, name: &str) -> (r: Column)
    ensures
        r@ == column_named(model::views(columns@), name@),
{
    match find_place(columns.as_slice(), name) {
        Some(i) => columns[i].duplicate(),
        None => Column::new(name, "", ColumnType::VarChar),
    }
}

fn append_columns(out: &mut Vec<Column>, columns: &Vec<Column>)
    ensures
        model::views(final(out)@) == model::views(old(out)@) + model::views(columns@),
{
    let mut i: usize = 0;
    while i < columns.len()
        invariant
            i <= columns.len(),
            model::views(out@) == model::views(old(out)@) + model::views(columns@).take(i as int),
        decreases columns.len() - i,
    {
        out.push(columns[i].duplicate());
        i = i + 1;
        assert(model::views(out@) =~= model::views(old(out)@) + model::views(columns@).take(
            i as int,
        ));
    }
    assert(model::views(columns@).take(columns@.len() as int) =~= model::views(columns@));
}

fn columns_of_result(items: &Vec<Projection>, columns: &Vec<Column>, table_name: &str) -> (r: Vec<
    Column,
>)
    ensures
        model::views(r@) == result_columns(items@, model::views(columns@), table_name@),
{
    let ghost cols = model::views(columns@);
    let mut out: Vec<Column> = Vec::new();
    let mut i: usize = 0;
    while i < items.len()
        invariant
            cols == model::views(columns@),
            i <= items.len(),
            model::views(out@) == result_columns(items@.take(i as int), cols, table_name@),
        decreases items.len() - i,
    {
        let ghost next = items@.take(i + 1);
        let ghost before = model::views(out@);
        proof {
            assert(next.drop_last() =~= items@.take(i as int));
            assert(next.last() == items@[i as int]);
        }
        match &items[i] {
            Projection::Wildcard => append_columns(&mut out, columns),
            Projection::Plain(e) => match &e.node {
                Node::Wildcard => append_columns(&mut out, columns),
                Node::Identifier(name) => {
                    out.push(find_column(columns, name.as_str()));
                },
                _ => {
                    out.push(Column::new("?", table_name, ColumnType::VarChar));
                },
            },
            Projection::Other => {
                out.push(Column::new("?", table_name, ColumnType::VarChar));
            },
        }
        assert(model::views(out@) =~= before + item_columns(items@[i as int], cols, table_name@));
        i = i + 1;
    }
    assert(items@.take(items@.len() as int) =~= items@);
    out
}

fn append_values(out: &mut Vec<Value>, values: &Vec<Value>)
    ensures
        model::views(final(out)@) == model::views(old(out)@) + model::views(values@),
{
    let mut i: usize = 0;
    while i < values.len()
        invariant
            i <= values.len(),
            model::views(out@) == model::views(old(out)@) + model::views(values@).take(i as int),
        decreases values.len() - i,
    {
        out.push(values[i].duplicate());
        i = i + 1;
        assert(model::views(out@) =~= model::views(old(out)@) + model::views(values@).take(
            i as int,
        ));
    }
    assert(model::views(values@).take(values@.len() as int) =~= model::views(values@));
}

/// The values that the items of a query put out of a row.
pub fn project_row(items: &Vec<Projection>, columns: &Vec<Column>, values: &Vec<Value>) -> (r: Vec<
    Value,
>)
    ensures
        model::views(r@) == result_values(items@, model::views(columns@), model::views(values@)),
{
    let ghost cols = model::views(columns@);
    let ghost vals = model::views(values@);
    let mut out: Vec<Value> = Vec::new();
    let mut i: usize = 0;
    while i < items.len()
        invariant
            cols == model::views(columns@),
            vals == model::views(values@),
            i <= items.len(),
            model::views(out@) == result_values(items@.take(i as int), cols, vals),
        decreases items.len() - i,
    {
        let ghost next = items@.take(i + 1);
        let ghost before = model::views(out@);
        proof {
            assert(next.drop_last() =~= items@.take(i as int));
            assert(next.last() == items@[i as int]);
        }
        match &items[i] {
            Projection::Wildcard => append_values(&mut out, values),
            Projection::Plain(e) => match &e.node {
                Node::Wildcard => append_values(&mut out, values),
                Node::Identifier(name) => {
                    out.push(
                        value_in_column(columns.as_slice(), values.as_slice(), name.as_str()),
                    );
                },
                Node::Value(_) => {
                    out.push(Value::Text("?".to_string()));
                },
                _ => {
                    out.push(Value::Null);
                },
            },
            Projection::Other => {
                out.push(Value::Null);
            },
        }
        assert(model::views(out@) =~= before + item_values(items@[i as int], cols, vals));
        i = i + 1;
    }
    assert(items@.take(items@.len() as int) =~= items@);
    out
}

/// The number of rows that a `LIMIT` or `OFFSET` names; zero where it names none.
fn limit_value(expr: &Expression) -> (r: usize)
    ensures
        r == count_of(*expr),
{
    match &expr.node {
        Node::Value(Literal::Number(digits)) => match text::parse_usize(digits.as_str()) {
            Some(n) => n,
            None => 0,
        },
        _ => 0,
    }
}

fn page_of(rows: Vec<Row>, offset: &Option<Expression>, limit: &Option<Expression>) -> (r: Vec<Row>)
    ensures
        model::views(r@) == page(model::views(rows@), *offset, *limit),
{
    let ghost v = model::views(rows@);
    let mut rows = rows;
    let start: usize = match offset {
        Some(e) => limit_value(e),
        None => 0,
    };
    let ghost rest = if start < v.len() {
        v.skip(start as int)
    } else {
        Seq::empty()
    };
    if start > 0 {
        let at: usize = if start < rows.len() {
            start
        } else {
            rows.len()
        };
        rows = rows.split_off(at);
    }
    assert(model::views(rows@) =~= rest);
    if let Some(e) = limit {
        let count: usize = limit_value(e);
        rows.truncate(count);
    }
    assert(model::views(rows@) =~= page(v, *offset, *limit));
    rows
}

fn project_rows(items: &Vec<Projection>, columns: &Vec<Column>, rows: &Vec<Row>) -> (r: Vec<Row>)
    ensures
        model::views(r@) == result_rows(items@, model::views(columns@), model::views(rows@)),
{
    let ghost want = result_rows(items@, model::views(columns@), model::views(rows@));
    let mut out: Vec<Row> = Vec::new();
    let mut i: usize = 0;
    while i < rows.len()
        invariant
            want == result_rows(items@, model::views(columns@), model::views(rows@)),
            i <= rows.len(),
            model::views(out@) == want.take(i as int),
        decreases rows.len() - i,
    {
        let values = project_row(items, columns, &rows[i].values);
        out.push(Row { id: 0, values });
        i = i + 1;
        assert(model::views(out@) =~= want.take(i as int));
    }
    assert(want.take(want.len() as int) =~= want);
    out
}

/// The columns and rows of a query.
pub fn run_query(
    definitions: &Catalog,
    store: &Storage,
    numbers: &Numbers,
    db: &str,
    query: &SelectQuery,
) -> (r: Result<(Vec<Column>, Vec<Row>), String>)
    ensures
        match r {
            Ok(t) => query_result(definitions@, store@, numbers@, db@, *query) == Ok::<
                (Seq<ColumnV>, Seq<RowV>),
                Seq<char>,
            >((model::views(t.0@), model::views(t.1@))),
            Err(e) => query_result(definitions@, store@, numbers@, db@, *query) == Err::<
                (Seq<ColumnV>, Seq<RowV>),
                Seq<char>,
            >(e@),
        },
{
    match &query.body {
        QueryBody::Select { projection, from, selection } => {
            if from.len() == 0 {
                let columns: Vec<Column> = Vec::new();
                let rows: Vec<Row> = Vec::new();
                return Ok((columns, rows));
            }
            let table_name = from[0].name();
            let table = match definitions.get_table(db, table_name.as_str()) {
                Ok(t) => t,
                Err(e) => {
                    return Err(e);
                },
            };
            let indexes = definitions.get_table_indexes(db, table_name.as_str());
            let found = find_rows(
                store,
                table_name.as_str(),
                selection,
                &table.columns,
                &indexes,
                numbers,
            );
            let in_order = sort_rows(found, &query.order_by, &table.columns);
            let rows = project_rows(projection, &table.columns, &in_order);
            let columns = columns_of_result(projection, &table.columns, table_name.as_str());
            Ok((columns, page_of(rows, &query.offset, &query.limit)))
        },
        _ => Err("Unsupported query type".to_string()),
    }
}

} // verus!
