//! Which statements are refused, and with which message.

use vstd::prelude::*;

use crate::engine::catalog;
use crate::engine::change;
use crate::engine::eval;
use crate::engine::executor;
use crate::engine::executor::{ExecV, ResultV};
use crate::engine::insert;
use crate::engine::types::{ColumnV, NumbersV, Val};
use crate::model;
use crate::names;
use crate::sql::ast::{
    AssignmentSpec, DropKind, Expression, IndexSpec, Literal, Node, SqlStatement,
};
use crate::text;

verus! {

/// A column has the name, in any case of its letters.
pub open spec fn is_known(columns: Seq<ColumnV>, name: Seq<char>) -> bool {
    exists|i: int| 0 <= i < columns.len() && text::same_name((#[trigger] columns[i]).name, name)
}

proof fn lemma_known(columns: Seq<ColumnV>, name: Seq<char>)
    ensures
        eval::column_place(columns, name) is Some <==> is_known(columns, name),
{
    let p = eval::has_name(name);
    if is_known(columns, name) {
        let i = choose|i: int|
            0 <= i < columns.len() && text::same_name((#[trigger] columns[i]).name, name);
        assert(p(columns[i]));
        if model::first(columns, p) is None {
            model::lemma_first(columns, p);
        }
    } else {
        assert forall|i: int| 0 <= i < columns.len() implies !p(#[trigger] columns[i]) by {
            assert(!text::same_name(columns[i].name, name));
        }
        model::lemma_first_none(columns, p);
    }
}

/// A statement is refused with a message and changes nothing.
pub open spec fn is_refused(
    x: ExecV,
    db: Seq<char>,
    statement: SqlStatement,
    now: u64,
    message: Seq<char>,
) -> bool {
    let out = executor::statement_outcome(x, db, statement, now);
    out.result == Err::<ResultV, Seq<char>>(message) && out.state == x
}

/// What is no statement of the database is refused.
pub proof fn other_statements_are_refused(x: ExecV, db: Seq<char>, s: SqlStatement, now: u64)
    requires
        s is Unsupported || (s matches SqlStatement::Drop { kind, names, if_exists } && kind
            == DropKind::Other),
    ensures
        is_refused(x, db, s, now, "Unsupported statement"@),
{
}

/// Rows can only be inserted from a list of values.
pub proof fn insert_needs_values(x: ExecV, db: Seq<char>, s: SqlStatement, now: u64)
    requires
        s matches SqlStatement::Insert { table, columns, source } && catalog::has_table(
            x.catalog,
            db,
            crate::sql::ast::table_text(table),
        ) && (source matches Some(q) ==> !(q.body is Values)),
    ensures
        is_refused(
            x,
            db,
            s,
            now,
            if s->Insert_source is None {
                "INSERT missing source"@
            } else {
                "INSERT only supports VALUES"@
            },
        ),
{
}

/// Values can be placed under a list of names if and only if every name with a value is
/// that of a column. Else the message shows the first name that is not.
pub proof fn names_of_inserted_values_must_be_known(
    names: Seq<Seq<char>>,
    values: Seq<Val>,
    columns: Seq<ColumnV>,
    i: int,
)
    requires
        0 <= i <= names.len(),
    ensures
        insert::placed(names, values, columns, i) is Ok <==> forall|k: int|
            0 <= k < i && k < values.len() ==> is_known(columns, #[trigger] names[k]),
        insert::placed(names, values, columns, i) matches Err(m) ==> exists|k: int|
            0 <= k < i && k < values.len() && !is_known(columns, #[trigger] names[k]) && (forall|
                j: int,
            |
                0 <= j < k ==> is_known(columns, #[trigger] names[j])) && m == "Unknown column: "@
                + names[k],
    decreases i,
{
    if i > 0 {
        names_of_inserted_values_must_be_known(names, values, columns, i - 1);
        lemma_known(columns, names[i - 1]);
        if insert::placed(names, values, columns, i - 1) is Ok {
            if i - 1 < values.len() && !is_known(columns, names[i - 1]) {
                assert(forall|j: int|
                    0 <= j < i - 1 ==> is_known(columns, #[trigger] names[j]));
            } else {
                assert forall|k: int| 0 <= k < i && k < values.len() implies is_known(
                    columns,
                    #[trigger] names[k],
                ) by {
                    if k == i - 1 {
                    }
                }
            }
        } else {
            let m = insert::placed(names, values, columns, i - 1)->Err_0;
            let k = choose|k: int|
                0 <= k < i - 1 && k < values.len() && !is_known(columns, #[trigger] names[k])
                    && (forall|j: int| 0 <= j < k ==> is_known(columns, #[trigger] names[j])) && m
                    == "Unknown column: "@ + names[k];
            assert(!is_known(columns, names[k]));
        }
    }
}

/// `UPDATE` of a column that the table has not is refused, and so is one that copies from
/// such a column.
pub proof fn updated_columns_must_be_known(
    x: ExecV,
    db: Seq<char>,
    s: SqlStatement,
    now: u64,
    a: AssignmentSpec,
    columns: Seq<ColumnV>,
)
    requires
        s matches SqlStatement::Update { table, assignments, selection } && assignments@ == seq![a]
            && (catalog::table_of(x.catalog, db, crate::sql::ast::table_text(table)) matches Ok(t)
            && t.columns == columns),
    ensures
        a.target is None ==> is_refused(x, db, s, now, "Tuple assignment not supported"@),
        a.target matches Some(p) ==> {
            let name = crate::sql::ast::path_text(p);
            &&& !is_known(columns, name) ==> is_refused(x, db, s, now, "Unknown column: "@ + name)
            &&& a.value.node matches Node::Identifier(from) ==> is_known(columns, name)
                && !is_known(columns, from@) ==> is_refused(
                x,
                db,
                s,
                now,
                "Unknown column: "@ + from@,
            )
        },
{
    let n = x.numbers;
    assert(seq![a].drop_last() =~= Seq::<AssignmentSpec>::empty());
    assert(seq![a].last() == a);
    reveal_with_fuel(change::assigned, 2);
    match a.target {
        Some(p) => {
            lemma_known(columns, crate::sql::ast::path_text(p));
        },
        None => {},
    }
    match a.value.node {
        Node::Identifier(from) => {
            lemma_known(columns, from@);
        },
        _ => {},
    }
}

/// `CREATE INDEX` is refused where the table has an index of the name, in any case of its
/// letters, or where no column is given.
pub proof fn index_name_must_be_free(x: ExecV, db: Seq<char>, spec: IndexSpec, now: u64, k: int)
    requires
        catalog::has_table(x.catalog, db, crate::sql::ast::path_text(spec.table)),
    ensures
        ({
            let s = SqlStatement::CreateIndex(spec);
            let table = crate::sql::ast::path_text(spec.table);
            let list = catalog::indexes_of(x.catalog, db, table);
            let name = executor::index_name(table, spec);
            &&& executor::column_names(spec.columns@).len() == 0 ==> is_refused(
                x,
                db,
                s,
                now,
                "Index must have at least one column"@,
            )
            &&& executor::column_names(spec.columns@).len() > 0 && 0 <= k < list.len()
                && text::same_name(list[k].name, name) ==> is_refused(
                x,
                db,
                s,
                now,
                "Index '"@ + name + "' already exists"@,
            )
        }),
{
    let table = crate::sql::ast::path_text(spec.table);
    let list = catalog::indexes_of(x.catalog, db, table);
    let name = executor::index_name(table, spec);
    let p = catalog::is_named(name);
    if 0 <= k < list.len() && text::same_name(list[k].name, name) {
        assert(p(list[k]));
        if model::first(list, p) is None {
            model::lemma_first(list, p);
        }
    }
}

/// `DROP INDEX` is refused where no table of the database has an index of the name.
pub proof fn dropped_index_must_be_there(
    x: ExecV,
    db: Seq<char>,
    s: SqlStatement,
    now: u64,
    name: Seq<char>,
)
    requires
        s matches SqlStatement::Drop { kind, names: list, if_exists } && kind == DropKind::Index
            && list@.len() > 0 && crate::sql::ast::path_text(list@[0]) == name,
        catalog::has_database(x.catalog, db) ==> ({
            let lists = catalog::database(x.catalog, db).indexes;
            forall|t: Seq<char>, i: int|
                lists.contains_key(t) && 0 <= i < lists[t].len() ==> !text::same_name(
                    (#[trigger] lists[t][i]).name,
                    name,
                )
        }),
        catalog::has_database(x.catalog, db) ==> ({
            let lists = catalog::database(x.catalog, db).indexes;
            names::lists(lists, names::listing(lists))
        }),
    ensures
        is_refused(x, db, s, now, "Unknown index: "@ + name),
{
    if catalog::has_database(x.catalog, db) {
        let lists = catalog::database(x.catalog, db).indexes;
        let keys = names::listing(lists);
        let p = |t: Seq<char>| catalog::index_place(lists[t], name) is Some;
        assert forall|i: int| 0 <= i < keys.len() implies !p(#[trigger] keys[i]) by {
            let t = keys[i];
            assert(lists.contains_key(t));
            let q = catalog::is_named(name);
            assert forall|j: int| 0 <= j < lists[t].len() implies !q(#[trigger] lists[t][j]) by {
                assert(!text::same_name(lists[t][j].name, name));
            }
            model::lemma_first_none(lists[t], q);
        }
        model::lemma_first_none(keys, p);
    }
}

/// A row cannot be given a value that is neither a literal nor a number behind a minus
/// sign; the message shows the expression.
pub proof fn other_values_are_refused(numbers: NumbersV, e: Expression)
    requires
        !(e.node is Value),
        !(e.node matches Node::Negated(x) && x.node matches Node::Value(Literal::Number(_))),
    ensures
        eval::given_value(numbers, e) == Err::<Val, Seq<char>>(
            "Cannot evaluate expression: "@ + e.text@,
        ),
{
}

/// An index can be taken out of a catalog if and only if its table has one of the name, in
/// any case of its letters; the first of them is taken out and the others stay.
pub proof fn index_is_taken_out_of_the_catalog(
    c: catalog::CatalogV,
    db: Seq<char>,
    name: Seq<char>,
    table: Seq<char>,
)
    requires
        catalog::has_database(c, db),
        catalog::database(c, db).indexes.contains_key(text::lowercase(table)),
    ensures
        ({
            let list = catalog::database(c, db).indexes[text::lowercase(table)];
            let known = exists|k: int|
                0 <= k < list.len() && text::same_name((#[trigger] list[k]).name, name);
            &&& !known ==> catalog::index_dropped(c, db, name, table) == Err::<
                (catalog::CatalogV, crate::engine::index::IndexDefV),
                Seq<char>,
            >("Unknown index: "@ + name)
            &&& known ==> (catalog::index_dropped(c, db, name, table) matches Ok((d, def))
                && text::same_name(def.name, name) && (exists|k: int|
                0 <= k < list.len() && #[trigger] list[k] == def && catalog::indexes_of(d, db, table)
                    == list.remove(k)))
        }),
{
    let list = catalog::database(c, db).indexes[text::lowercase(table)];
    let p = catalog::is_named(name);
    if exists|k: int| 0 <= k < list.len() && text::same_name((#[trigger] list[k]).name, name) {
        let k = choose|k: int|
            0 <= k < list.len() && text::same_name((#[trigger] list[k]).name, name);
        assert(p(list[k]));
        model::lemma_first(list, p);
        if model::first(list, p) is Some {
            let i = model::first(list, p)->Some_0;
            assert(p(list[i]));
        }
    } else {
        assert forall|k: int| 0 <= k < list.len() implies !p(#[trigger] list[k]) by {
            assert(!text::same_name(list[k].name, name));
        }
        model::lemma_first_none(list, p);
    }
}

} // verus!
